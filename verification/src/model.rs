//! The data model: result items, their execution handlers and ranking kinds.

use vstd::prelude::*;

verus! {

/// What activating an item does: open an application, show a note, open a
/// URL, run an automation, or reveal/open a filesystem entry.
#[derive(Clone, Copy, Debug, PartialEq, Eq, PartialOrd, Ord, Hash, Structural)]
pub enum Handler {
    App,
    Note,
    Url,
    Automation,
    Folder,
    File,
}

/// The ranking classification of an item, independent of its `Handler`.
#[derive(Clone, Copy, Debug, PartialEq, Eq, Hash, Structural)]
pub enum CommandType {
    App,
    Bookmark,
    Note,
    WebSearch,
    WebSuggestion,
    Unknown,
}

impl Default for CommandType {
    fn default() -> (r: Self)
        ensures
            r == CommandType::Unknown,
    {
        CommandType::Unknown
    }
}

/// The display name of a handler.
pub open spec fn handler_name(h: Handler) -> Seq<char> {
    match h {
        Handler::Url => "Website"@,
        Handler::App => "Application"@,
        Handler::Note => "Note"@,
        Handler::File => "File"@,
        Handler::Folder => "Folder"@,
        Handler::Automation => "Shortcut"@,
    }
}

/// The display glyph of a handler.
pub open spec fn handler_icon(h: Handler) -> Seq<char> {
    match h {
        Handler::Url => "\u{1f517}"@,
        Handler::App => "\u{1f4f1}"@,
        Handler::Note => "\u{1f4dd}"@,
        Handler::File => "\u{1f4c4}"@,
        Handler::Folder => "\u{1f4c1}"@,
        Handler::Automation => "\u{26a1}"@,
    }
}

impl Handler {
    pub fn to_string(&self) -> (r: &'static str)
        ensures
            r@ == handler_name(*self),
    {
        match self {
            Handler::Url => "Website",
            Handler::App => "Application",
            Handler::Note => "Note",
            Handler::File => "File",
            Handler::Folder => "Folder",
            Handler::Automation => "Shortcut",
        }
    }

    pub fn to_icon(&self) -> (r: &'static str)
        ensures
            r@ == handler_icon(*self),
    {
        match self {
            Handler::Url => "\u{1f517}",
            Handler::App => "\u{1f4f1}",
            Handler::Note => "\u{1f4dd}",
            Handler::File => "\u{1f4c4}",
            Handler::Folder => "\u{1f4c1}",
            Handler::Automation => "\u{26a1}",
        }
    }
}

/// The mathematical model of a `CommandItem`: every string as its character
/// sequence, the metadata as a sequence of key/value pairs.
pub struct ItemView {
    pub label: Seq<char>,
    pub handler: Handler,
    pub value: Seq<char>,
    pub icon: Seq<char>,
    pub ran_at: Option<i64>,
    pub base64_icon: Option<Seq<char>>,
    pub metadata: Seq<(Seq<char>, Seq<char>)>,
    pub kind: CommandType,
}

/// A single result the user can select and execute.
///
/// `ran_at` is a millisecond timestamp, stamped once when the item is
/// recorded into history; `metadata` holds free-form annotations under
/// unique keys.
#[derive(Debug)]
pub struct CommandItem {
    pub label: String,
    pub handler: Handler,
    pub value: String,
    pub icon: String,
    pub ran_at: Option<i64>,
    pub base64_icon: Option<String>,
    pub metadata: Vec<(String, String)>,
    pub kind: CommandType,
}

impl View for CommandItem {
    type V = ItemView;

    open spec fn view(&self) -> ItemView {
        ItemView {
            label: self.label@,
            handler: self.handler,
            value: self.value@,
            icon: self.icon@,
            ran_at: self.ran_at,
            base64_icon: match self.base64_icon {
                Some(s) => Some(s@),
                None => None,
            },
            metadata: self.metadata@.map_values(|p: (String, String)| (p.0@, p.1@)),
            kind: self.kind,
        }
    }
}

/// The identity key of an item for history deduplication.
pub open spec fn identity_key(v: ItemView) -> (Seq<char>, Handler, Seq<char>) {
    (v.label, v.handler, v.value)
}

/// The metadata pairs as a finite map; later pairs shadow earlier ones with
/// the same key, though well-formed items never hold a repeated key.
pub open spec fn meta_map(s: Seq<(Seq<char>, Seq<char>)>) -> Map<Seq<char>, Seq<char>>
    decreases s.len(),
{
    if s.len() == 0 {
        Map::empty()
    } else {
        meta_map(s.drop_last()).insert(s.last().0, s.last().1)
    }
}

/// Metadata keys are pairwise distinct.
pub open spec fn meta_keys_unique(s: Seq<(Seq<char>, Seq<char>)>) -> bool {
    forall|i: int, j: int| 0 <= i < j < s.len() ==> s[i].0 != s[j].0
}

proof fn lemma_meta_map_set(s: Seq<(Seq<char>, Seq<char>)>, i: int, v: Seq<char>)
    requires
        0 <= i < s.len(),
        meta_keys_unique(s),
    ensures
        meta_map(s.update(i, (s[i].0, v))) == meta_map(s).insert(s[i].0, v),
    decreases s.len(),
{
    let t = s.update(i, (s[i].0, v));
    if i == s.len() - 1 {
        assert(t.drop_last() =~= s.drop_last());
        assert(meta_map(t) =~= meta_map(s).insert(s[i].0, v));
    } else {
        assert(t.drop_last() =~= s.drop_last().update(i, (s[i].0, v)));
        lemma_meta_map_set(s.drop_last(), i, v);
        assert(s.last().0 != s[i].0);
        assert(meta_map(t) =~= meta_map(s).insert(s[i].0, v));
    }
}

proof fn lemma_meta_map_index(s: Seq<(Seq<char>, Seq<char>)>, i: int)
    requires
        0 <= i < s.len(),
        meta_keys_unique(s),
    ensures
        meta_map(s).contains_key(s[i].0),
        meta_map(s)[s[i].0] == s[i].1,
    decreases s.len(),
{
    if i < s.len() - 1 {
        lemma_meta_map_index(s.drop_last(), i);
        assert(s.last().0 != s[i].0);
    }
}

proof fn lemma_meta_map_absent(s: Seq<(Seq<char>, Seq<char>)>, k: Seq<char>)
    requires
        forall|i: int| 0 <= i < s.len() ==> s[i].0 != k,
    ensures
        !meta_map(s).contains_key(k),
    decreases s.len(),
{
    if s.len() > 0 {
        lemma_meta_map_absent(s.drop_last(), k);
    }
}

impl Clone for CommandItem {
    fn clone(&self) -> (res: Self)
        ensures
            res@ == self@,
    {
        CommandItem {
            label: self.label.clone(),
            handler: self.handler,
            value: self.value.clone(),
            icon: self.icon.clone(),
            ran_at: self.ran_at,
            base64_icon: match &self.base64_icon {
                Some(s) => Some(s.clone()),
                None => None,
            },
            metadata: clone_pairs(&self.metadata),
            kind: self.kind,
        }
    }
}

fn clone_pairs(v: &Vec<(String, String)>) -> (res: Vec<(String, String)>)
    ensures
        res@ == v@,
{
    let mut out: Vec<(String, String)> = Vec::new();
    let mut i: usize = 0;
    while i < v.len()
        invariant
            i <= v.len(),
            out@ == v@.subrange(0, i as int),
        decreases v.len() - i,
    {
        out.push((v[i].0.clone(), v[i].1.clone()));
        assert(out@ =~= v@.subrange(0, i + 1 as int));
        i = i + 1;
    }
    assert(out@ =~= v@);
    out
}

impl CommandItem {
    /// A fresh item: never executed, no extracted icon, no metadata, the
    /// default ranking kind, and the handler's glyph as its icon.
    pub fn new(label: &str, handler: Handler, value: &str) -> (r: Self)
        ensures
            r@.label == label@,
            r@.handler == handler,
            r@.value == value@,
            r@.icon == handler_icon(handler),
            (r@.ran_at is None),
            (r@.base64_icon is None),
            r@.metadata == Seq::<(Seq<char>, Seq<char>)>::empty(),
            r@.kind == CommandType::Unknown,
    {
        let r = CommandItem {
            label: label.to_owned(),
            handler,
            value: value.to_owned(),
            icon: handler.to_icon().to_owned(),
            ran_at: None,
            base64_icon: None,
            metadata: Vec::new(),
            kind: CommandType::Unknown,
        };
        assert(r@.metadata =~= Seq::<(Seq<char>, Seq<char>)>::empty());
        r
    }

    /// Stamp this item as executed at the given millisecond timestamp.
    pub fn mark_executed_at(&mut self, now_ms: i64)
        ensures
            final(self)@ == (ItemView { ran_at: Some(now_ms), ..old(self)@ }),
    {
        self.ran_at = Some(now_ms);
    }

    /// Stamp this item as executed at the current wall-clock time.
    pub fn mark_executed(&mut self)
        ensures
            (final(self)@.ran_at is Some),
            final(self)@ == (ItemView { ran_at: final(self)@.ran_at, ..old(self)@ }),
    {
        let now = crate::clock::now_millis();
        self.mark_executed_at(now);
    }

    /// Insert or replace a metadata annotation under the given key.
    pub fn set_metadata(&mut self, key: String, value: String)
        requires
            meta_keys_unique(old(self)@.metadata),
        ensures
            meta_keys_unique(final(self)@.metadata),
            meta_map(final(self)@.metadata) == meta_map(old(self)@.metadata).insert(key@, value@),
            final(self)@ == (ItemView { metadata: final(self)@.metadata, ..old(self)@ }),
            !meta_map(old(self)@.metadata).contains_key(key@) ==> final(self)@.metadata == old(
                self,
            )@.metadata.push((key@, value@)),
    {
        let ghost m0 = self@.metadata;
        match find_pair(&self.metadata, &key) {
            Some(i) => {
                self.metadata.set(i, (key, value));
                proof {
                    assert(self@.metadata =~= m0.update(i as int, (m0[i as int].0, value@)));
                    lemma_meta_map_set(m0, i as int, value@);
                    lemma_meta_map_index(m0, i as int);
                    assert forall|p: int, q: int|
                        0 <= p < q < self@.metadata.len() implies self@.metadata[p].0
                        != self@.metadata[q].0 by {
                        assert(m0[p].0 != m0[q].0);
                    }
                }
            },
            None => {
                self.metadata.push((key, value));
                proof {
                    assert(self@.metadata =~= m0.push((key@, value@)));
                    assert(self@.metadata.drop_last() =~= m0);
                    assert forall|p: int, q: int|
                        0 <= p < q < self@.metadata.len() implies self@.metadata[p].0
                        != self@.metadata[q].0 by {
                        if q < m0.len() {
                            assert(m0[p].0 != m0[q].0);
                        } else {
                            assert(m0[p].0 != key@);
                        }
                    }
                }
            },
        }
    }

    /// Look a metadata annotation up by its key.
    pub fn get_metadata(&self, key: &str) -> (r: Option<&String>)
        requires
            meta_keys_unique(self@.metadata),
        ensures
            match r {
                Some(v) => meta_map(self@.metadata).contains_key(key@) && meta_map(
                    self@.metadata,
                )[key@] == v@,
                None => !meta_map(self@.metadata).contains_key(key@),
            },
    {
        let k = key.to_owned();
        match find_pair(&self.metadata, &k) {
            Some(i) => {
                proof {
                    lemma_meta_map_index(self@.metadata, i as int);
                }
                Some(&self.metadata[i].1)
            },
            None => {
                proof {
                    lemma_meta_map_absent(self@.metadata, key@);
                }
                None
            },
        }
    }
}

/// The index of the pair holding the given key, if any pair does.
fn find_pair(v: &Vec<(String, String)>, key: &String) -> (r: Option<usize>)
    ensures
        match r {
            Some(i) => i < v@.len() && v@[i as int].0@ == key@,
            None => forall|j: int| 0 <= j < v@.len() ==> v@[j].0@ != key@,
        },
{
    let mut i: usize = 0;
    while i < v.len()
        invariant
            i <= v.len(),
            forall|j: int| 0 <= j < i ==> v@[j].0@ != key@,
        decreases v.len() - i,
    {
        if v[i].0 == *key {
            return Some(i);
        }
        i = i + 1;
    }
    None
}

impl PartialEq for CommandItem {
    fn eq(&self, other: &Self) -> (r: bool)
        ensures
            r == (self@ == other@),
    {
        let fields_eq = self.label == other.label && self.handler == other.handler && self.value
            == other.value && self.icon == other.icon && opt_i64_eq(&self.ran_at, &other.ran_at)
            && opt_string_eq(&self.base64_icon, &other.base64_icon) && self.kind == other.kind;
        let r = fields_eq && pairs_eq(&self.metadata, &other.metadata);
        proof {
            if r {
                assert(self@.metadata =~= other@.metadata);
                assert(self@ == other@);
            }
        }
        r
    }
}

impl vstd::std_specs::cmp::PartialEqSpecImpl for CommandItem {
    open spec fn obeys_eq_spec() -> bool {
        true
    }

    open spec fn eq_spec(&self, other: &Self) -> bool {
        self@ == other@
    }
}

fn opt_i64_eq(a: &Option<i64>, b: &Option<i64>) -> (r: bool)
    ensures
        r == (*a == *b),
{
    match (a, b) {
        (Some(x), Some(y)) => *x == *y,
        (None, None) => true,
        _ => false,
    }
}

fn opt_string_eq(a: &Option<String>, b: &Option<String>) -> (r: bool)
    ensures
        r == (match (a, b) {
            (Some(x), Some(y)) => x@ == y@,
            (None, None) => true,
            _ => false,
        }),
{
    match (a, b) {
        (Some(x), Some(y)) => *x == *y,
        (None, None) => true,
        _ => false,
    }
}

fn pairs_eq(a: &Vec<(String, String)>, b: &Vec<(String, String)>) -> (r: bool)
    ensures
        r == (a@.map_values(|p: (String, String)| (p.0@, p.1@)) == b@.map_values(
            |p: (String, String)| (p.0@, p.1@),
        )),
{
    let ghost av = a@.map_values(|p: (String, String)| (p.0@, p.1@));
    let ghost bv = b@.map_values(|p: (String, String)| (p.0@, p.1@));
    if a.len() != b.len() {
        proof {
            assert(av.len() != bv.len());
        }
        return false;
    }
    let mut i: usize = 0;
    while i < a.len()
        invariant
            i <= a.len(),
            a@.len() == b@.len(),
            av == a@.map_values(|p: (String, String)| (p.0@, p.1@)),
            bv == b@.map_values(|p: (String, String)| (p.0@, p.1@)),
            forall|j: int| 0 <= j < i ==> av[j] == bv[j],
        decreases a.len() - i,
    {
        if !(a[i].0 == b[i].0 && a[i].1 == b[i].1) {
            proof {
                assert(av[i as int] != bv[i as int]);
            }
            return false;
        }
        i = i + 1;
    }
    proof {
        assert(av =~= bv);
    }
    true
}

} // verus!
