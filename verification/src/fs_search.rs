//! The filesystem-search source: the search predicate handed to the indexer,
//! the ordering of the paths it returns, and the items built from them.

use vstd::prelude::*;
use vstd::multiset::Multiset;
use crate::model::{handler_icon, CommandItem, CommandType, Handler, ItemView};
use crate::strutil::{contains_seq, count_char, lex_le, lower_seq};
use crate::strutil;

verus! {

/// The debounce delay before a filesystem query is dispatched, in
/// milliseconds.
pub const DEBOUNCE_MS: u64 = 150;

/// How long an indexer call may run before it counts as failed, in
/// milliseconds.
pub const MDFIND_TIMEOUT_MS: u64 = 2000;

/// The priority class of a path: lower sorts earlier. Desktop, documents and
/// downloads come first, then files near the home root, then development
/// trees; library and hidden paths come last.
pub open spec fn path_priority(p: Seq<char>) -> int {
    let low = lower_seq(p);
    if contains_seq(low, "/desktop/"@) || contains_seq(low, "/documents/"@) || contains_seq(
        low,
        "/downloads/"@,
    ) {
        1
    } else if count_char(p, '/') <= 3 {
        2
    } else if contains_seq(low, "/developer/"@) || contains_seq(low, "/projects/"@)
        || contains_seq(low, "/code/"@) {
        3
    } else if contains_seq(low, "/library/"@) || contains_seq(low, "/."@) {
        5
    } else {
        4
    }
}

/// The priority class of a path; see `path_priority`.
pub fn get_path_priority(path: &str) -> (r: u8)
    ensures
        r as int == path_priority(path@),
{
    let low = strutil::to_lowercase(path);
    if strutil::contains(low.as_str(), "/desktop/") || strutil::contains(
        low.as_str(),
        "/documents/",
    ) || strutil::contains(low.as_str(), "/downloads/") {
        return 1;
    }
    if strutil::occurrences(path, '/') <= 3 {
        return 2;
    }
    if strutil::contains(low.as_str(), "/developer/") || strutil::contains(
        low.as_str(),
        "/projects/",
    ) || strutil::contains(low.as_str(), "/code/") {
        return 3;
    }
    if strutil::contains(low.as_str(), "/library/") || strutil::contains(low.as_str(), "/.") {
        return 5;
    }
    4
}

/// A query with every single quote escaped, as the indexer predicate wants.
pub open spec fn escaped_query(s: Seq<char>) -> Seq<char>
    decreases s.len(),
{
    if s.len() == 0 {
        Seq::empty()
    } else {
        escaped_query(s.drop_last()) + (if s.last() == '\'' {
            seq!['\\', '\'']
        } else {
            seq![s.last()]
        })
    }
}

/// Escape single quotes in a query for the indexer predicate.
pub fn escape_query(query: &str) -> (r: String)
    ensures
        r@ == escaped_query(query@),
{
    let cs = strutil::chars_of(query);
    let mut out: Vec<char> = Vec::new();
    let mut i: usize = 0;
    proof {
        assert(query@.take(0) =~= Seq::<char>::empty());
        assert(out@ =~= escaped_query(query@.take(0)));
    }
    let n = cs.len();
    while i < n
        invariant
            i <= n,
            n == cs@.len(),
            cs@ == query@,
            out@ == escaped_query(query@.take(i as int)),
        decreases n - i,
    {
        proof {
            assert(query@.take(i + 1 as int).drop_last() =~= query@.take(i as int));
            assert(query@.take(i + 1 as int).last() == query@[i as int]);
        }
        if cs[i] == '\'' {
            out.push('\\');
            out.push('\'');
        } else {
            out.push(cs[i]);
        }
        proof {
            assert(out@ =~= escaped_query(query@.take(i + 1 as int)));
        }
        i = i + 1;
    }
    proof {
        assert(query@.take(n as int) =~= query@);
    }
    strutil::string_from_chars(&out)
}

/// The combined indexer predicate for a query: an exact display-name match,
/// a display-name prefix match, or a filesystem-name prefix match, all
/// case- and diacritic-insensitive.
pub open spec fn mdfind_predicate(q: Seq<char>) -> Seq<char> {
    "(kMDItemDisplayName == '"@ + escaped_query(q) + "'cd || kMDItemDisplayName == '"@
        + escaped_query(q) + "*'cd || kMDItemFSName == '"@ + escaped_query(q) + "*'cd)"@
}

/// Build the indexer predicate for a query.
pub fn build_mdfind_predicate(query: &str) -> (r: String)
    ensures
        r@ == mdfind_predicate(query@),
{
    let e = escape_query(query);
    let mut out = String::new();
    out.append("(kMDItemDisplayName == '");
    out.append(e.as_str());
    out.append("'cd || kMDItemDisplayName == '");
    out.append(e.as_str());
    out.append("*'cd || kMDItemFSName == '");
    out.append(e.as_str());
    out.append("*'cd)");
    out
}

/// Whether a cancellable filesystem search should run at all: the query must
/// reach the minimum length and the caller must want at least one result.
pub fn should_search_fs(query: &str, max_results: usize) -> (r: bool)
    ensures
        r == (query@.len() >= crate::state::MIN_QUERY_CHARS && max_results > 0),
{
    query.unicode_len() >= crate::state::MIN_QUERY_CHARS && max_results > 0
}

/// The quick guess whether a path names a folder: a trailing separator, or
/// no dot anywhere in the path.
pub open spec fn looks_like_dir(p: Seq<char>) -> bool {
    (p.len() > 0 && p.last() == '/') || !contains_seq(p, "."@)
}

/// Whether a path looks like a folder; see `looks_like_dir`.
pub fn is_dir_heuristic(path: &str) -> (r: bool)
    ensures
        r == looks_like_dir(path@),
{
    let n = path.unicode_len();
    if n > 0 && path.get_char(n - 1) == '/' {
        return true;
    }
    !strutil::contains(path, ".")
}

/// The last component of a '/'-separated path, one trailing separator
/// ignored: what the path names, when it names anything.
pub open spec fn last_component(p: Seq<char>) -> Option<Seq<char>> {
    let t = if p.len() > 0 && p.last() == '/' {
        p.drop_last()
    } else {
        p
    };
    let c = suffix_after_slash(t);
    if c.len() == 0 {
        None
    } else {
        Some(c)
    }
}

/// The suffix of `p` after its last '/', or all of `p`.
pub open spec fn suffix_after_slash(p: Seq<char>) -> Seq<char>
    decreases p.len(),
{
    if p.len() == 0 {
        Seq::empty()
    } else if p.last() == '/' {
        Seq::empty()
    } else {
        suffix_after_slash(p.drop_last()).push(p.last())
    }
}

proof fn lemma_suffix_after_slash_at(p: Seq<char>, a: int)
    requires
        0 <= a <= p.len(),
        forall|k: int| a <= k < p.len() ==> p[k] != '/',
        a == 0 || p[a - 1] == '/',
    ensures
        suffix_after_slash(p) == p.skip(a),
    decreases p.len() - a,
{
    if a == p.len() {
        if p.len() == 0 {
            assert(p.skip(a) =~= Seq::<char>::empty());
        } else {
            assert(p.last() == '/');
            assert(p.skip(a) =~= Seq::<char>::empty());
        }
    } else {
        assert(p.last() != '/');
        lemma_suffix_after_slash_at(p.drop_last(), a);
        assert(p.drop_last().skip(a).push(p.last()) =~= p.skip(a));
    }
}

/// The label of a filesystem result: the path's last component.
pub fn file_label(path: &str) -> (r: Option<String>)
    ensures
        match r {
            Some(s) => last_component(path@) == Some(s@),
            None => (last_component(path@) is None),
        },
{
    let cs = strutil::chars_of(path);
    let mut end = cs.len();
    if end > 0 && cs[end - 1] == '/' {
        end = end - 1;
    }
    let ghost t = if path@.len() > 0 && path@.last() == '/' {
        path@.drop_last()
    } else {
        path@
    };
    proof {
        assert(cs@.take(end as int) =~= t);
    }
    let mut a: usize = end;
    while a > 0 && cs[a - 1] != '/'
        invariant
            a <= end,
            end <= cs@.len(),
            cs@ == path@,
            cs@.take(end as int) == t,
            forall|k: int| a <= k < end ==> t[k] != '/',
        decreases a,
    {
        a = a - 1;
    }
    proof {
        assert forall|k: int| a <= k < t.len() implies t[k] != '/' by {
            assert(t[k] == cs@.take(end as int)[k]);
        }
        if a > 0 {
            assert(t[a - 1] == cs@[a - 1]);
        }
        lemma_suffix_after_slash_at(t, a as int);
    }
    if a == end {
        return None;
    }
    let mut out: Vec<char> = Vec::new();
    let mut i: usize = a;
    while i < end
        invariant
            a <= i <= end,
            end <= cs@.len(),
            cs@ == path@,
            out@ == cs@.subrange(a as int, i as int),
        decreases end - i,
    {
        out.push(cs[i]);
        assert(out@ =~= cs@.subrange(a as int, i + 1 as int));
        i = i + 1;
    }
    proof {
        assert(t.skip(a as int) =~= cs@.subrange(a as int, end as int));
    }
    Some(strutil::string_from_chars(&out))
}

/// The item a streaming filesystem result path becomes, when its label can
/// be read off the path; the streaming search drops a path with no last
/// component rather than guessing a label for it.
pub open spec fn fs_item_view(p: Seq<char>) -> Option<ItemView> {
    match last_component(p) {
        None => None,
        Some(label) => {
            let handler = if looks_like_dir(p) {
                Handler::Folder
            } else {
                Handler::File
            };
            Some(
                ItemView {
                    label: label,
                    handler: handler,
                    value: p,
                    icon: handler_icon(handler),
                    ran_at: None,
                    base64_icon: None,
                    metadata: seq![
                        (
                            "type"@,
                            if looks_like_dir(p) {
                                "folder"@
                            } else {
                                "file"@
                            },
                        ),
                    ],
                    kind: CommandType::Unknown,
                },
            )
        },
    }
}

/// Build the item for one filesystem result path.
pub fn create_fs_item(path: &str) -> (r: Option<CommandItem>)
    ensures
        match r {
            Some(it) => fs_item_view(path@) == Some(it@),
            None => (fs_item_view(path@) is None),
        },
{
    let label = match file_label(path) {
        Some(l) => l,
        None => {
            return None;
        },
    };
    let is_dir = is_dir_heuristic(path);
    let handler = if is_dir {
        Handler::Folder
    } else {
        Handler::File
    };
    let mut item = CommandItem::new(label.as_str(), handler, path);
    let kind_value: &str = if is_dir {
        "folder"
    } else {
        "file"
    };
    item.set_metadata("type".to_owned(), kind_value.to_owned());
    proof {
        let m = item@.metadata;
        assert(m.len() == 1);
        assert(m =~= seq![
            (
                "type"@,
                if looks_like_dir(path@) {
                    "folder"@
                } else {
                    "file"@
                },
            ),
        ]);
    }
    Some(item)
}

/// The item a filesystem result path becomes when the filesystem itself has
/// said whether it is a folder: the last component as the label, or the
/// whole path when it has no component.
pub open spec fn fs_item_view_dir(p: Seq<char>, is_dir: bool) -> ItemView {
    let label = match last_component(p) {
        Some(l) => l,
        None => p,
    };
    let handler = if is_dir {
        Handler::Folder
    } else {
        Handler::File
    };
    ItemView {
        label: label,
        handler: handler,
        value: p,
        icon: handler_icon(handler),
        ran_at: None,
        base64_icon: None,
        metadata: seq![
            (
                "type"@,
                if is_dir {
                    "folder"@
                } else {
                    "file"@
                },
            ),
        ],
        kind: CommandType::Unknown,
    }
}

/// Build the item for one filesystem result path whose kind the filesystem
/// has reported; a path without a last component keeps the whole path as
/// its label.
pub fn create_fs_item_with_dir(path: &str, is_dir: bool) -> (r: CommandItem)
    ensures
        r@ == fs_item_view_dir(path@, is_dir),
{
    let label = match file_label(path) {
        Some(l) => l,
        None => path.to_owned(),
    };
    let handler = if is_dir {
        Handler::Folder
    } else {
        Handler::File
    };
    let mut item = CommandItem::new(label.as_str(), handler, path);
    let kind_value: &str = if is_dir {
        "folder"
    } else {
        "file"
    };
    item.set_metadata("type".to_owned(), kind_value.to_owned());
    proof {
        assert(item@.metadata =~= seq![
            (
                "type"@,
                if is_dir {
                    "folder"@
                } else {
                    "file"@
                },
            ),
        ]);
    }
    item
}

/// How deep under the home directory a path lies: the number of components
/// below home, or past every real depth for a path outside home.
pub open spec fn path_depth(p: Seq<char>, home: Seq<char>) -> int {
    if p.len() >= home.len() && p.take(home.len() as int) == home {
        let rest = trim_slashes(p.skip(home.len() as int));
        if rest.len() == 0 {
            0
        } else {
            count_char(rest, '/') + 1 as int
        }
    } else {
        usize::MAX as int
    }
}

/// `s` without leading path separators.
pub open spec fn trim_slashes(s: Seq<char>) -> Seq<char>
    decreases s.len(),
{
    if s.len() > 0 && s[0] == '/' {
        trim_slashes(s.skip(1))
    } else {
        s
    }
}

proof fn lemma_trim_slashes_at(s: Seq<char>, a: int)
    requires
        0 <= a <= s.len(),
        forall|k: int| 0 <= k < a ==> s[k] == '/',
        a == s.len() || s[a] != '/',
    ensures
        trim_slashes(s) == s.skip(a),
    decreases a,
{
    if a == 0 {
        assert(s.skip(0) =~= s);
    } else {
        lemma_trim_slashes_at(s.skip(1), a - 1);
        assert(s.skip(1).skip(a - 1) =~= s.skip(a));
    }
}

/// The depth of a path under the home directory; see `path_depth`.
pub fn depth_under_home(path: &str, home: &str) -> (r: usize)
    ensures
        r as int == path_depth(path@, home@),
{
    let p = strutil::chars_of(path);
    let h = strutil::chars_of(home);
    if p.len() < h.len() {
        proof {
            assert(!(path@.len() >= home@.len() && path@.take(home@.len() as int) == home@));
        }
        return usize::MAX;
    }
    let mut i: usize = 0;
    let hn = h.len();
    while i < hn
        invariant
            i <= hn,
            hn == h@.len(),
            h@.len() <= p@.len(),
            p@ == path@,
            h@ == home@,
            forall|k: int| 0 <= k < i ==> p@[k] == h@[k],
        decreases hn - i,
    {
        if p[i] != h[i] {
            proof {
                assert(path@.take(home@.len() as int)[i as int] != home@[i as int]);
            }
            return usize::MAX;
        }
        i = i + 1;
    }
    proof {
        assert(path@.take(home@.len() as int) =~= home@);
    }
    let ghost rest = path@.skip(home@.len() as int);
    let pn = p.len();
    let mut a: usize = hn;
    while a < pn && p[a] == '/'
        invariant
            hn <= a <= pn,
            pn == p@.len(),
            p@ == path@,
            hn == home@.len(),
            rest == path@.skip(hn as int),
            forall|k: int| hn <= k < a ==> p@[k] == '/',
        decreases pn - a,
    {
        a = a + 1;
    }
    proof {
        assert forall|k: int| 0 <= k < a - hn implies rest[k] == '/' by {
            assert(rest[k] == path@[hn + k]);
        }
        if a < pn {
            assert(rest[a - hn] == path@[a as int]);
        }
        lemma_trim_slashes_at(rest, a - hn);
    }
    if a == pn {
        proof {
            assert(trim_slashes(rest) =~= Seq::<char>::empty());
        }
        return 0;
    }
    let ghost trimmed = trim_slashes(rest);
    let mut count: usize = 0;
    let mut j: usize = a;
    proof {
        assert(trimmed =~= path@.skip(a as int));
        crate::strutil::lemma_count_char_bound(trimmed, '/');
        assert(trimmed.take(0) =~= Seq::<char>::empty());
    }
    while j < pn
        invariant
            a <= j <= pn,
            pn == p@.len(),
            p@ == path@,
            trimmed == path@.skip(a as int),
            trimmed.len() == pn - a,
            count == count_char(trimmed.take(j - a as int), '/'),
            count <= j - a,
        decreases pn - j,
    {
        proof {
            assert(trimmed.take(j - a + 1 as int).drop_last() =~= trimmed.take(j - a as int));
            assert(trimmed.take(j - a + 1 as int).last() == trimmed[j - a as int]);
            assert(trimmed[j - a as int] == path@[j as int]);
        }
        if p[j] == '/' {
            count = count + 1;
        }
        j = j + 1;
    }
    proof {
        assert(trimmed.take(pn - a as int) =~= trimmed);
        assert(trimmed.len() > 0);
        assert(trimmed[0] == path@[a as int]);
        crate::strutil::lemma_count_char_strict(trimmed, '/');
    }
    count + 1
}

/// The order on last path components: a path with none comes first, then
/// lexicographic order.
pub open spec fn component_le(a: Option<Seq<char>>, b: Option<Seq<char>>) -> bool {
    match (a, b) {
        (Option::None, _) => true,
        (Option::Some(_), Option::None) => false,
        (Option::Some(x), Option::Some(y)) => lex_le(x, y),
    }
}

/// `a` sorts no later than `b` among indexer results: shallower under home
/// first, then by priority class, then by file name.
pub open spec fn path_le(home: Seq<char>, a: Seq<char>, b: Seq<char>) -> bool {
    let da = path_depth(a, home);
    let db = path_depth(b, home);
    if da != db {
        da < db
    } else if path_priority(a) != path_priority(b) {
        path_priority(a) < path_priority(b)
    } else {
        component_le(last_component(a), last_component(b))
    }
}

/// The path order is total.
pub proof fn lemma_path_le_total(home: Seq<char>, a: Seq<char>, b: Seq<char>)
    ensures
        path_le(home, a, b) || path_le(home, b, a),
{
    match (last_component(a), last_component(b)) {
        (Option::Some(x), Option::Some(y)) => {
            strutil::lemma_lex_le_total(x, y);
        },
        _ => {},
    }
}

/// The path order is transitive.
pub proof fn lemma_path_le_trans(home: Seq<char>, a: Seq<char>, b: Seq<char>, c: Seq<char>)
    requires
        path_le(home, a, b),
        path_le(home, b, c),
    ensures
        path_le(home, a, c),
{
    match (last_component(a), last_component(b), last_component(c)) {
        (Option::Some(x), Option::Some(y), Option::Some(z)) => {
            if lex_le(x, y) && lex_le(y, z) {
                strutil::lemma_lex_le_trans(x, y, z);
            }
        },
        _ => {},
    }
}

/// Whether `a` sorts no later than `b`; see `path_le`.
fn path_le_exec(home: &str, a: &str, b: &str) -> (r: bool)
    ensures
        r == path_le(home@, a@, b@),
{
    let da = depth_under_home(a, home);
    let db = depth_under_home(b, home);
    if da != db {
        return da < db;
    }
    let pa = get_path_priority(a);
    let pb = get_path_priority(b);
    if pa != pb {
        return pa < pb;
    }
    match (file_label(a), file_label(b)) {
        (None, _) => true,
        (Some(_), None) => false,
        (Some(x), Some(y)) => {
            let xc = strutil::chars_of(x.as_str());
            let yc = strutil::chars_of(y.as_str());
            strutil::lex_le_chars(&xc, &yc)
        },
    }
}

/// Insert a path into an ordered sequence, after every path it does not
/// outrank.
pub open spec fn insert_path(home: Seq<char>, s: Seq<Seq<char>>, v: Seq<char>) -> Seq<Seq<char>>
    decreases s.len(),
{
    if s.len() == 0 {
        seq![v]
    } else if path_le(home, s.last(), v) {
        s.push(v)
    } else {
        insert_path(home, s.drop_last(), v).push(s.last())
    }
}

/// The ordering of indexer result paths under the home directory.
pub open spec fn sort_paths_spec(home: Seq<char>, s: Seq<Seq<char>>) -> Seq<Seq<char>>
    decreases s.len(),
{
    if s.len() == 0 {
        Seq::empty()
    } else {
        insert_path(home, sort_paths_spec(home, s.drop_last()), s.last())
    }
}

/// A sequence of paths is ordered: every path sorts no later than those
/// after it.
pub open spec fn paths_sorted(home: Seq<char>, s: Seq<Seq<char>>) -> bool {
    forall|i: int, j: int| 0 <= i < j < s.len() ==> path_le(home, s[i], s[j])
}

proof fn lemma_insert_path_len(home: Seq<char>, s: Seq<Seq<char>>, v: Seq<char>)
    ensures
        insert_path(home, s, v).len() == s.len() + 1,
    decreases s.len(),
{
    if s.len() > 0 && !path_le(home, s.last(), v) {
        lemma_insert_path_len(home, s.drop_last(), v);
    }
}

proof fn lemma_insert_path_elems(home: Seq<char>, s: Seq<Seq<char>>, v: Seq<char>)
    ensures
        forall|i: int|
            0 <= i < insert_path(home, s, v).len() ==> (#[trigger] insert_path(home, s, v)[i] == v
                || exists|k: int| 0 <= k < s.len() && insert_path(home, s, v)[i] == s[k]),
    decreases s.len(),
{
    let out = insert_path(home, s, v);
    lemma_insert_path_len(home, s, v);
    if s.len() == 0 {
    } else if path_le(home, s.last(), v) {
        assert forall|i: int| 0 <= i < out.len() implies (out[i] == v || exists|k: int|
            0 <= k < s.len() && out[i] == s[k]) by {
            if i < s.len() {
                assert(out[i] == s[i]);
            }
        }
    } else {
        let dl = s.drop_last();
        lemma_insert_path_elems(home, dl, v);
        lemma_insert_path_len(home, dl, v);
        let inner = insert_path(home, dl, v);
        assert forall|i: int| 0 <= i < out.len() implies (out[i] == v || exists|k: int|
            0 <= k < s.len() && out[i] == s[k]) by {
            if i < inner.len() {
                assert(out[i] == inner[i]);
                if inner[i] != v {
                    let k = choose|k: int| 0 <= k < dl.len() && inner[i] == dl[k];
                    assert(out[i] == s[k]);
                }
            } else {
                assert(out[i] == s[s.len() - 1]);
            }
        }
    }
}

proof fn lemma_insert_path_sorted(home: Seq<char>, s: Seq<Seq<char>>, v: Seq<char>)
    requires
        paths_sorted(home, s),
    ensures
        paths_sorted(home, insert_path(home, s, v)),
    decreases s.len(),
{
    let out = insert_path(home, s, v);
    lemma_insert_path_len(home, s, v);
    if s.len() == 0 {
    } else if path_le(home, s.last(), v) {
        assert forall|i: int, j: int| 0 <= i < j < out.len() implies path_le(
            home,
            out[i],
            out[j],
        ) by {
            if j == out.len() - 1 {
                if i < s.len() - 1 {
                    lemma_path_le_trans(home, s[i], s.last(), v);
                }
            }
        }
    } else {
        let dl = s.drop_last();
        assert(paths_sorted(home, dl));
        lemma_insert_path_sorted(home, dl, v);
        let inner = insert_path(home, dl, v);
        lemma_insert_path_len(home, dl, v);
        lemma_insert_path_elems(home, dl, v);
        lemma_path_le_total(home, s.last(), v);
        assert forall|i: int, j: int| 0 <= i < j < out.len() implies path_le(
            home,
            out[i],
            out[j],
        ) by {
            if j == out.len() - 1 {
                if exists|k: int| 0 <= k < dl.len() && out[i] == dl[k] {
                    let k = choose|k: int| 0 <= k < dl.len() && out[i] == dl[k];
                    assert(path_le(home, s[k], s[s.len() - 1]));
                } else {
                    assert(out[i] == v);
                }
            }
        }
    }
}

proof fn lemma_insert_path_multiset(home: Seq<char>, s: Seq<Seq<char>>, v: Seq<char>)
    ensures
        insert_path(home, s, v).to_multiset() == s.to_multiset().insert(v),
    decreases s.len(),
{
    broadcast use vstd::seq_lib::group_to_multiset_ensures;

    let out = insert_path(home, s, v);
    if s.len() == 0 {
        assert(seq![v] =~= Seq::empty().push(v));
        assert(Seq::<Seq<char>>::empty().to_multiset() =~= Multiset::empty());
        assert(out.to_multiset() =~= s.to_multiset().insert(v));
    } else if path_le(home, s.last(), v) {
        assert(out.to_multiset() =~= s.to_multiset().insert(v));
    } else {
        let dl = s.drop_last();
        lemma_insert_path_multiset(home, dl, v);
        assert(dl.push(s.last()) =~= s);
        assert(out.to_multiset() =~= insert_path(home, dl, v).to_multiset().insert(s.last()));
        assert(s.to_multiset() =~= dl.to_multiset().insert(s.last()));
        assert(out.to_multiset() =~= s.to_multiset().insert(v));
    }
}

/// The ordering of any sequence of paths is ordered.
pub proof fn lemma_sort_paths_sorted(home: Seq<char>, s: Seq<Seq<char>>)
    ensures
        paths_sorted(home, sort_paths_spec(home, s)),
    decreases s.len(),
{
    if s.len() > 0 {
        lemma_sort_paths_sorted(home, s.drop_last());
        lemma_insert_path_sorted(home, sort_paths_spec(home, s.drop_last()), s.last());
    }
}

/// The ordering of paths permutes its input: same paths, same counts.
pub proof fn lemma_sort_paths_multiset(home: Seq<char>, s: Seq<Seq<char>>)
    ensures
        sort_paths_spec(home, s).to_multiset() == s.to_multiset(),
    decreases s.len(),
{
    broadcast use vstd::seq_lib::group_to_multiset_ensures;

    if s.len() > 0 {
        lemma_sort_paths_multiset(home, s.drop_last());
        lemma_insert_path_multiset(home, sort_paths_spec(home, s.drop_last()), s.last());
        assert(s.drop_last().push(s.last()) =~= s);
        assert(s.to_multiset() =~= s.drop_last().to_multiset().insert(s.last()));
    }
}

proof fn lemma_insert_path_at(home: Seq<char>, s: Seq<Seq<char>>, v: Seq<char>, p: int)
    requires
        0 <= p <= s.len(),
        p == 0 || path_le(home, s[p - 1], v),
        forall|j: int| p <= j < s.len() ==> !path_le(home, #[trigger] s[j], v),
    ensures
        insert_path(home, s, v) == s.take(p) + seq![v] + s.skip(p),
    decreases s.len(),
{
    if s.len() == 0 {
        assert(insert_path(home, s, v) =~= s.take(p) + seq![v] + s.skip(p));
    } else if path_le(home, s.last(), v) {
        assert(p == s.len());
        assert(s.push(v) =~= s.take(p) + seq![v] + s.skip(p));
    } else {
        let dl = s.drop_last();
        assert(p < s.len());
        lemma_insert_path_at(home, dl, v, p);
        assert(insert_path(home, dl, v).push(s.last()) =~= s.take(p) + seq![v] + s.skip(p));
    }
}

fn insert_path_exec(home: &str, out: &mut Vec<String>, path: String)
    ensures
        path_views(final(out)@) == insert_path(home@, path_views(old(out)@), path@),
{
    let ghost s = path_views(out@);
    let mut p: usize = out.len();
    while p > 0
        invariant
            p <= out@.len(),
            s == path_views(out@),
            forall|j: int| p <= j < s.len() ==> !path_le(home@, #[trigger] s[j], path@),
        ensures
            p <= out@.len(),
            p == 0 || path_le(home@, s[p - 1], path@),
            forall|j: int| p <= j < s.len() ==> !path_le(home@, #[trigger] s[j], path@),
        decreases p,
    {
        if path_le_exec(home, out[p - 1].as_str(), path.as_str()) {
            break ;
        }
        p = p - 1;
    }
    proof {
        lemma_insert_path_at(home@, s, path@, p as int);
    }
    out.insert(p, path);
    proof {
        assert(path_views(out@) =~= s.take(p as int) + seq![path@] + s.skip(p as int));
    }
}

/// Order indexer result paths: shallower under home first, then by priority
/// class, then by file name. The result is exactly the ordering
/// `sort_paths_spec` describes.
pub fn sort_paths(home: &str, paths: Vec<String>) -> (r: Vec<String>)
    ensures
        path_views(r@) == sort_paths_spec(home@, path_views(paths@)),
{
    let mut out: Vec<String> = Vec::new();
    let paths = paths;
    let mut i: usize = 0;
    let ghost all = path_views(paths@);
    proof {
        assert(path_views(Seq::<String>::empty()) =~= Seq::<Seq<char>>::empty());
        assert(sort_paths_spec(home@, all.take(0)) =~= Seq::<Seq<char>>::empty());
    }
    let n = paths.len();
    while i < n
        invariant
            i <= n,
            n == paths@.len(),
            all == path_views(paths@),
            path_views(out@) == sort_paths_spec(home@, all.take(i as int)),
        decreases n - i,
    {
        let path = paths[i].clone();
        proof {
            assert(all.take(i + 1 as int).drop_last() =~= all.take(i as int));
            assert(all.take(i + 1 as int).last() == all[i as int]);
            assert(all[i as int] == paths@[i as int]@);
        }
        insert_path_exec(home, &mut out, path);
        i = i + 1;
    }
    proof {
        assert(all.take(n as int) =~= all);
    }
    out
}

/// The streaming filesystem items for a list of result paths, at most
/// `max` of them, in order.
pub open spec fn fs_items_spec(paths: Seq<Seq<char>>) -> Seq<ItemView>
    decreases paths.len(),
{
    if paths.len() == 0 {
        Seq::empty()
    } else {
        fs_items_spec(paths.drop_last()) + (match fs_item_view(paths.last()) {
            Some(v) => seq![v],
            None => Seq::empty(),
        })
    }
}

/// The views of a vector of path strings.
pub open spec fn path_views(paths: Seq<String>) -> Seq<Seq<char>> {
    paths.map_values(|p: String| p@)
}

/// Build the streaming filesystem items for the result paths, keeping at
/// most `max_results` of them.
pub fn fs_items_from_paths(paths: &Vec<String>, max_results: usize) -> (r: Vec<CommandItem>)
    ensures
        crate::ranking::views_of(r@) == (if fs_items_spec(path_views(paths@)).len()
            <= max_results {
            fs_items_spec(path_views(paths@))
        } else {
            fs_items_spec(path_views(paths@)).take(max_results as int)
        }),
{
    let ghost all = path_views(paths@);
    let mut out: Vec<CommandItem> = Vec::new();
    let mut i: usize = 0;
    proof {
        assert(all.take(0) =~= Seq::<Seq<char>>::empty());
        assert(fs_items_spec(all.take(0)) =~= Seq::<ItemView>::empty());
        assert(crate::ranking::views_of(out@) =~= fs_items_spec(all.take(0)));
    }
    let n = paths.len();
    while i < n
        invariant
            i <= n,
            n == paths@.len(),
            all == path_views(paths@),
            crate::ranking::views_of(out@) == fs_items_spec(all.take(i as int)),
        decreases n - i,
    {
        proof {
            assert(all.take(i + 1 as int).drop_last() =~= all.take(i as int));
            assert(all.take(i + 1 as int).last() == all[i as int]);
            assert(all[i as int] == paths@[i as int]@);
        }
        match create_fs_item(paths[i].as_str()) {
            Some(item) => {
                let ghost prev = out@;
                out.push(item);
                proof {
                    crate::ranking::lemma_views_push(prev, out@.last());
                    assert(crate::ranking::views_of(out@) =~= fs_items_spec(
                        all.take(i + 1 as int),
                    ));
                }
            },
            None => {
                proof {
                    assert(fs_items_spec(all.take(i + 1 as int)) =~= fs_items_spec(
                        all.take(i as int),
                    ));
                }
            },
        }
        i = i + 1;
    }
    proof {
        assert(all.take(n as int) =~= all);
    }
    out.truncate(max_results);
    proof {
        let full = fs_items_spec(all);
        if full.len() <= max_results {
            assert(crate::ranking::views_of(out@) =~= full);
        } else {
            assert(crate::ranking::views_of(out@) =~= full.take(max_results as int));
        }
    }
    out
}

} // verus!
