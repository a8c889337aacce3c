//! The persistent encoding of the usage history: a compact self-delimiting
//! record format over characters, with a proved round trip between encoding
//! and decoding.
//!
//! Strings are escaped and terminated, timestamps are eight raw bytes,
//! handlers and kinds are one tag character each, options and metadata
//! entries carry their own tag characters: every record ends where the next
//! begins, so the history needs no length header.

use vstd::prelude::*;
use crate::model::{CommandItem, CommandType, Handler, ItemView};
use crate::ranking::views_of;
use crate::strutil;

verus! {

/// A payload character, escaped: the escape and terminator characters hide
/// behind the escape character.
pub open spec fn esc_char(c: char) -> Seq<char> {
    if c == '\\' || c == '|' {
        seq!['\\', c]
    } else {
        seq![c]
    }
}

/// A payload string, escaped.
pub open spec fn escaped(s: Seq<char>) -> Seq<char>
    decreases s.len(),
{
    if s.len() == 0 {
        Seq::empty()
    } else {
        esc_char(s[0]) + escaped(s.skip(1))
    }
}

/// An encoded string: the escaped payload, terminated.
pub open spec fn enc_str(s: Seq<char>) -> Seq<char> {
    escaped(s) + seq!['|']
}

/// One byte of a 64-bit value, as a character.
pub open spec fn byte_char(x: u64, shift: u64) -> char {
    (((x >> shift) & 0xff) as u8) as char
}

/// An encoded 64-bit value: its eight bytes, most significant first.
pub open spec fn enc_u64(x: u64) -> Seq<char> {
    seq![
        byte_char(x, 56),
        byte_char(x, 48),
        byte_char(x, 40),
        byte_char(x, 32),
        byte_char(x, 24),
        byte_char(x, 16),
        byte_char(x, 8),
        byte_char(x, 0),
    ]
}

/// An encoded optional timestamp.
pub open spec fn enc_opt_i64(o: Option<i64>) -> Seq<char> {
    match o {
        None => seq!['-'],
        Some(t) => seq!['+'] + enc_u64(t as u64),
    }
}

/// An encoded optional string.
pub open spec fn enc_opt_str(o: Option<Seq<char>>) -> Seq<char> {
    match o {
        None => seq!['-'],
        Some(s) => seq!['+'] + enc_str(s),
    }
}

/// The tag character of a handler.
pub open spec fn handler_tag(h: Handler) -> char {
    match h {
        Handler::App => 'a',
        Handler::Note => 'n',
        Handler::Url => 'u',
        Handler::Automation => 's',
        Handler::Folder => 'd',
        Handler::File => 'f',
    }
}

/// The tag character of a ranking kind.
pub open spec fn kind_tag(k: CommandType) -> char {
    match k {
        CommandType::App => 'a',
        CommandType::Bookmark => 'b',
        CommandType::Note => 'n',
        CommandType::WebSearch => 'w',
        CommandType::WebSuggestion => 'g',
        CommandType::Unknown => 'k',
    }
}

/// Encoded metadata: one tagged key/value pair per entry, then an end tag.
pub open spec fn enc_meta(m: Seq<(Seq<char>, Seq<char>)>) -> Seq<char>
    decreases m.len(),
{
    if m.len() == 0 {
        seq!['e']
    } else {
        seq!['m'] + enc_str(m[0].0) + enc_str(m[0].1) + enc_meta(m.skip(1))
    }
}

/// One encoded history item: every field in a fixed order.
pub open spec fn enc_item(v: ItemView) -> Seq<char> {
    enc_str(v.label) + seq![handler_tag(v.handler)] + enc_str(v.value) + enc_str(v.icon)
        + enc_opt_i64(v.ran_at) + enc_opt_str(v.base64_icon) + enc_meta(v.metadata) + seq![
        kind_tag(v.kind),
    ]
}

/// The encoded history: its items, oldest first, one after the other.
pub open spec fn enc_history(hs: Seq<ItemView>) -> Seq<char>
    decreases hs.len(),
{
    if hs.len() == 0 {
        Seq::empty()
    } else {
        enc_item(hs[0]) + enc_history(hs.skip(1))
    }
}

proof fn lemma_escaped_append(a: Seq<char>, b: Seq<char>)
    ensures
        escaped(a + b) == escaped(a) + escaped(b),
    decreases a.len(),
{
    if a.len() == 0 {
        assert(a + b =~= b);
        assert(escaped(a) + escaped(b) =~= escaped(b));
    } else {
        assert((a + b).skip(1) =~= a.skip(1) + b);
        lemma_escaped_append(a.skip(1), b);
        assert(escaped(a + b) =~= escaped(a) + escaped(b));
    }
}

fn encode_str_into(out: &mut Vec<char>, s: &str)
    ensures
        final(out)@ == old(out)@ + enc_str(s@),
{
    let ghost base = out@;
    let cs = strutil::chars_of(s);
    let mut i: usize = 0;
    proof {
        assert(s@.take(0) =~= Seq::<char>::empty());
        assert(out@ =~= base + escaped(s@.take(0)));
    }
    let n = cs.len();
    while i < n
        invariant
            i <= n,
            n == cs@.len(),
            cs@ == s@,
            out@ == base + escaped(s@.take(i as int)),
        decreases n - i,
    {
        let c = cs[i];
        if c == '\\' || c == '|' {
            out.push('\\');
            out.push(c);
        } else {
            out.push(c);
        }
        proof {
            assert(s@.take(i + 1 as int) =~= s@.take(i as int) + seq![s@[i as int]]);
            lemma_escaped_append(s@.take(i as int), seq![s@[i as int]]);
            assert(seq![s@[i as int]].skip(1) =~= Seq::<char>::empty());
            assert(escaped(Seq::<char>::empty()) =~= Seq::<char>::empty());
            assert(escaped(seq![s@[i as int]]) =~= esc_char(s@[i as int]));
            assert(out@ =~= base + escaped(s@.take(i + 1 as int)));
        }
        i = i + 1;
    }
    proof {
        assert(s@.take(n as int) =~= s@);
    }
    out.push('|');
    proof {
        assert(out@ =~= base + enc_str(s@));
    }
}

fn byte_char_exec(x: u64, shift: u64) -> (r: char)
    requires
        shift < 64,
    ensures
        r == byte_char(x, shift),
{
    (((x >> shift) & 0xff) as u8) as char
}

fn encode_u64_into(out: &mut Vec<char>, x: u64)
    ensures
        final(out)@ == old(out)@ + enc_u64(x),
{
    let ghost base = out@;
    out.push(byte_char_exec(x, 56));
    out.push(byte_char_exec(x, 48));
    out.push(byte_char_exec(x, 40));
    out.push(byte_char_exec(x, 32));
    out.push(byte_char_exec(x, 24));
    out.push(byte_char_exec(x, 16));
    out.push(byte_char_exec(x, 8));
    out.push(byte_char_exec(x, 0));
    proof {
        assert(out@ =~= base + enc_u64(x));
    }
}

#[verifier::rlimit(100)]
#[verifier::spinoff_prover]
fn encode_item_into(out: &mut Vec<char>, item: &CommandItem)
    ensures
        final(out)@ == old(out)@ + enc_item(item@),
{
    let ghost base = out@;
    encode_str_into(out, item.label.as_str());
    let ghost g1 = base + enc_str(item@.label);
    let handler_c = match item.handler {
        Handler::App => 'a',
        Handler::Note => 'n',
        Handler::Url => 'u',
        Handler::Automation => 's',
        Handler::Folder => 'd',
        Handler::File => 'f',
    };
    out.push(handler_c);
    let ghost g2 = g1 + seq![handler_tag(item@.handler)];
    proof {
        assert(out@ =~= g2);
    }
    encode_str_into(out, item.value.as_str());
    let ghost g3 = g2 + enc_str(item@.value);
    encode_str_into(out, item.icon.as_str());
    let ghost g4 = g3 + enc_str(item@.icon);
    match item.ran_at {
        Some(t) => {
            out.push('+');
            encode_u64_into(out, t as u64);
        },
        None => {
            out.push('-');
        },
    }
    let ghost g5 = g4 + enc_opt_i64(item@.ran_at);
    proof {
        assert(out@ =~= g5);
    }
    match &item.base64_icon {
        Some(b) => {
            out.push('+');
            encode_str_into(out, b.as_str());
        },
        None => {
            out.push('-');
        },
    }
    let ghost lead = g5 + enc_opt_str(item@.base64_icon);
    proof {
        assert(out@ =~= lead);
    }
    encode_meta_into(out, &item.metadata);
    let ghost g6 = lead + enc_meta(item@.metadata);
    proof {
        assert(out@ =~= g6);
    }
    let kind_c = match item.kind {
        CommandType::App => 'a',
        CommandType::Bookmark => 'b',
        CommandType::Note => 'n',
        CommandType::WebSearch => 'w',
        CommandType::WebSuggestion => 'g',
        CommandType::Unknown => 'k',
    };
    out.push(kind_c);
    proof {
        assert(out@ =~= g6 + seq![kind_tag(item@.kind)]);
        lemma_chain(
            base,
            enc_str(item@.label),
            seq![handler_tag(item@.handler)],
            enc_str(item@.value),
            enc_str(item@.icon),
            enc_opt_i64(item@.ran_at),
            enc_opt_str(item@.base64_icon),
            enc_meta(item@.metadata),
            seq![kind_tag(item@.kind)],
        );
    }
}

/// Concatenation after a common prefix reassociates.
proof fn lemma_chain(
    base: Seq<char>,
    a: Seq<char>,
    b: Seq<char>,
    c: Seq<char>,
    d: Seq<char>,
    e: Seq<char>,
    f: Seq<char>,
    g: Seq<char>,
    h: Seq<char>,
)
    ensures
        base + a + b + c + d + e + f + g + h == base + (a + b + c + d + e + f + g + h),
{
    assert(base + a + b + c + d + e + f + g + h =~= base + (a + b + c + d + e + f + g + h));
}

fn encode_meta_into(out: &mut Vec<char>, pairs: &Vec<(String, String)>)
    ensures
        final(out)@ == old(out)@ + enc_meta(
            pairs@.map_values(|p: (String, String)| (p.0@, p.1@)),
        ),
{
    let ghost base = out@;
    let ghost meta = pairs@.map_values(|p: (String, String)| (p.0@, p.1@));
    let mut j: usize = 0;
    proof {
        assert(meta.skip(0) =~= meta);
        assert(out@ + enc_meta(meta.skip(0)) =~= base + enc_meta(meta));
    }
    let m = pairs.len();
    while j < m
        invariant
            j <= m,
            m == pairs@.len(),
            meta == pairs@.map_values(|p: (String, String)| (p.0@, p.1@)),
            out@ + enc_meta(meta.skip(j as int)) == base + enc_meta(meta),
        decreases m - j,
    {
        out.push('m');
        encode_str_into(out, pairs[j].0.as_str());
        encode_str_into(out, pairs[j].1.as_str());
        proof {
            assert(meta.skip(j as int)[0] == meta[j as int]);
            assert(meta.skip(j as int).skip(1) =~= meta.skip(j + 1));
            assert(out@ + enc_meta(meta.skip(j + 1)) =~= base + enc_meta(meta));
        }
        j = j + 1;
    }
    proof {
        assert(meta.skip(m as int) =~= Seq::<(Seq<char>, Seq<char>)>::empty());
        assert(out@.push('e') =~= base + enc_meta(meta));
    }
    out.push('e');
}

/// Encode the history for persistence; `decode_history` reads it back.
pub fn encode_history(items: &Vec<CommandItem>) -> (r: String)
    ensures
        r@ == enc_history(views_of(items@)),
{
    let ghost hs = views_of(items@);
    let mut out: Vec<char> = Vec::new();
    let mut i: usize = 0;
    proof {
        assert(hs.skip(0) =~= hs);
        assert(out@ + enc_history(hs.skip(0)) =~= enc_history(hs));
    }
    let n = items.len();
    while i < n
        invariant
            i <= n,
            n == items@.len(),
            hs == views_of(items@),
            out@ + enc_history(hs.skip(i as int)) == enc_history(hs),
        decreases n - i,
    {
        encode_item_into(&mut out, &items[i]);
        proof {
            assert(hs.skip(i as int)[0] == hs[i as int]);
            assert(hs.skip(i as int).skip(1) =~= hs.skip(i + 1));
            assert(hs[i as int] == items@[i as int]@);
            assert(out@ + enc_history(hs.skip(i + 1)) =~= enc_history(hs));
        }
        i = i + 1;
    }
    proof {
        assert(hs.skip(n as int) =~= Seq::<ItemView>::empty());
        assert(out@ =~= enc_history(hs));
    }
    strutil::string_from_chars(&out)
}

/// The decoded string at the head of the input: characters up to the
/// unescaped terminator, and the rest of the input.
pub open spec fn pstr(inp: Seq<char>) -> Option<(Seq<char>, Seq<char>)>
    decreases inp.len(),
{
    if inp.len() == 0 {
        None
    } else if inp[0] == '|' {
        Some((Seq::empty(), inp.skip(1)))
    } else if inp[0] == '\\' {
        if inp.len() >= 2 {
            match pstr(inp.skip(2)) {
                Some(p) => Some((seq![inp[1]] + p.0, p.1)),
                None => None,
            }
        } else {
            None
        }
    } else {
        match pstr(inp.skip(1)) {
            Some(p) => Some((seq![inp[0]] + p.0, p.1)),
            None => None,
        }
    }
}

/// Decoding inverts encoding for strings.
pub proof fn lemma_pstr_round(s: Seq<char>, rest: Seq<char>)
    ensures
        pstr(enc_str(s) + rest) == Some((s, rest)),
    decreases s.len(),
{
    let inp = enc_str(s) + rest;
    if s.len() == 0 {
        assert(escaped(s) =~= Seq::<char>::empty());
        assert(inp =~= seq!['|'] + rest);
        assert(inp[0] == '|');
        assert(inp.skip(1) =~= rest);
    } else {
        lemma_pstr_round(s.skip(1), rest);
        if s[0] == '\\' || s[0] == '|' {
            assert(inp =~= seq!['\\', s[0]] + (enc_str(s.skip(1)) + rest));
            assert(inp[0] == '\\');
            assert(inp[1] == s[0]);
            assert(inp.skip(2) =~= enc_str(s.skip(1)) + rest);
            assert(seq![s[0]] + s.skip(1) =~= s);
        } else {
            assert(inp =~= seq![s[0]] + (enc_str(s.skip(1)) + rest));
            assert(inp[0] == s[0]);
            assert(inp.skip(1) =~= enc_str(s.skip(1)) + rest);
            assert(seq![s[0]] + s.skip(1) =~= s);
        }
    }
}

/// The decoded 64-bit value at the head of the input: eight byte-valued
/// characters, most significant first.
pub open spec fn pu64(inp: Seq<char>) -> Option<(u64, Seq<char>)> {
    if inp.len() < 8 {
        None
    } else if (inp[0] as u32) < 256 && (inp[1] as u32) < 256 && (inp[2] as u32) < 256 && (
    inp[3] as u32) < 256 && (inp[4] as u32) < 256 && (inp[5] as u32) < 256 && (inp[6] as u32) < 256
        && (inp[7] as u32) < 256 {
        Some((combine8(inp), inp.skip(8)))
    } else {
        None
    }
}

/// Eight byte-valued characters as one 64-bit value.
pub open spec fn combine8(inp: Seq<char>) -> u64 {
    (((inp[0] as u32) as u64) << 56) | (((inp[1] as u32) as u64) << 48) | (((
    inp[2] as u32) as u64) << 40) | (((inp[3] as u32) as u64) << 32) | (((inp[4] as u32) as u64)
        << 24) | (((inp[5] as u32) as u64) << 16) | (((inp[6] as u32) as u64) << 8) | ((
    inp[7] as u32) as u64)
}

/// Decoding inverts encoding for 64-bit values.
pub proof fn lemma_pu64_round(x: u64, rest: Seq<char>)
    ensures
        pu64(enc_u64(x) + rest) == Some((x, rest)),
{
    let inp = enc_u64(x) + rest;
    assert(inp[0] == byte_char(x, 56));
    assert(inp[1] == byte_char(x, 48));
    assert(inp[2] == byte_char(x, 40));
    assert(inp[3] == byte_char(x, 32));
    assert(inp[4] == byte_char(x, 24));
    assert(inp[5] == byte_char(x, 16));
    assert(inp[6] == byte_char(x, 8));
    assert(inp[7] == byte_char(x, 0));
    lemma_byte_char_val(x, 56);
    lemma_byte_char_val(x, 48);
    lemma_byte_char_val(x, 40);
    lemma_byte_char_val(x, 32);
    lemma_byte_char_val(x, 24);
    lemma_byte_char_val(x, 16);
    lemma_byte_char_val(x, 8);
    lemma_byte_char_val(x, 0);
    assert((((x >> 56) & 0xff) << 56) | (((x >> 48) & 0xff) << 48) | (((x >> 40) & 0xff) << 40) | (
    ((x >> 32) & 0xff) << 32) | (((x >> 24) & 0xff) << 24) | (((x >> 16) & 0xff) << 16) | (((x >> 8)
        & 0xff) << 8) | ((x >> 0) & 0xff) == x) by (bit_vector);
    assert(combine8(inp) == x);
    assert(inp.skip(8) =~= rest);
}

/// The value a byte character carries: the byte the encoder put there.
proof fn lemma_byte_char_val(x: u64, sh: u64)
    requires
        sh < 64,
    ensures
        ((byte_char(x, sh) as u32) as u64) == (x >> sh) & 0xff,
{
    assert(((x >> sh) & 0xff) < 256) by (bit_vector);
}

/// The handler a tag character names.
pub open spec fn phandler(c: char) -> Option<Handler> {
    if c == 'a' {
        Some(Handler::App)
    } else if c == 'n' {
        Some(Handler::Note)
    } else if c == 'u' {
        Some(Handler::Url)
    } else if c == 's' {
        Some(Handler::Automation)
    } else if c == 'd' {
        Some(Handler::Folder)
    } else if c == 'f' {
        Some(Handler::File)
    } else {
        None
    }
}

/// The ranking kind a tag character names.
pub open spec fn pkind(c: char) -> Option<CommandType> {
    if c == 'a' {
        Some(CommandType::App)
    } else if c == 'b' {
        Some(CommandType::Bookmark)
    } else if c == 'n' {
        Some(CommandType::Note)
    } else if c == 'w' {
        Some(CommandType::WebSearch)
    } else if c == 'g' {
        Some(CommandType::WebSuggestion)
    } else if c == 'k' {
        Some(CommandType::Unknown)
    } else {
        None
    }
}

/// The decoded optional timestamp at the head of the input.
pub open spec fn popt_i64(inp: Seq<char>) -> Option<(Option<i64>, Seq<char>)> {
    if inp.len() == 0 {
        None
    } else if inp[0] == '-' {
        Some((None, inp.skip(1)))
    } else if inp[0] == '+' {
        match pu64(inp.skip(1)) {
            Some(p) => Some((Some(p.0 as i64), p.1)),
            None => None,
        }
    } else {
        None
    }
}

/// The decoded optional string at the head of the input.
pub open spec fn popt_str(inp: Seq<char>) -> Option<(Option<Seq<char>>, Seq<char>)> {
    if inp.len() == 0 {
        None
    } else if inp[0] == '-' {
        Some((None, inp.skip(1)))
    } else if inp[0] == '+' {
        match pstr(inp.skip(1)) {
            Some(p) => Some((Some(p.0), p.1)),
            None => None,
        }
    } else {
        None
    }
}

/// The decoded metadata at the head of the input: tagged key/value pairs up
/// to the end tag.
pub open spec fn pmeta(inp: Seq<char>) -> Option<(Seq<(Seq<char>, Seq<char>)>, Seq<char>)>
    decreases inp.len(),
{
    if inp.len() == 0 {
        None
    } else if inp[0] == 'e' {
        Some((Seq::empty(), inp.skip(1)))
    } else if inp[0] == 'm' {
        match pstr(inp.skip(1)) {
            Some(kp) => if kp.1.len() < inp.len() {
                match pstr(kp.1) {
                    Some(vp) => if vp.1.len() < inp.len() {
                        match pmeta(vp.1) {
                            Some(mp) => Some((seq![(kp.0, vp.0)] + mp.0, mp.1)),
                            None => None,
                        }
                    } else {
                        None
                    },
                    None => None,
                }
            } else {
                None
            },
            None => None,
        }
    } else {
        None
    }
}

/// An encoded string is never empty.
proof fn lemma_enc_str_len(s: Seq<char>)
    ensures
        enc_str(s).len() >= 1,
        enc_str(s).len() >= s.len() + 1,
    decreases s.len(),
{
    if s.len() > 0 {
        lemma_enc_str_len(s.skip(1));
        assert(enc_str(s) =~= esc_char(s[0]) + enc_str(s.skip(1)));
    }
}

/// Decoding inverts encoding for metadata.
pub proof fn lemma_pmeta_round(m: Seq<(Seq<char>, Seq<char>)>, rest: Seq<char>)
    ensures
        pmeta(enc_meta(m) + rest) == Some((m, rest)),
    decreases m.len(),
{
    let inp = enc_meta(m) + rest;
    if m.len() == 0 {
        assert(inp =~= seq!['e'] + rest);
        assert(inp[0] == 'e');
        assert(inp.skip(1) =~= rest);
        assert(pmeta(inp) == Some((Seq::<(Seq<char>, Seq<char>)>::empty(), rest)));
    } else {
        let k = m[0].0;
        let v = m[0].1;
        let tail = enc_meta(m.skip(1)) + rest;
        assert(inp =~= seq!['m'] + (enc_str(k) + (enc_str(v) + tail)));
        assert(inp[0] == 'm');
        assert(inp.skip(1) =~= enc_str(k) + (enc_str(v) + tail));
        lemma_pstr_round(k, enc_str(v) + tail);
        lemma_pstr_round(v, tail);
        lemma_pmeta_round(m.skip(1), rest);
        lemma_enc_str_len(k);
        lemma_enc_str_len(v);
        assert((enc_str(v) + tail).len() < inp.len());
        assert(tail.len() < inp.len());
        assert(seq![(k, v)] + m.skip(1) =~= m);
    }
}

/// The decoded item at the head of the input: every field in the fixed
/// order `enc_item` writes them.
pub open spec fn pitem(inp: Seq<char>) -> Option<(ItemView, Seq<char>)> {
    match pstr(inp) {
        None => None,
        Some(lp) => if lp.1.len() == 0 {
            None
        } else {
            match phandler(lp.1[0]) {
                None => None,
                Some(handler) => match pstr(lp.1.skip(1)) {
                    None => None,
                    Some(vp) => match pstr(vp.1) {
                        None => None,
                        Some(ip) => match popt_i64(ip.1) {
                            None => None,
                            Some(rp) => match popt_str(rp.1) {
                                None => None,
                                Some(bp) => match pmeta(bp.1) {
                                    None => None,
                                    Some(mp) => if mp.1.len() == 0 {
                                        None
                                    } else {
                                        match pkind(mp.1[0]) {
                                            None => None,
                                            Some(kind) => Some(
                                                (
                                                    ItemView {
                                                        label: lp.0,
                                                        handler: handler,
                                                        value: vp.0,
                                                        icon: ip.0,
                                                        ran_at: rp.0,
                                                        base64_icon: bp.0,
                                                        metadata: mp.0,
                                                        kind: kind,
                                                    },
                                                    mp.1.skip(1),
                                                ),
                                            ),
                                        }
                                    },
                                },
                            },
                        },
                    },
                },
            }
        },
    }
}

/// A concatenation of eight pieces and a remainder, right-nested.
proof fn lemma_right_assoc(
    a: Seq<char>,
    b: Seq<char>,
    c: Seq<char>,
    d: Seq<char>,
    e: Seq<char>,
    f: Seq<char>,
    g: Seq<char>,
    h: Seq<char>,
    rest: Seq<char>,
)
    ensures
        (a + b + c + d + e + f + g + h) + rest == a + (b + (c + (d + (e + (f + (g + (h
            + rest))))))),
{
    assert((a + b + c + d + e + f + g + h) + rest =~= a + (b + (c + (d + (e + (f + (g + (h
        + rest))))))));
}

/// Decoding inverts encoding for items.
#[verifier::rlimit(100)]
#[verifier::spinoff_prover]
pub proof fn lemma_pitem_round(v: ItemView, rest: Seq<char>)
    ensures
        pitem(enc_item(v) + rest) == Some((v, rest)),
{
    let r7 = seq![kind_tag(v.kind)] + rest;
    let r6 = enc_meta(v.metadata) + r7;
    let r5 = enc_opt_str(v.base64_icon) + r6;
    let r4 = enc_opt_i64(v.ran_at) + r5;
    let r3 = enc_str(v.icon) + r4;
    let r2 = enc_str(v.value) + r3;
    let r1 = seq![handler_tag(v.handler)] + r2;
    let inp = enc_item(v) + rest;
    lemma_right_assoc(
        enc_str(v.label),
        seq![handler_tag(v.handler)],
        enc_str(v.value),
        enc_str(v.icon),
        enc_opt_i64(v.ran_at),
        enc_opt_str(v.base64_icon),
        enc_meta(v.metadata),
        seq![kind_tag(v.kind)],
        rest,
    );
    assert(inp == enc_str(v.label) + r1);
    lemma_pstr_round(v.label, r1);
    assert(r1[0] == handler_tag(v.handler));
    assert(phandler(handler_tag(v.handler)) == Some(v.handler));
    assert(r1.skip(1) =~= r2);
    lemma_pstr_round(v.value, r3);
    lemma_pstr_round(v.icon, r4);
    assert(popt_i64(r4) == Some((v.ran_at, r5))) by {
        match v.ran_at {
            None => {
                assert(r4 == seq!['-'] + r5);
                assert(r4[0] == '-');
                assert(r4.skip(1) =~= r5);
            },
            Some(t) => {
                assert(r4 == (seq!['+'] + enc_u64(t as u64)) + r5);
                assert(r4 =~= seq!['+'] + (enc_u64(t as u64) + r5));
                assert(r4[0] == '+');
                assert(r4.skip(1) =~= enc_u64(t as u64) + r5);
                lemma_pu64_round(t as u64, r5);
                assert(((t as u64) as i64) == t) by (bit_vector);
            },
        }
    }
    assert(popt_str(r5) == Some((v.base64_icon, r6))) by {
        match v.base64_icon {
            None => {
                assert(r5 == seq!['-'] + r6);
                assert(r5[0] == '-');
                assert(r5.skip(1) =~= r6);
            },
            Some(b) => {
                assert(r5 == (seq!['+'] + enc_str(b)) + r6);
                assert(r5 =~= seq!['+'] + (enc_str(b) + r6));
                assert(r5[0] == '+');
                assert(r5.skip(1) =~= enc_str(b) + r6);
                lemma_pstr_round(b, r6);
            },
        }
    }
    lemma_pmeta_round(v.metadata, r7);
    assert(r7[0] == kind_tag(v.kind));
    assert(pkind(kind_tag(v.kind)) == Some(v.kind));
    assert(r7.skip(1) =~= rest);
}

/// The decoded history: items up to the end of the input.
pub open spec fn phistory(inp: Seq<char>) -> Option<Seq<ItemView>>
    decreases inp.len(),
{
    if inp.len() == 0 {
        Some(Seq::empty())
    } else {
        match pitem(inp) {
            Some(p) => if p.1.len() < inp.len() {
                match phistory(p.1) {
                    Some(t) => Some(seq![p.0] + t),
                    None => None,
                }
            } else {
                None
            },
            None => None,
        }
    }
}

/// An encoded item is never empty.
proof fn lemma_enc_item_len(v: ItemView)
    ensures
        enc_item(v).len() >= 1,
{
    lemma_enc_str_len(v.label);
}

/// Round trip: decoding an encoded history yields the same sequence of
/// items, every field included.
pub proof fn lemma_history_round_trip(hs: Seq<ItemView>)
    ensures
        phistory(enc_history(hs)) == Some(hs),
    decreases hs.len(),
{
    if hs.len() == 0 {
        assert(enc_history(hs).len() == 0);
    } else {
        let inp = enc_history(hs);
        assert(inp =~= enc_item(hs[0]) + enc_history(hs.skip(1)));
        lemma_pitem_round(hs[0], enc_history(hs.skip(1)));
        lemma_enc_item_len(hs[0]);
        lemma_history_round_trip(hs.skip(1));
        assert(seq![hs[0]] + hs.skip(1) =~= hs);
    }
}

/// Parse one encoded string starting at `pos`.
fn parse_str(cs: &Vec<char>, pos: usize) -> (r: Option<(String, usize)>)
    requires
        pos <= cs@.len(),
    ensures
        match r {
            Some(sp) => pos < sp.1 <= cs@.len() && pstr(cs@.skip(pos as int)) == Some(
                (sp.0@, cs@.skip(sp.1 as int)),
            ),
            None => (pstr(cs@.skip(pos as int)) is None),
        },
{
    let n = cs.len();
    let mut out: Vec<char> = Vec::new();
    let mut p = pos;
    proof {
        assert(out@ + pstr(cs@.skip(pos as int)).unwrap().0 =~= pstr(
            cs@.skip(pos as int),
        ).unwrap().0) by {
            if pstr(cs@.skip(pos as int)) is Some {
            }
        }
    }
    loop
        invariant
            pos <= p <= n,
            n == cs@.len(),
            pstr(cs@.skip(pos as int)) == (match pstr(cs@.skip(p as int)) {
                Some(q) => Some((out@ + q.0, q.1)),
                None => None::<(Seq<char>, Seq<char>)>,
            }),
        decreases n - p,
    {
        if p == n {
            proof {
                assert(cs@.skip(p as int).len() == 0);
            }
            return None;
        }
        let c = cs[p];
        proof {
            assert(cs@.skip(p as int)[0] == cs@[p as int]);
        }
        if c == '|' {
            proof {
                assert(pstr(cs@.skip(p as int)) == Some(
                    (Seq::<char>::empty(), cs@.skip(p + 1 as int)),
                ));
                assert(out@ + Seq::<char>::empty() =~= out@);
            }
            let s = strutil::string_from_chars(&out);
            return Some((s, p + 1));
        } else if c == '\\' {
            if p + 1 == n {
                proof {
                    assert(cs@.skip(p as int).len() == 1);
                }
                return None;
            }
            let ghost before = out@;
            out.push(cs[p + 1]);
            proof {
                assert(cs@.skip(p as int).len() >= 2);
                assert(cs@.skip(p as int)[1] == cs@[p + 1]);
                assert(cs@.skip(p as int).skip(2) =~= cs@.skip(p + 2));
                match pstr(cs@.skip(p + 2)) {
                    Some(q) => {
                        assert(before + (seq![cs@[p + 1]] + q.0) =~= out@ + q.0);
                    },
                    None => {},
                }
            }
            p = p + 2;
        } else {
            let ghost before = out@;
            out.push(c);
            proof {
                assert(cs@.skip(p as int).skip(1) =~= cs@.skip(p + 1));
                match pstr(cs@.skip(p + 1)) {
                    Some(q) => {
                        assert(before + (seq![cs@[p as int]] + q.0) =~= out@ + q.0);
                    },
                    None => {},
                }
            }
            p = p + 1;
        }
    }
}

/// Parse one encoded 64-bit value starting at `pos`.
fn parse_u64(cs: &Vec<char>, pos: usize) -> (r: Option<(u64, usize)>)
    requires
        pos <= cs@.len(),
    ensures
        match r {
            Some(xp) => xp.1 == pos + 8 && xp.1 <= cs@.len() && pu64(cs@.skip(pos as int)) == Some(
                (xp.0, cs@.skip(xp.1 as int)),
            ),
            None => (pu64(cs@.skip(pos as int)) is None),
        },
{
    let ghost inp = cs@.skip(pos as int);
    if cs.len() - pos < 8 {
        return None;
    }
    let c0 = cs[pos];
    let c1 = cs[pos + 1];
    let c2 = cs[pos + 2];
    let c3 = cs[pos + 3];
    let c4 = cs[pos + 4];
    let c5 = cs[pos + 5];
    let c6 = cs[pos + 6];
    let c7 = cs[pos + 7];
    proof {
        assert(inp[0] == cs@[pos as int]);
        assert(inp[1] == cs@[pos + 1]);
        assert(inp[2] == cs@[pos + 2]);
        assert(inp[3] == cs@[pos + 3]);
        assert(inp[4] == cs@[pos + 4]);
        assert(inp[5] == cs@[pos + 5]);
        assert(inp[6] == cs@[pos + 6]);
        assert(inp[7] == cs@[pos + 7]);
    }
    if (c0 as u32) >= 256 || (c1 as u32) >= 256 || (c2 as u32) >= 256 || (c3 as u32) >= 256 || (
    c4 as u32) >= 256 || (c5 as u32) >= 256 || (c6 as u32) >= 256 || (c7 as u32) >= 256 {
        return None;
    }
    let x = (((c0 as u32) as u64) << 56) | (((c1 as u32) as u64) << 48) | (((c2 as u32) as u64)
        << 40) | (((c3 as u32) as u64) << 32) | (((c4 as u32) as u64) << 24) | (((c5 as u32) as u64)
        << 16) | (((c6 as u32) as u64) << 8) | ((c7 as u32) as u64);
    proof {
        assert(inp.skip(8) =~= cs@.skip(pos + 8));
    }
    Some((x, pos + 8))
}

/// Parse the encoded metadata starting at `pos`.
fn parse_meta(cs: &Vec<char>, pos: usize) -> (r: Option<(Vec<(String, String)>, usize)>)
    requires
        pos <= cs@.len(),
    ensures
        match r {
            Some(mp) => pos < mp.1 <= cs@.len() && pmeta(cs@.skip(pos as int)) == Some(
                (mp.0@.map_values(|q: (String, String)| (q.0@, q.1@)), cs@.skip(mp.1 as int)),
            ),
            None => (pmeta(cs@.skip(pos as int)) is None),
        },
{
    let n = cs.len();
    let mut pairs: Vec<(String, String)> = Vec::new();
    let mut p = pos;
    proof {
        assert(pairs@.map_values(|q: (String, String)| (q.0@, q.1@)) =~= Seq::<
            (Seq<char>, Seq<char>),
        >::empty());
    }
    loop
        invariant
            pos <= p <= n,
            n == cs@.len(),
            pmeta(cs@.skip(pos as int)) == (match pmeta(cs@.skip(p as int)) {
                Some(q) => Some(
                    (pairs@.map_values(|e: (String, String)| (e.0@, e.1@)) + q.0, q.1),
                ),
                None => None::<(Seq<(Seq<char>, Seq<char>)>, Seq<char>)>,
            }),
        decreases n - p,
    {
        if p == n {
            proof {
                assert(cs@.skip(p as int).len() == 0);
            }
            return None;
        }
        let c = cs[p];
        proof {
            assert(cs@.skip(p as int)[0] == cs@[p as int]);
        }
        if c == 'e' {
            proof {
                assert(pmeta(cs@.skip(p as int)) == Some(
                    (Seq::<(Seq<char>, Seq<char>)>::empty(), cs@.skip(p + 1 as int)),
                ));
                assert(pairs@.map_values(|e: (String, String)| (e.0@, e.1@)) + Seq::<
                    (Seq<char>, Seq<char>),
                >::empty() =~= pairs@.map_values(|e: (String, String)| (e.0@, e.1@)));
            }
            return Some((pairs, p + 1));
        }
        if c != 'm' {
            return None;
        }
        proof {
            assert(cs@.skip(p as int).skip(1) =~= cs@.skip(p + 1));
        }
        let key = match parse_str(cs, p + 1) {
            Some(kp) => kp,
            None => {
                return None;
            },
        };
        let value = match parse_str(cs, key.1) {
            Some(vp) => vp,
            None => {
                return None;
            },
        };
        let ghost before = pairs@;
        pairs.push((key.0, value.0));
        proof {
            let f = |e: (String, String)| (e.0@, e.1@);
            assert(pairs@.map_values(f) =~= before.map_values(f).push(
                (pairs@.last().0@, pairs@.last().1@),
            ));
            match pmeta(cs@.skip(value.1 as int)) {
                Some(q) => {
                    assert(before.map_values(f) + (seq![(pairs@.last().0@, pairs@.last().1@)]
                        + q.0) =~= pairs@.map_values(f) + q.0);
                },
                None => {},
            }
        }
        p = value.1;
    }
}

/// Parse one encoded item starting at `pos`.
fn parse_item(cs: &Vec<char>, pos: usize) -> (r: Option<(CommandItem, usize)>)
    requires
        pos <= cs@.len(),
    ensures
        match r {
            Some(ip) => pos < ip.1 <= cs@.len() && pitem(cs@.skip(pos as int)) == Some(
                (ip.0@, cs@.skip(ip.1 as int)),
            ),
            None => (pitem(cs@.skip(pos as int)) is None),
        },
{
    let label = match parse_str(cs, pos) {
        Some(lp) => lp,
        None => {
            return None;
        },
    };
    if label.1 == cs.len() {
        proof {
            assert(cs@.skip(label.1 as int).len() == 0);
        }
        return None;
    }
    let hc = cs[label.1];
    proof {
        assert(cs@.skip(label.1 as int)[0] == cs@[label.1 as int]);
        assert(cs@.skip(label.1 as int).skip(1) =~= cs@.skip(label.1 + 1));
    }
    let handler = if hc == 'a' {
        Handler::App
    } else if hc == 'n' {
        Handler::Note
    } else if hc == 'u' {
        Handler::Url
    } else if hc == 's' {
        Handler::Automation
    } else if hc == 'd' {
        Handler::Folder
    } else if hc == 'f' {
        Handler::File
    } else {
        return None;
    };
    let value = match parse_str(cs, label.1 + 1) {
        Some(vp) => vp,
        None => {
            return None;
        },
    };
    let icon = match parse_str(cs, value.1) {
        Some(ip) => ip,
        None => {
            return None;
        },
    };
    if icon.1 == cs.len() {
        proof {
            assert(cs@.skip(icon.1 as int).len() == 0);
        }
        return None;
    }
    let rc = cs[icon.1];
    proof {
        assert(cs@.skip(icon.1 as int)[0] == cs@[icon.1 as int]);
        assert(cs@.skip(icon.1 as int).skip(1) =~= cs@.skip(icon.1 + 1));
    }
    let ran_at: (Option<i64>, usize) = if rc == '-' {
        (None, icon.1 + 1)
    } else if rc == '+' {
        match parse_u64(cs, icon.1 + 1) {
            Some(xp) => (Some(xp.0 as i64), xp.1),
            None => {
                return None;
            },
        }
    } else {
        return None;
    };
    if ran_at.1 == cs.len() {
        proof {
            assert(cs@.skip(ran_at.1 as int).len() == 0);
        }
        return None;
    }
    let bc = cs[ran_at.1];
    proof {
        assert(cs@.skip(ran_at.1 as int)[0] == cs@[ran_at.1 as int]);
        assert(cs@.skip(ran_at.1 as int).skip(1) =~= cs@.skip(ran_at.1 + 1));
    }
    let base64_icon: (Option<String>, usize) = if bc == '-' {
        (None, ran_at.1 + 1)
    } else if bc == '+' {
        match parse_str(cs, ran_at.1 + 1) {
            Some(bp) => (Some(bp.0), bp.1),
            None => {
                return None;
            },
        }
    } else {
        return None;
    };
    let meta = match parse_meta(cs, base64_icon.1) {
        Some(mp) => mp,
        None => {
            return None;
        },
    };
    if meta.1 == cs.len() {
        proof {
            assert(cs@.skip(meta.1 as int).len() == 0);
        }
        return None;
    }
    let kc = cs[meta.1];
    proof {
        assert(cs@.skip(meta.1 as int)[0] == cs@[meta.1 as int]);
        assert(cs@.skip(meta.1 as int).skip(1) =~= cs@.skip(meta.1 + 1));
    }
    let kind = if kc == 'a' {
        CommandType::App
    } else if kc == 'b' {
        CommandType::Bookmark
    } else if kc == 'n' {
        CommandType::Note
    } else if kc == 'w' {
        CommandType::WebSearch
    } else if kc == 'g' {
        CommandType::WebSuggestion
    } else if kc == 'k' {
        CommandType::Unknown
    } else {
        return None;
    };
    let item = CommandItem {
        label: label.0,
        handler,
        value: value.0,
        icon: icon.0,
        ran_at: ran_at.0,
        base64_icon: base64_icon.0,
        metadata: meta.0,
        kind,
    };
    Some((item, meta.1 + 1))
}

/// Decode a persisted history. Any text that is not a whole encoded history
/// decodes to nothing; the caller treats that as an empty history.
pub fn decode_history(text: &str) -> (r: Option<Vec<CommandItem>>)
    ensures
        match phistory(text@) {
            Some(hs) => (match r {
                Some(v) => views_of(v@) == hs,
                None => false,
            }),
            None => (r is None),
        },
{
    let cs = strutil::chars_of(text);
    let mut out: Vec<CommandItem> = Vec::new();
    let mut p: usize = 0;
    let n = cs.len();
    proof {
        assert(views_of(out@) =~= Seq::<ItemView>::empty());
        assert(cs@.skip(0) =~= text@);
        match phistory(text@) {
            Some(t) => {
                assert(views_of(out@) + t =~= t);
            },
            None => {},
        }
    }
    loop
        invariant
            p <= n,
            n == cs@.len(),
            cs@ == text@,
            phistory(text@) == (match phistory(cs@.skip(p as int)) {
                Some(t) => Some(views_of(out@) + t),
                None => None::<Seq<ItemView>>,
            }),
        decreases n - p,
    {
        if p == n {
            proof {
                assert(cs@.skip(p as int).len() == 0);
                assert(views_of(out@) + Seq::<ItemView>::empty() =~= views_of(out@));
            }
            return Some(out);
        }
        match parse_item(&cs, p) {
            Some(ip) => {
                let ghost before = out@;
                let next = ip.1;
                out.push(ip.0);
                proof {
                    crate::ranking::lemma_views_push(before, out@.last());
                    match phistory(cs@.skip(next as int)) {
                        Some(t) => {
                            assert(views_of(before) + (seq![out@.last()@] + t) =~= views_of(out@)
                                + t);
                        },
                        None => {},
                    }
                }
                p = next;
            },
            None => {
                return None;
            },
        }
    }
}

} // verus!
