//! The on-disk format: one JSON object whose keys and values are strings.
//!
//! The writer emits a canonical text: no whitespace, `"` and `\` escaped with
//! a backslash, every control character written as a four-digit `\u` escape
//! with lowercase hex digits, all other characters as themselves. The reader
//! takes the usual JSON notation: insignificant whitespace between tokens and
//! the standard string escapes, four-digit `\u` escapes and surrogate pairs
//! included. Reading is modelled by one deterministic specification parser,
//! and the canonical text of every snapshot reads back as exactly that
//! snapshot.

use vstd::prelude::*;

verus! {

use crate::StoreError;
use crate::store::StoreMap;
use crate::store::entries_view;
use crate::store::unique_keys;
use crate::text::chars_of;
use crate::text::string_from_chars;

/// A character that JSON cannot carry raw inside a string.
pub open spec fn is_ctrl(c: char) -> bool {
    (c as u32) < 32
}

/// The lowercase hex digit for `n` in `0..16`.
pub open spec fn hex_digit(n: int) -> char {
    ((if n < 10 {
        48 + n
    } else {
        87 + n
    }) as u8) as char
}

/// How one character is written inside a JSON string.
pub open spec fn spec_esc_char(c: char) -> Seq<char> {
    if c == '"' {
        seq!['\\', '"']
    } else if c == '\\' {
        seq!['\\', '\\']
    } else if is_ctrl(c) {
        seq!['\\', 'u', '0', '0', hex_digit((c as u32) as int / 16), hex_digit(
            (c as u32) as int % 16,
        )]
    } else {
        seq![c]
    }
}

/// How a whole string is written, character by character.
pub open spec fn spec_esc(s: Seq<char>) -> Seq<char>
    decreases s.len(),
{
    if s.len() == 0 {
        Seq::empty()
    } else {
        spec_esc_char(s[0]) + spec_esc(s.drop_first())
    }
}

/// One `"key":"value"` member.
pub open spec fn spec_entry(key: Seq<char>, value: Seq<char>) -> Seq<char> {
    seq!['"'] + spec_esc(key) + seq!['"', ':', '"'] + spec_esc(value) + seq!['"']
}

/// The members of the object, comma-separated.
pub open spec fn spec_members(es: Seq<(Seq<char>, Seq<char>)>) -> Seq<char>
    decreases es.len(),
{
    if es.len() == 0 {
        Seq::empty()
    } else if es.len() == 1 {
        spec_entry(es[0].0, es[0].1)
    } else {
        spec_entry(es[0].0, es[0].1) + seq![','] + spec_members(es.drop_first())
    }
}

/// The canonical JSON text of a snapshot.
pub open spec fn spec_ser(es: Seq<(Seq<char>, Seq<char>)>) -> Seq<char> {
    seq!['{'] + spec_members(es) + seq!['}']
}

pub proof fn lemma_esc_push(s: Seq<char>, c: char)
    ensures
        spec_esc(s.push(c)) == spec_esc(s) + spec_esc_char(c),
    decreases s.len(),
{
    if s.len() == 0 {
        assert(s.push(c)[0] == c);
        assert(s.push(c).drop_first() =~= Seq::<char>::empty());
        assert(spec_esc(s.push(c)) == spec_esc_char(c) + spec_esc(Seq::empty()));
        assert(spec_esc_char(c) + Seq::empty() =~= spec_esc_char(c));
        assert(spec_esc(s) + spec_esc_char(c) =~= spec_esc_char(c));
    } else {
        assert(s.push(c).drop_first() =~= s.drop_first().push(c));
        lemma_esc_push(s.drop_first(), c);
        assert(spec_esc(s.push(c)) =~= spec_esc(s) + spec_esc_char(c));
    }
}

pub proof fn lemma_members_push(es: Seq<(Seq<char>, Seq<char>)>, e: (Seq<char>, Seq<char>))
    ensures
        spec_members(es.push(e)) == if es.len() == 0 {
            spec_entry(e.0, e.1)
        } else {
            spec_members(es) + seq![','] + spec_entry(e.0, e.1)
        },
    decreases es.len(),
{
    if es.len() == 0 {
        assert(es.push(e) =~= seq![e]);
    } else {
        assert(es.push(e).drop_first() =~= es.drop_first().push(e));
        lemma_members_push(es.drop_first(), e);
        if es.len() == 1 {
            assert(spec_members(es.push(e)) =~= spec_members(es) + seq![','] + spec_entry(
                e.0,
                e.1,
            ));
        } else {
            assert(spec_members(es.push(e)) =~= spec_members(es) + seq![','] + spec_entry(
                e.0,
                e.1,
            ));
        }
    }
}

/// What the first characters of an escape unit reveal about its source.
proof fn lemma_esc_char_shape(c: char)
    ensures
        1 <= spec_esc_char(c).len(),
        spec_esc_char(c)[0] != '"',
        !is_ctrl(spec_esc_char(c)[0]),
        (spec_esc_char(c)[0] == '\\') == (c == '"' || c == '\\' || is_ctrl(c)),
        spec_esc_char(c)[0] != '\\' ==> spec_esc_char(c) == seq![c],
        c == '"' ==> spec_esc_char(c).len() == 2 && spec_esc_char(c)[1] == '"',
        c == '\\' && c != '"' ==> spec_esc_char(c).len() == 2 && spec_esc_char(c)[1] == '\\',
        is_ctrl(c) ==> spec_esc_char(c).len() == 6 && spec_esc_char(c)[1] == 'u'
            && spec_esc_char(c)[2] == '0' && spec_esc_char(c)[3] == '0' && spec_esc_char(c)[4]
            == hex_digit((c as u32) as int / 16) && spec_esc_char(c)[5] == hex_digit(
            (c as u32) as int % 16,
        ),
{
}

/// The value of a hex digit in either letter case, `-1` otherwise.
pub open spec fn hex_val_any(c: char) -> int {
    if '0' <= c && c <= '9' {
        (c as u32) as int - 48
    } else if 'a' <= c && c <= 'f' {
        (c as u32) as int - 87
    } else if 'A' <= c && c <= 'F' {
        (c as u32) as int - 55
    } else {
        -1
    }
}

/// The whitespace JSON lets stand between tokens.
pub open spec fn is_json_ws(c: char) -> bool {
    c == ' ' || c == '\t' || c == '\n' || c == '\r'
}

/// The first position at or past `i` holding no whitespace.
pub open spec fn sp_ws(s: Seq<char>, i: int) -> int
    decreases s.len() - i,
{
    if 0 <= i && i < s.len() && is_json_ws(s[i]) {
        sp_ws(s, i + 1)
    } else {
        i
    }
}

pub proof fn lemma_sp_ws_bounds(s: Seq<char>, i: int)
    requires
        0 <= i <= s.len(),
    ensures
        i <= sp_ws(s, i) <= s.len(),
    decreases s.len() - i,
{
    if i < s.len() && is_json_ws(s[i]) {
        lemma_sp_ws_bounds(s, i + 1);
    }
}

pub open spec fn sp_cons(c: char, rest: Option<(Seq<char>, int)>) -> Option<(Seq<char>, int)> {
    match rest {
        Some(p) => Some((seq![c] + p.0, p.1)),
        None => None,
    }
}

/// Reads one JSON string from position `i`, just past its opening quote:
/// the decoded characters and the position just past the closing quote.
/// Standard escapes, four-digit `\u` escapes and surrogate pairs are taken;
/// a raw control character, a lone surrogate or a malformed escape is not.
pub open spec fn sp_string(s: Seq<char>, i: int) -> Option<(Seq<char>, int)>
    decreases s.len() - i,
{
    if i < 0 || i >= s.len() {
        None
    } else if s[i] == '"' {
        Some((Seq::empty(), i + 1))
    } else if s[i] == '\\' {
        if i + 1 >= s.len() {
            None
        } else {
            let e = s[i + 1];
            if e == '"' || e == '\\' || e == '/' {
                sp_cons(e, sp_string(s, i + 2))
            } else if e == 'b' {
                sp_cons('\u{8}', sp_string(s, i + 2))
            } else if e == 'f' {
                sp_cons('\u{c}', sp_string(s, i + 2))
            } else if e == 'n' {
                sp_cons('\n', sp_string(s, i + 2))
            } else if e == 'r' {
                sp_cons('\r', sp_string(s, i + 2))
            } else if e == 't' {
                sp_cons('\t', sp_string(s, i + 2))
            } else if e == 'u' {
                if i + 5 >= s.len() {
                    None
                } else if hex_val_any(s[i + 2]) < 0 || hex_val_any(s[i + 3]) < 0 || hex_val_any(
                    s[i + 4],
                ) < 0 || hex_val_any(s[i + 5]) < 0 {
                    None
                } else {
                    let v = 4096 * hex_val_any(s[i + 2]) + 256 * hex_val_any(s[i + 3]) + 16
                        * hex_val_any(s[i + 4]) + hex_val_any(s[i + 5]);
                    if 0xD800 <= v && v < 0xDC00 {
                        if i + 11 >= s.len() || s[i + 6] != '\\' || s[i + 7] != 'u' {
                            None
                        } else if hex_val_any(s[i + 8]) < 0 || hex_val_any(s[i + 9]) < 0
                            || hex_val_any(s[i + 10]) < 0 || hex_val_any(s[i + 11]) < 0 {
                            None
                        } else {
                            let w = 4096 * hex_val_any(s[i + 8]) + 256 * hex_val_any(s[i + 9])
                                + 16 * hex_val_any(s[i + 10]) + hex_val_any(s[i + 11]);
                            if 0xDC00 <= w && w < 0xE000 {
                                sp_cons(
                                    ((0x10000 + (v - 0xD800) * 0x400 + (w - 0xDC00)) as u32) as char,
                                    sp_string(s, i + 12),
                                )
                            } else {
                                None
                            }
                        }
                    } else if 0xDC00 <= v && v < 0xE000 {
                        None
                    } else {
                        sp_cons((v as u32) as char, sp_string(s, i + 6))
                    }
                }
            } else {
                None
            }
        }
    } else if is_ctrl(s[i]) {
        None
    } else {
        sp_cons(s[i], sp_string(s, i + 1))
    }
}

pub proof fn lemma_sp_string_bounds(s: Seq<char>, i: int)
    ensures
        sp_string(s, i) matches Some(p) ==> i < p.1 <= s.len(),
    decreases s.len() - i,
{
    if 0 <= i && i < s.len() {
        if s[i] == '"' {
        } else if s[i] == '\\' {
            if i + 1 < s.len() {
                let e = s[i + 1];
                if e == '"' || e == '\\' || e == '/' || e == 'b' || e == 'f' || e == 'n' || e
                    == 'r' || e == 't' {
                    lemma_sp_string_bounds(s, i + 2);
                } else if e == 'u' {
                    if i + 6 <= s.len() {
                        lemma_sp_string_bounds(s, i + 6);
                    }
                    if i + 12 <= s.len() {
                        lemma_sp_string_bounds(s, i + 12);
                    }
                }
            }
        } else if !is_ctrl(s[i]) {
            lemma_sp_string_bounds(s, i + 1);
        }
    }
}

/// Reads members from position `i`, which must hold the opening quote of a
/// key, up to and past the closing brace: the pairs in order of appearance
/// and the position just past the brace.
pub open spec fn sp_members(s: Seq<char>, i: int) -> Option<
    (Seq<(Seq<char>, Seq<char>)>, int),
>
    decreases s.len() - i,
    via sp_members_dec
{
    if !(0 <= i && i < s.len() && s[i] == '"') {
        None
    } else {
        match sp_string(s, i + 1) {
            None => None,
            Some(kp) => {
                let j1 = sp_ws(s, kp.1);
                if !(j1 < s.len() && s[j1] == ':') {
                    None
                } else {
                    let j2 = sp_ws(s, j1 + 1);
                    if !(j2 < s.len() && s[j2] == '"') {
                        None
                    } else {
                        match sp_string(s, j2 + 1) {
                            None => None,
                            Some(vp) => {
                                let j4 = sp_ws(s, vp.1);
                                if j4 < s.len() && s[j4] == '}' {
                                    Some((seq![(kp.0, vp.0)], j4 + 1))
                                } else if j4 < s.len() && s[j4] == ',' {
                                    let j5 = sp_ws(s, j4 + 1);
                                    match sp_members(s, j5) {
                                        None => None,
                                        Some(mp) => Some((seq![(kp.0, vp.0)] + mp.0, mp.1)),
                                    }
                                } else {
                                    None
                                }
                            },
                        }
                    }
                }
            },
        }
    }
}

#[via_fn]
proof fn sp_members_dec(s: Seq<char>, i: int) {
    if 0 <= i && i < s.len() && s[i] == '"' {
        lemma_sp_string_bounds(s, i + 1);
        match sp_string(s, i + 1) {
            None => {},
            Some(kp) => {
                lemma_sp_ws_bounds(s, kp.1);
                let j1 = sp_ws(s, kp.1);
                if j1 < s.len() && s[j1] == ':' {
                    lemma_sp_ws_bounds(s, j1 + 1);
                    let j2 = sp_ws(s, j1 + 1);
                    if j2 < s.len() && s[j2] == '"' {
                        lemma_sp_string_bounds(s, j2 + 1);
                        match sp_string(s, j2 + 1) {
                            None => {},
                            Some(vp) => {
                                lemma_sp_ws_bounds(s, vp.1);
                                let j4 = sp_ws(s, vp.1);
                                if j4 < s.len() && s[j4] == ',' {
                                    lemma_sp_ws_bounds(s, j4 + 1);
                                }
                            },
                        }
                    }
                }
            },
        }
    }
}

/// The whole reading of a store file: one JSON object of strings, whitespace
/// around tokens allowed, nothing but whitespace after the closing brace.
pub open spec fn spec_parse(s: Seq<char>) -> Option<Seq<(Seq<char>, Seq<char>)>> {
    let i0 = sp_ws(s, 0);
    if !(i0 < s.len() && s[i0] == '{') {
        None
    } else {
        let i1 = sp_ws(s, i0 + 1);
        if i1 < s.len() && s[i1] == '}' {
            if sp_ws(s, i1 + 1) == s.len() {
                Some(Seq::empty())
            } else {
                None
            }
        } else {
            match sp_members(s, i1) {
                None => None,
                Some(mp) => if sp_ws(s, mp.1) == s.len() {
                    Some(mp.0)
                } else {
                    None
                },
            }
        }
    }
}

pub open spec fn sp_prepend(p: Seq<char>, o: Option<(Seq<char>, int)>) -> Option<
    (Seq<char>, int),
> {
    match o {
        Some(q) => Some((p + q.0, q.1)),
        None => None,
    }
}

proof fn lemma_prepend_empty(o: Option<(Seq<char>, int)>)
    ensures
        sp_prepend(Seq::empty(), o) == o,
{
    match o {
        Some(q) => {
            assert(Seq::empty() + q.0 =~= q.0);
        },
        None => {},
    }
}

proof fn lemma_prepend_cons(p: Seq<char>, c: char, o: Option<(Seq<char>, int)>)
    ensures
        sp_prepend(p, sp_cons(c, o)) == sp_prepend(p.push(c), o),
{
    match o {
        Some(q) => {
            assert(p + (seq![c] + q.0) =~= p.push(c) + q.0);
        },
        None => {},
    }
}

pub open spec fn sp_prepend_es(
    p: Seq<(Seq<char>, Seq<char>)>,
    o: Option<(Seq<(Seq<char>, Seq<char>)>, int)>,
) -> Option<(Seq<(Seq<char>, Seq<char>)>, int)> {
    match o {
        Some(q) => Some((p + q.0, q.1)),
        None => None,
    }
}

proof fn lemma_prepend_es_empty(o: Option<(Seq<(Seq<char>, Seq<char>)>, int)>)
    ensures
        sp_prepend_es(Seq::empty(), o) == o,
{
    match o {
        Some(q) => {
            assert(Seq::<(Seq<char>, Seq<char>)>::empty() + q.0 =~= q.0);
        },
        None => {},
    }
}

proof fn lemma_prepend_es_assoc(
    p: Seq<(Seq<char>, Seq<char>)>,
    q: Seq<(Seq<char>, Seq<char>)>,
    o: Option<(Seq<(Seq<char>, Seq<char>)>, int)>,
)
    ensures
        sp_prepend_es(p, sp_prepend_es(q, o)) == sp_prepend_es(p + q, o),
{
    match o {
        Some(m) => {
            assert(p + (q + m.0) =~= (p + q) + m.0);
        },
        None => {},
    }
}

/// The canonical escape of a string reads back as exactly that string.
#[verifier::rlimit(100)]
#[verifier::spinoff_prover]
proof fn lemma_string_canonical(s: Seq<char>, i: int, t: Seq<char>, rest: Seq<char>)
    requires
        0 <= i <= s.len(),
        s.skip(i) == spec_esc(t) + seq!['"'] + rest,
    ensures
        sp_string(s, i) == Some((t, i + spec_esc(t).len() + 1)),
    decreases t.len(),
{
    if t.len() == 0 {
        assert(spec_esc(t) == Seq::<char>::empty());
        assert(s.skip(i) =~= seq!['"'] + rest);
        assert(s.skip(i)[0] == s[i]);
        assert(s[i] == '"');
        assert(t =~= Seq::<char>::empty());
    } else {
        lemma_esc_char_shape(t[0]);
        let unit = spec_esc_char(t[0]);
        assert(spec_esc(t) == unit + spec_esc(t.drop_first()));
        assert(s.skip(i) =~= unit + (spec_esc(t.drop_first()) + seq!['"'] + rest));
        assert forall|m: int| 0 <= m < unit.len() implies s[i + m] == unit[m] by {
            assert(s.skip(i)[m] == s[i + m]);
        }
        assert(s.skip(i).len() >= unit.len() + 1);
        assert forall|x: int|
            0 <= x < s.len() - i - unit.len() implies s.skip(i + unit.len() as int)[x] == (
        spec_esc(t.drop_first()) + seq!['"'] + rest)[x] by {
            assert(s.skip(i + unit.len() as int)[x] == s.skip(i)[x + unit.len()]);
        }
        assert(s.skip(i + unit.len() as int) =~= spec_esc(t.drop_first()) + seq!['"'] + rest);
        lemma_string_canonical(s, i + unit.len() as int, t.drop_first(), rest);
        assert(seq![t[0]] + t.drop_first() =~= t);
        if t[0] == '"' {
            assert(s[i] == '\\' && s[i + 1] == '"');
            assert(sp_string(s, i) == sp_cons('"', sp_string(s, i + 2)));
        } else if t[0] == '\\' {
            assert(s[i] == '\\' && s[i + 1] == '\\');
            assert(sp_string(s, i) == sp_cons('\\', sp_string(s, i + 2)));
        } else if is_ctrl(t[0]) {
            let sc = (t[0] as u32) as int;
            assert(s[i] == '\\' && s[i + 1] == 'u' && s[i + 2] == '0' && s[i + 3] == '0');
            assert(s[i + 4] == hex_digit(sc / 16) && s[i + 5] == hex_digit(sc % 16));
            assert(hex_val_any(hex_digit(sc / 16)) == sc / 16);
            assert(hex_val_any(hex_digit(sc % 16)) == sc % 16);
            assert(4096 * hex_val_any(s[i + 2]) + 256 * hex_val_any(s[i + 3]) + 16 * hex_val_any(
                s[i + 4],
            ) + hex_val_any(s[i + 5]) == sc);
            vstd::utf8::char_u32_cast(t[0], sc as u32);
            assert(((sc as u32) as char) == t[0]);
            assert(sp_string(s, i) == sp_cons(t[0], sp_string(s, i + 6)));
        } else {
            assert(s[i] == t[0]);
            assert(sp_string(s, i) == sp_cons(t[0], sp_string(s, i + 1)));
        }
    }
}

/// One canonical `"key":"value"` member reads back as exactly that pair.
#[verifier::rlimit(100)]
#[verifier::spinoff_prover]
proof fn lemma_entry_canonical(
    s: Seq<char>,
    i: int,
    k0: Seq<char>,
    v0: Seq<char>,
    rest2: Seq<char>,
)
    requires
        0 <= i <= s.len(),
        s.skip(i) == spec_entry(k0, v0) + rest2,
    ensures
        s[i] == '"',
        spec_entry(k0, v0).len() == spec_esc(k0).len() + spec_esc(v0).len() + 5,
        sp_string(s, i + 1) == Some((k0, i + 2 + spec_esc(k0).len())),
        s[i + 2 + spec_esc(k0).len()] == ':',
        s[i + 3 + spec_esc(k0).len()] == '"',
        sp_string(s, i + 4 + spec_esc(k0).len()) == Some(
            (v0, i + spec_entry(k0, v0).len()),
        ),
        s.skip(i + spec_entry(k0, v0).len()) == rest2,
{
    let rest1 = seq![':', '"'] + spec_esc(v0) + seq!['"'] + rest2;
    assert(spec_entry(k0, v0) + rest2 =~= seq!['"'] + (spec_esc(k0) + seq!['"'] + rest1));
    assert(s.skip(i)[0] == s[i]);
    assert(s[i] == '"');
    assert forall|x: int| 0 <= x < s.len() - i - 1 implies s.skip(i + 1)[x] == (spec_esc(k0)
        + seq!['"'] + rest1)[x] by {
        assert(s.skip(i + 1)[x] == s.skip(i)[x + 1]);
    }
    assert(s.skip(i + 1) =~= spec_esc(k0) + seq!['"'] + rest1);
    lemma_string_canonical(s, i + 1, k0, rest1);
    let jk = i + 2 + spec_esc(k0).len();
    assert forall|x: int| 0 <= x < s.len() - jk implies s.skip(jk)[x] == rest1[x] by {
        assert(s.skip(jk)[x] == s.skip(i + 1)[x + spec_esc(k0).len() as int + 1]);
        assert((spec_esc(k0) + seq!['"'] + rest1)[x + spec_esc(k0).len() as int + 1]
            == rest1[x]);
    }
    assert(s.skip(jk) =~= rest1);
    assert(s.skip(jk)[0] == s[jk]);
    assert(s.skip(jk)[1] == s[jk + 1]);
    assert(rest1[0] == ':' && rest1[1] == '"');
    assert(s[jk] == ':' && s[jk + 1] == '"');
    assert forall|x: int| 0 <= x < s.len() - jk - 2 implies s.skip(jk + 2)[x] == (spec_esc(v0)
        + seq!['"'] + rest2)[x] by {
        assert(s.skip(jk + 2)[x] == s.skip(jk)[x + 2]);
        assert(rest1[x + 2] == (spec_esc(v0) + seq!['"'] + rest2)[x]);
    }
    assert(s.skip(jk + 2) =~= spec_esc(v0) + seq!['"'] + rest2);
    lemma_string_canonical(s, jk + 2, v0, rest2);
    let jv = jk + 3 + spec_esc(v0).len();
    assert(jv == i + spec_entry(k0, v0).len());
    assert forall|x: int| 0 <= x < s.len() - jv implies s.skip(jv)[x] == rest2[x] by {
        assert(s.skip(jv)[x] == s.skip(jk + 2)[x + spec_esc(v0).len() as int + 1]);
        assert((spec_esc(v0) + seq!['"'] + rest2)[x + spec_esc(v0).len() as int + 1]
            == rest2[x]);
    }
    assert(s.skip(jv) =~= rest2);
}

/// The canonical member list of a nonempty snapshot reads back as exactly
/// those members.
#[verifier::rlimit(100)]
#[verifier::spinoff_prover]
proof fn lemma_members_canonical(
    s: Seq<char>,
    i: int,
    es: Seq<(Seq<char>, Seq<char>)>,
    tail: Seq<char>,
)
    requires
        0 <= i <= s.len(),
        s.skip(i) == spec_members(es) + seq!['}'] + tail,
        es.len() > 0,
    ensures
        sp_members(s, i) == Some((es, i + spec_members(es).len() + 1)),
    decreases es.len(),
{
    let k0 = es[0].0;
    let v0 = es[0].1;
    let m: Seq<char> = if es.len() == 1 {
        Seq::<char>::empty()
    } else {
        seq![','] + spec_members(es.drop_first())
    };
    assert(spec_members(es) =~= spec_entry(k0, v0) + m);
    let rest2 = m + seq!['}'] + tail;
    assert(s.skip(i) =~= spec_entry(k0, v0) + rest2);
    lemma_entry_canonical(s, i, k0, v0, rest2);
    let jk = i + 2 + spec_esc(k0).len();
    assert(sp_ws(s, jk) == jk);
    assert(sp_ws(s, jk + 1) == jk + 1);
    let jv = i + spec_entry(k0, v0).len();
    assert(jv == jk + 3 + spec_esc(v0).len());
    assert(s.skip(jv)[0] == s[jv]);
    if es.len() == 1 {
        assert(rest2[0] == '}');
        assert(s[jv] == '}');
        assert(sp_ws(s, jv) == jv);
        assert(seq![(k0, v0)] =~= es);
        assert(jv + 1 == i + spec_members(es).len() + 1);
        assert(sp_members(s, i) == Some((es, i + spec_members(es).len() + 1)));
    } else {
        assert(rest2[0] == ',');
        assert(s[jv] == ',');
        assert(sp_ws(s, jv) == jv);
        assert forall|x: int|
            0 <= x < s.len() - jv - 1 implies s.skip(jv + 1)[x] == (spec_members(
            es.drop_first(),
        ) + seq!['}'] + tail)[x] by {
            assert(s.skip(jv + 1)[x] == s.skip(jv)[x + 1]);
            assert(rest2[x + 1] == (spec_members(es.drop_first()) + seq!['}'] + tail)[x]);
        }
        assert(s.skip(jv + 1) =~= spec_members(es.drop_first()) + seq!['}'] + tail);
        assert(s.skip(jv + 1)[0] == s[jv + 1]);
        assert(spec_members(es.drop_first())[0] == spec_entry(
            es.drop_first()[0].0,
            es.drop_first()[0].1,
        )[0]);
        assert(spec_entry(es.drop_first()[0].0, es.drop_first()[0].1)[0] == '"');
        assert(s[jv + 1] == '"');
        assert(sp_ws(s, jv + 1) == jv + 1);
        lemma_members_canonical(s, jv + 1, es.drop_first(), tail);
        assert(seq![(k0, v0)] + es.drop_first() =~= es);
        assert(jv + 1 + spec_members(es.drop_first()).len() + 1 == i + spec_members(es).len()
            + 1);
        assert(sp_members(s, i) == Some((es, i + spec_members(es).len() + 1)));
    }
}

/// Law: the canonical text of any snapshot reads back as exactly that
/// snapshot — what the writer puts on disk, the reader accepts and inverts.
pub proof fn lemma_parse_canonical(es: Seq<(Seq<char>, Seq<char>)>)
    ensures
        spec_parse(spec_ser(es)) == Some(es),
{
    let s = spec_ser(es);
    assert(s[0] == '{');
    assert(sp_ws(s, 0) == 0);
    if es.len() == 0 {
        assert(spec_members(es) == Seq::<char>::empty());
        assert(s =~= seq!['{', '}']);
        assert(s[1] == '}');
        assert(sp_ws(s, 1) == 1);
        assert(sp_ws(s, 2) == 2);
        assert(Seq::<(Seq<char>, Seq<char>)>::empty() =~= es);
    } else {
        assert(s.skip(1) =~= spec_members(es) + seq!['}'] + Seq::<char>::empty());
        assert(s.skip(1)[0] == s[1]);
        assert(spec_entry(es[0].0, es[0].1)[0] == '"');
        assert(s[1] == '"');
        assert(sp_ws(s, 1) == 1);
        lemma_members_canonical(s, 1, es, Seq::empty());
        assert(1 + spec_members(es).len() + 1 == s.len());
        assert(sp_ws(s, s.len() as int) == s.len());
    }
}

/// The lowercase hex digit of `n`.
fn hex_digit_exec(n: u8) -> (r: char)
    requires
        n < 16,
    ensures
        r == hex_digit(n as int),
{
    if n < 10 {
        (48 + n) as char
    } else {
        (87 + n) as char
    }
}

/// Appends the escaped form of `s` to `out`.
fn push_escaped(out: &mut Vec<char>, s: &String)
    ensures
        final(out)@ == old(out)@ + spec_esc(s@),
{
    let cs = chars_of(s.as_str());
    let n = cs.len();
    let mut i: usize = 0;
    while i < n
        invariant
            n == cs@.len(),
            i <= n,
            cs@ == s@,
            out@ == old(out)@ + spec_esc(s@.take(i as int)),
        decreases n - i,
    {
        let c = cs[i];
        if c == '"' {
            out.push('\\');
            out.push('"');
        } else if c == '\\' {
            out.push('\\');
            out.push('\\');
        } else if (c as u32) < 32 {
            out.push('\\');
            out.push('u');
            out.push('0');
            out.push('0');
            let hi = ((c as u32) / 16) as u8;
            let lo = ((c as u32) % 16) as u8;
            out.push(hex_digit_exec(hi));
            out.push(hex_digit_exec(lo));
        } else {
            out.push(c);
        }
        proof {
            lemma_esc_push(s@.take(i as int), c);
            assert(s@.take(i + 1 as int) =~= s@.take(i as int).push(c));
            assert(out@ =~= old(out)@ + spec_esc(s@.take(i + 1 as int)));
        }
        i = i + 1;
    }
    proof {
        assert(s@.take(n as int) =~= s@);
    }
}

/// The value of a hex digit character in either letter case, if it is one.
fn hex_val_any_exec(c: char) -> (r: Option<u8>)
    ensures
        match r {
            Some(v) => hex_val_any(c) == v as int && v < 16,
            None => hex_val_any(c) == -1,
        },
{
    if '0' <= c && c <= '9' {
        Some((c as u32 - 48) as u8)
    } else if 'a' <= c && c <= 'f' {
        Some((c as u32 - 87) as u8)
    } else if 'A' <= c && c <= 'F' {
        Some((c as u32 - 55) as u8)
    } else {
        None
    }
}

/// Relies on `char::from_u32`: `Some` exactly on Unicode scalar values —
/// not a surrogate, at most 0x10FFFF — and the character then carries
/// exactly that scalar value.
#[verifier::external_body]
fn char_from_u32(v: u32) -> (r: Option<char>)
    ensures
        match r {
            Some(c) => c as u32 == v,
            None => (0xD800 <= v && v < 0xE000) || v > 0x10FFFF,
        },
{
    char::from_u32(v)
}

/// Skips whitespace: the first position at or past `from` without it.
fn skip_ws(cs: &Vec<char>, from: usize) -> (r: usize)
    requires
        from <= cs@.len(),
    ensures
        r == sp_ws(cs@, from as int),
        from <= r <= cs@.len(),
{
    let n = cs.len();
    let mut i: usize = from;
    while i < n && (cs[i] == ' ' || cs[i] == '\t' || cs[i] == '\n' || cs[i] == '\r')
        invariant
            from <= i <= n,
            n == cs@.len(),
            sp_ws(cs@, from as int) == sp_ws(cs@, i as int),
        decreases n - i,
    {
        i = i + 1;
    }
    i
}

/// Reads one JSON string of `cs` from `start`, just past its opening quote:
/// exactly what the specification parser reads there.
fn scan_string(cs: &Vec<char>, start: usize) -> (r: Option<(Vec<char>, usize)>)
    requires
        start <= cs@.len(),
    ensures
        match r {
            Some(p) => sp_string(cs@, start as int) == Some((p.0@, p.1 as int)) && start < p.1
                <= cs@.len(),
            None => sp_string(cs@, start as int) is None,
        },
{
    let n = cs.len();
    let mut acc: Vec<char> = Vec::new();
    let mut i: usize = start;
    proof {
        lemma_prepend_empty(sp_string(cs@, start as int));
    }
    while i < n
        invariant
            start <= i <= n,
            n == cs@.len(),
            sp_string(cs@, start as int) == sp_prepend(acc@, sp_string(cs@, i as int)),
        decreases n - i,
    {
        let ghost i0 = i as int;
        let ghost acc0 = acc@;
        let c = cs[i];
        if c == '"' {
            proof {
                assert(sp_string(cs@, i0) == Some((Seq::<char>::empty(), i0 + 1)));
                assert(acc0 + Seq::<char>::empty() =~= acc0);
            }
            return Some((acc, i + 1));
        } else if c == '\\' {
            if n - i < 2 {
                return None;
            }
            let e = cs[i + 1];
            if e == '"' || e == '\\' || e == '/' || e == 'b' || e == 'f' || e == 'n' || e == 'r'
                || e == 't' {
                let d: char = if e == 'b' {
                    '\u{8}'
                } else if e == 'f' {
                    '\u{c}'
                } else if e == 'n' {
                    '\n'
                } else if e == 'r' {
                    '\r'
                } else if e == 't' {
                    '\t'
                } else {
                    e
                };
                proof {
                    assert(sp_string(cs@, i0) == sp_cons(d, sp_string(cs@, i0 + 2)));
                    lemma_prepend_cons(acc0, d, sp_string(cs@, i0 + 2));
                }
                acc.push(d);
                i = i + 2;
            } else if e == 'u' {
                if n - i < 6 {
                    return None;
                }
                let h3 = hex_val_any_exec(cs[i + 2]);
                let h2 = hex_val_any_exec(cs[i + 3]);
                let h1 = hex_val_any_exec(cs[i + 4]);
                let h0 = hex_val_any_exec(cs[i + 5]);
                match (h3, h2, h1, h0) {
                    (Some(a3), Some(a2), Some(a1), Some(a0)) => {
                        let v: u32 = 4096 * (a3 as u32) + 256 * (a2 as u32) + 16 * (a1 as u32)
                            + (a0 as u32);
                        if 0xD800 <= v && v < 0xDC00 {
                            if n - i < 12 || cs[i + 6] != '\\' || cs[i + 7] != 'u' {
                                return None;
                            }
                            let g3 = hex_val_any_exec(cs[i + 8]);
                            let g2 = hex_val_any_exec(cs[i + 9]);
                            let g1 = hex_val_any_exec(cs[i + 10]);
                            let g0 = hex_val_any_exec(cs[i + 11]);
                            match (g3, g2, g1, g0) {
                                (Some(b3), Some(b2), Some(b1), Some(b0)) => {
                                    let w: u32 = 4096 * (b3 as u32) + 256 * (b2 as u32) + 16
                                        * (b1 as u32) + (b0 as u32);
                                    if 0xDC00 <= w && w < 0xE000 {
                                        let code: u32 = 0x10000 + (v - 0xD800) * 0x400 + (w
                                            - 0xDC00);
                                        match char_from_u32(code) {
                                            Some(d) => {
                                                proof {
                                                    vstd::utf8::char_u32_cast(d, code);
                                                    assert(sp_string(cs@, i0) == sp_cons(
                                                        d,
                                                        sp_string(cs@, i0 + 12),
                                                    ));
                                                    lemma_prepend_cons(
                                                        acc0,
                                                        d,
                                                        sp_string(cs@, i0 + 12),
                                                    );
                                                }
                                                acc.push(d);
                                                i = i + 12;
                                            },
                                            None => {
                                                proof {
                                                    assert(false);
                                                }
                                                return None;
                                            },
                                        }
                                    } else {
                                        return None;
                                    }
                                },
                                _ => {
                                    return None;
                                },
                            }
                        } else if 0xDC00 <= v && v < 0xE000 {
                            return None;
                        } else {
                            match char_from_u32(v) {
                                Some(d) => {
                                    proof {
                                        vstd::utf8::char_u32_cast(d, v);
                                        assert(sp_string(cs@, i0) == sp_cons(
                                            d,
                                            sp_string(cs@, i0 + 6),
                                        ));
                                        lemma_prepend_cons(acc0, d, sp_string(cs@, i0 + 6));
                                    }
                                    acc.push(d);
                                    i = i + 6;
                                },
                                None => {
                                    proof {
                                        assert(false);
                                    }
                                    return None;
                                },
                            }
                        }
                    },
                    _ => {
                        return None;
                    },
                }
            } else {
                return None;
            }
        } else if (c as u32) < 32 {
            return None;
        } else {
            proof {
                assert(sp_string(cs@, i0) == sp_cons(c, sp_string(cs@, i0 + 1)));
                lemma_prepend_cons(acc0, c, sp_string(cs@, i0 + 1));
            }
            acc.push(c);
            i = i + 1;
        }
    }
    None
}

/// Whether some key appears twice among the pairs.
fn has_dup(entries: &Vec<(String, String)>) -> (r: bool)
    ensures
        r == !unique_keys(entries_view(entries@)),
{
    let n = entries.len();
    let ghost ev = entries_view(entries@);
    let mut a: usize = 0;
    while a < n
        invariant
            a <= n,
            n == entries@.len(),
            ev == entries_view(entries@),
            forall|x: int, y: int| 0 <= x < y < a ==> ev[x].0 != ev[y].0,
        decreases n - a,
    {
        let mut b: usize = 0;
        while b < a
            invariant
                b <= a < n,
                n == entries@.len(),
                ev == entries_view(entries@),
                forall|x: int, y: int| 0 <= x < y < a ==> ev[x].0 != ev[y].0,
                forall|x: int| 0 <= x < b ==> ev[x].0 != ev[a as int].0,
            decreases a - b,
        {
            if entries[b].0 == entries[a].0 {
                proof {
                    assert(ev[b as int].0 == ev[a as int].0);
                    assert(!unique_keys(ev));
                }
                return true;
            }
            b = b + 1;
        }
        proof {
            assert forall|x: int, y: int| 0 <= x < y < a + 1 implies ev[x].0 != ev[y].0 by {
                if y == a as int {
                    assert(ev[x].0 != ev[a as int].0);
                }
            }
        }
        a = a + 1;
    }
    proof {
        assert(unique_keys(ev));
    }
    false
}

impl StoreMap {
    /// Reads a JSON object of strings back into a store. The reader accepts
    /// the usual notation — whitespace between tokens, the standard string
    /// escapes — and returns exactly what the specification parser reads.
    /// An object that names a key twice is rejected as malformed, keeping
    /// every snapshot's keys unique, where a map-based reader would silently
    /// keep the last value.
    #[verifier::rlimit(100)]
    pub fn from_json(s: &str) -> (r: Result<StoreMap, StoreError>)
        ensures
            (match r {
                Ok(m) => m.wf() && spec_parse(s@) == Some(m@),
                Err(_) => true,
            }),
            spec_parse(s@) matches Some(es) ==> (unique_keys(es) ==> (r matches Ok(m) && m@
                == es)),
    {
        let cs = chars_of(s);
        let n = cs.len();
        let i0 = skip_ws(&cs, 0);
        if i0 >= n || cs[i0] != '{' {
            return Err(StoreError::MalformedContent);
        }
        let i1 = skip_ws(&cs, i0 + 1);
        if i1 < n && cs[i1] == '}' {
            let i2 = skip_ws(&cs, i1 + 1);
            if i2 == n {
                let m = StoreMap::new();
                proof {
                    assert(spec_parse(cs@) == Some(Seq::<(Seq<char>, Seq<char>)>::empty()));
                }
                return Ok(m);
            } else {
                return Err(StoreError::MalformedContent);
            }
        }
        let mut done: Vec<(String, String)> = Vec::new();
        let mut cur: usize = i1;
        proof {
            lemma_prepend_es_empty(sp_members(cs@, i1 as int));
            assert(entries_view(done@) =~= Seq::<(Seq<char>, Seq<char>)>::empty());
        }
        while cur < n
            invariant
                cur <= n,
                n == cs@.len(),
                cs@ == s@,
                i0 == sp_ws(cs@, 0),
                i0 < n,
                cs@[i0 as int] == '{',
                i0 + 1 <= n,
                i1 == sp_ws(cs@, i0 + 1),
                !(i1 < n && cs@[i1 as int] == '}'),
                sp_members(cs@, i1 as int) == sp_prepend_es(
                    entries_view(done@),
                    sp_members(cs@, cur as int),
                ),
            decreases n - cur,
        {
            let ghost cur0 = cur as int;
            let ghost done0 = done@;
            if cs[cur] != '"' {
                return Err(StoreError::MalformedContent);
            }
            let scanned_key = scan_string(&cs, cur + 1);
            let (kraw, j) = match scanned_key {
                Some(p) => p,
                None => {
                    return Err(StoreError::MalformedContent);
                },
            };
            let j1 = skip_ws(&cs, j);
            if j1 >= n || cs[j1] != ':' {
                return Err(StoreError::MalformedContent);
            }
            let j2 = skip_ws(&cs, j1 + 1);
            if j2 >= n || cs[j2] != '"' {
                return Err(StoreError::MalformedContent);
            }
            let scanned_value = scan_string(&cs, j2 + 1);
            let (vraw, j3) = match scanned_value {
                Some(q) => q,
                None => {
                    return Err(StoreError::MalformedContent);
                },
            };
            let j4 = skip_ws(&cs, j3);
            if j4 >= n {
                return Err(StoreError::MalformedContent);
            }
            let key = string_from_chars(&kraw);
            let value = string_from_chars(&vraw);
            if cs[j4] == '}' {
                done.push((key, value));
                proof {
                    assert(sp_members(cs@, cur0) == Some(
                        (seq![(key@, value@)], j4 + 1 as int),
                    ));
                    assert(entries_view(done@) =~= entries_view(done0) + seq![(key@, value@)]);
                    assert(sp_members(cs@, i1 as int) == Some(
                        (entries_view(done@), j4 + 1 as int),
                    ));
                }
                let j5 = skip_ws(&cs, j4 + 1);
                if j5 != n {
                    return Err(StoreError::MalformedContent);
                }
                proof {
                    assert(spec_parse(cs@) == Some(entries_view(done@)));
                }
                if has_dup(&done) {
                    return Err(StoreError::MalformedContent);
                }
                let m = StoreMap::from_entries(done);
                return Ok(m);
            } else if cs[j4] == ',' {
                let j5 = skip_ws(&cs, j4 + 1);
                done.push((key, value));
                cur = j5;
                proof {
                    assert(sp_members(cs@, cur0) == sp_prepend_es(
                        seq![(key@, value@)],
                        sp_members(cs@, j5 as int),
                    ));
                    lemma_prepend_es_assoc(
                        entries_view(done0),
                        seq![(key@, value@)],
                        sp_members(cs@, j5 as int),
                    );
                    assert(entries_view(done@) =~= entries_view(done0) + seq![(key@, value@)]);
                }
            } else {
                return Err(StoreError::MalformedContent);
            }
        }
        Err(StoreError::MalformedContent)
    }

    /// The canonical JSON text of this snapshot: exactly `spec_ser` of it.
    pub fn to_json(&self) -> (r: String)
        ensures
            r@ == spec_ser(self@),
    {
        let mut out: Vec<char> = Vec::new();
        out.push('{');
        let n = self.len();
        let mut i: usize = 0;
        while i < n
            invariant
                n == self@.len(),
                i <= n,
                out@ == seq!['{'] + spec_members(self@.take(i as int)),
            decreases n - i,
        {
            if i > 0 {
                out.push(',');
            }
            out.push('"');
            push_escaped(&mut out, self.key_at(i));
            out.push('"');
            out.push(':');
            out.push('"');
            push_escaped(&mut out, self.value_at(i));
            out.push('"');
            proof {
                lemma_members_push(self@.take(i as int), self@[i as int]);
                assert(self@.take(i + 1 as int) =~= self@.take(i as int).push(
                    self@[i as int],
                ));
                assert(out@ =~= seq!['{'] + spec_members(self@.take(i + 1 as int)));
            }
            i = i + 1;
        }
        out.push('}');
        proof {
            assert(self@.take(n as int) =~= self@);
            assert(out@ =~= spec_ser(self@));
        }
        string_from_chars(&out)
    }
}

} // verus!
