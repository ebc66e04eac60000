//! The breach check protocol: the password's SHA-1 digest rendered as 40
//! uppercase hex characters, split into the 5-character prefix that is sent
//! out and the 35-character suffix that never leaves the machine; the reply
//! is a newline-separated list of `SUFFIX:COUNT` lines, and the password is
//! compromised exactly when some line's suffix field — its text before the
//! first `:` — equals that suffix, letter case aside.

use vstd::prelude::*;
use sha1::Digest;

verus! {

use vstd::string::StrSliceExecFns;
use crate::text::chars_of;
use crate::text::string_from_chars;

/// The SHA-1 digest of the text's UTF-8 encoding: a function of the text
/// alone, computed by the outside hash; 20 bytes.
pub uninterp spec fn sha1_of(s: Seq<char>) -> Seq<u8>;

/// Relies on the sha1 crate's `Sha1` hasher, through `Digest::digest`: the
/// digest depends on the input bytes alone and is 20 bytes long.
#[verifier::external_body]
fn sha1_digest(password: &str) -> (r: Vec<u8>)
    ensures
        r@ == sha1_of(password@),
        r@.len() == 20,
{
    sha1::Sha1::digest(password.as_bytes()).to_vec()
}

/// The uppercase hex digit for `n` in `0..16`.
pub open spec fn hex_upper_digit(n: int) -> char {
    ((if n < 10 {
        48 + n
    } else {
        55 + n
    }) as u8) as char
}

/// Bytes as uppercase hex text, two digits a byte.
pub open spec fn spec_hex_upper(bs: Seq<u8>) -> Seq<char>
    decreases bs.len(),
{
    if bs.len() == 0 {
        Seq::empty()
    } else {
        seq![hex_upper_digit(bs[0] as int / 16), hex_upper_digit(bs[0] as int % 16)]
            + spec_hex_upper(bs.drop_first())
    }
}

proof fn lemma_hex_upper_push(bs: Seq<u8>, b: u8)
    ensures
        spec_hex_upper(bs.push(b)) == spec_hex_upper(bs) + seq![hex_upper_digit(b as int / 16),
            hex_upper_digit(b as int % 16)],
    decreases bs.len(),
{
    if bs.len() == 0 {
        let unit = seq![hex_upper_digit(b as int / 16), hex_upper_digit(b as int % 16)];
        assert(bs.push(b)[0] == b);
        assert(bs.push(b).drop_first() =~= Seq::<u8>::empty());
        assert(spec_hex_upper(bs.push(b)) == unit + spec_hex_upper(Seq::<u8>::empty()));
        assert(unit + Seq::<char>::empty() =~= unit);
        assert(spec_hex_upper(bs) + unit =~= unit);
    } else {
        assert(bs.push(b).drop_first() =~= bs.drop_first().push(b));
        lemma_hex_upper_push(bs.drop_first(), b);
        assert(spec_hex_upper(bs.push(b)) =~= spec_hex_upper(bs) + seq![hex_upper_digit(
            b as int / 16,
        ), hex_upper_digit(b as int % 16)]);
    }
}

proof fn lemma_hex_upper_len(bs: Seq<u8>)
    ensures
        spec_hex_upper(bs).len() == 2 * bs.len(),
    decreases bs.len(),
{
    if bs.len() > 0 {
        lemma_hex_upper_len(bs.drop_first());
    }
}

fn to_hex_upper(bytes: &Vec<u8>) -> (r: Vec<char>)
    ensures
        r@ == spec_hex_upper(bytes@),
{
    let n = bytes.len();
    let mut out: Vec<char> = Vec::new();
    let mut i: usize = 0;
    while i < n
        invariant
            n == bytes@.len(),
            i <= n,
            out@ == spec_hex_upper(bytes@.take(i as int)),
        decreases n - i,
    {
        let b = bytes[i];
        let hi = b / 16;
        let lo = b % 16;
        if hi < 10 {
            out.push((48 + hi) as char);
        } else {
            out.push((55 + hi) as char);
        }
        if lo < 10 {
            out.push((48 + lo) as char);
        } else {
            out.push((55 + lo) as char);
        }
        proof {
            lemma_hex_upper_push(bytes@.take(i as int), b);
            assert(bytes@.take(i + 1 as int) =~= bytes@.take(i as int).push(b));
            assert(out@ =~= spec_hex_upper(bytes@.take(i + 1 as int)));
        }
        i = i + 1;
    }
    proof {
        assert(bytes@.take(n as int) =~= bytes@);
    }
    out
}

/// The password's hash as the protocol writes it: uppercase hex of SHA-1.
pub open spec fn spec_hash_hex(p: Seq<char>) -> Seq<char> {
    spec_hex_upper(sha1_of(p))
}

/// The index of the first occurrence of `t`, or the length when none.
pub open spec fn spec_find_char(s: Seq<char>, t: char) -> int
    decreases s.len(),
{
    if s.len() == 0 {
        0
    } else if s[0] == t {
        0
    } else {
        1 + spec_find_char(s.drop_first(), t)
    }
}

pub proof fn lemma_find_char_bounds(s: Seq<char>, t: char)
    ensures
        0 <= spec_find_char(s, t) <= s.len(),
        spec_find_char(s, t) < s.len() ==> s[spec_find_char(s, t)] == t,
        forall|j: int| 0 <= j < spec_find_char(s, t) ==> s[j] != t,
    decreases s.len(),
{
    if s.len() > 0 && s[0] != t {
        lemma_find_char_bounds(s.drop_first(), t);
        assert forall|j: int| 0 <= j < spec_find_char(s, t) implies s[j] != t by {
            if j > 0 {
                assert(s.drop_first()[j - 1] == s[j]);
            }
        }
    }
}

proof fn lemma_find_char_is(s: Seq<char>, t: char, m: int)
    requires
        0 <= m <= s.len(),
        forall|j: int| 0 <= j < m ==> s[j] != t,
        m < s.len() ==> s[m] == t,
    ensures
        spec_find_char(s, t) == m,
    decreases s.len(),
{
    if s.len() == 0 {
    } else if s[0] == t {
        assert(m == 0);
    } else {
        assert(m > 0);
        assert(forall|j: int|
            0 <= j < s.drop_first().len() ==> s.drop_first()[j] == s[j + 1]);
        lemma_find_char_is(s.drop_first(), t, m - 1);
    }
}

/// A line piece with a single carriage return before the newline dropped.
pub open spec fn spec_strip_cr(p: Seq<char>) -> Seq<char> {
    if p.len() > 0 && p[p.len() - 1] == '\r' {
        p.take(p.len() - 1)
    } else {
        p
    }
}

/// The lines of a text, as the usual line iterator yields them: split at
/// newlines, a carriage return directly before a newline dropped, the final
/// line ending optional, no empty trailing line.
pub open spec fn spec_lines(s: Seq<char>) -> Seq<Seq<char>>
    decreases s.len(),
    via spec_lines_dec
{
    if s.len() == 0 {
        Seq::empty()
    } else {
        let i = spec_find_char(s, '\n');
        if i >= s.len() {
            seq![s]
        } else {
            seq![spec_strip_cr(s.take(i))] + spec_lines(s.skip(i + 1))
        }
    }
}

#[via_fn]
proof fn spec_lines_dec(s: Seq<char>) {
    lemma_find_char_bounds(s, '\n');
}

/// An ASCII lowercase letter raised to its uppercase form; every other
/// character unchanged.
pub open spec fn spec_upper_ascii(c: char) -> char {
    if 'a' <= c && c <= 'z' {
        (((c as u32) - 32) as u8) as char
    } else {
        c
    }
}

/// A text with its ASCII letters raised to uppercase: two texts are equal
/// under this map exactly when they match case-insensitively.
pub open spec fn spec_fold_upper(s: Seq<char>) -> Seq<char> {
    s.map_values(|c: char| spec_upper_ascii(c))
}

/// The suffix field of a reply line: the text before the first `:`, or the
/// whole line when it carries no count.
pub open spec fn spec_suffix_field(line: Seq<char>) -> Seq<char> {
    line.take(spec_find_char(line, ':'))
}

/// What the check decides, given the reply text: some reply line's suffix
/// field equals the 35-character suffix of the password's hash, letter case
/// aside.
pub open spec fn spec_compromised(p: Seq<char>, body: Seq<char>) -> bool {
    exists|k: int|
        0 <= k < spec_lines(body).len() && spec_fold_upper(
            spec_suffix_field(#[trigger] spec_lines(body)[k]),
        ) == spec_fold_upper(spec_hash_hex(p).skip(5))
}

/// The uppercase form of an ASCII letter; any other character unchanged.
fn upper_ascii(c: char) -> (r: char)
    ensures
        r == spec_upper_ascii(c),
{
    if c >= 'a' && c <= 'z' {
        ((c as u32 - 32) as u8) as char
    } else {
        c
    }
}

/// Whether the suffix field of the line `[lo, hi)` of `cs` — its text
/// before the first `:`, or the whole line without one — equals the last
/// 35 characters of the 40-character hash `hx`, letter case aside.
fn field_matches(cs: &Vec<char>, lo: usize, hi: usize, hx: &Vec<char>) -> (r: bool)
    requires
        lo <= hi <= cs@.len(),
        hx@.len() == 40,
    ensures
        r == (spec_fold_upper(spec_suffix_field(cs@.subrange(lo as int, hi as int)))
            == spec_fold_upper(hx@.skip(5))),
{
    let ghost line = cs@.subrange(lo as int, hi as int);
    let mut f: usize = lo;
    while f < hi && cs[f] != ':'
        invariant
            lo <= f <= hi <= cs@.len(),
            forall|j: int| lo <= j < f ==> cs@[j] != ':',
        decreases hi - f,
    {
        f = f + 1;
    }
    proof {
        assert forall|j: int| 0 <= j < f - lo implies line[j] != ':' by {
            assert(line[j] == cs@[lo + j]);
        }
        lemma_find_char_is(line, ':', f as int - lo as int);
        assert(spec_suffix_field(line) == line.take(f as int - lo as int));
    }
    if f - lo != 35 {
        proof {
            assert(spec_fold_upper(spec_suffix_field(line)).len() == f - lo);
            assert(spec_fold_upper(hx@.skip(5)).len() == 35);
        }
        return false;
    }
    let mut m: usize = 0;
    while m < 35
        invariant
            m <= 35,
            lo <= f <= hi <= cs@.len(),
            f - lo == 35,
            hx@.len() == 40,
            line == cs@.subrange(lo as int, hi as int),
            spec_suffix_field(line) == line.take(35),
            forall|mm: int|
                0 <= mm < m ==> spec_upper_ascii(cs@[lo + mm]) == spec_upper_ascii(
                    #[trigger] hx@[5 + mm],
                ),
        decreases 35 - m,
    {
        if upper_ascii(cs[lo + m]) != upper_ascii(hx[5 + m]) {
            proof {
                assert(spec_suffix_field(line)[m as int] == cs@[lo + m]);
                assert(spec_fold_upper(spec_suffix_field(line))[m as int] == spec_upper_ascii(
                    cs@[lo + m],
                ));
                assert(spec_fold_upper(hx@.skip(5))[m as int] == spec_upper_ascii(
                    hx@[5 + m],
                ));
                assert(spec_fold_upper(spec_suffix_field(line)) != spec_fold_upper(
                    hx@.skip(5),
                ));
            }
            return false;
        }
        m = m + 1;
    }
    proof {
        assert forall|mm: int|
            0 <= mm < 35 implies spec_fold_upper(spec_suffix_field(line))[mm] == spec_fold_upper(
            hx@.skip(5),
        )[mm] by {
            assert(spec_upper_ascii(cs@[lo + mm]) == spec_upper_ascii(hx@[5 + mm]));
            assert(spec_suffix_field(line)[mm] == cs@[lo + mm]);
            assert(hx@.skip(5)[mm] == hx@[5 + mm]);
        }
        assert(spec_fold_upper(spec_suffix_field(line)) =~= spec_fold_upper(hx@.skip(5)));
    }
    true
}

/// The breach analyzer: everything it decides locally is here; the one HTTP
/// exchange happens outside and its reply text is handed back in.
pub struct HIBPRiskAnalyzer;

impl HIBPRiskAnalyzer {
    /// The SHA-1 hash of the password, as 40 uppercase hex characters.
    pub fn hash_password(&self, password: &str) -> (r: String)
        ensures
            r@ == spec_hash_hex(password@),
            r@.len() == 40,
    {
        let d = sha1_digest(password);
        let hx = to_hex_upper(&d);
        proof {
            lemma_hex_upper_len(d@);
        }
        string_from_chars(&hx)
    }

    /// The 5-character hash prefix that may be sent out, and the
    /// 35-character suffix that never leaves the machine.
    pub fn range_query_parts(&self, password: &str) -> (r: (String, String))
        ensures
            r.0@ == spec_hash_hex(password@).take(5),
            r.1@ == spec_hash_hex(password@).skip(5),
            r.0@.len() == 5,
            r.1@.len() == 35,
    {
        let full = self.hash_password(password);
        let prefix = full.as_str().substring_char(0, 5).to_owned();
        let suffix = full.as_str().substring_char(5, 40).to_owned();
        proof {
            assert(full@.subrange(0, 5) =~= full@.take(5));
            assert(full@.subrange(5, 40) =~= full@.skip(5));
        }
        (prefix, suffix)
    }

    /// The verdict, as a pure function of the password's hash and the reply
    /// text: `true` exactly when some reply line's suffix field — its text
    /// before the first `:`, or the whole line without one — equals the
    /// hash suffix, letter case aside.
    pub fn evaluate_response(&self, password: &str, body: &str) -> (r: bool)
        ensures
            r == spec_compromised(password@, body@),
    {
        let d = sha1_digest(password);
        let hx = to_hex_upper(&d);
        proof {
            lemma_hex_upper_len(d@);
        }
        let cs = chars_of(body);
        let n = cs.len();
        let mut pos: usize = 0;
        let ghost mut k: int = 0;
        proof {
            assert(body@.skip(0) =~= body@);
            assert(spec_lines(body@).skip(0) =~= spec_lines(body@));
        }
        while pos < n
            invariant
                pos <= n,
                n == cs@.len(),
                cs@ == body@,
                hx@ == spec_hash_hex(password@),
                hx@.len() == 40,
                0 <= k <= spec_lines(body@).len(),
                spec_lines(body@).skip(k) == spec_lines(body@.skip(pos as int)),
                forall|j: int|
                    0 <= j < k ==> spec_fold_upper(spec_suffix_field(
                        #[trigger] spec_lines(body@)[j],
                    )) != spec_fold_upper(spec_hash_hex(password@).skip(5)),
            decreases n - pos,
        {
            let e = find_nl(&cs, pos);
            let ghost seg = body@.skip(pos as int);
            proof {
                lemma_find_char_is(seg, '\n', e - pos);
                assert(seg.len() > 0);
            }
            let hi: usize = if e < n && e > pos && cs[e - 1] == '\r' {
                e - 1
            } else {
                e
            };
            proof {
                if e < n {
                    assert(seg.take(e - pos) =~= cs@.subrange(pos as int, e as int));
                    assert(spec_strip_cr(seg.take(e - pos)) =~= cs@.subrange(
                        pos as int,
                        hi as int,
                    ));
                    assert(spec_lines(seg) == seq![spec_strip_cr(seg.take(e - pos))]
                        + spec_lines(seg.skip(e - pos + 1)));
                } else {
                    assert(seg =~= cs@.subrange(pos as int, hi as int));
                    assert(spec_lines(seg) == seq![seg]);
                }
                assert(spec_lines(seg)[0] == cs@.subrange(pos as int, hi as int));
                assert(spec_lines(body@).skip(k).len() >= 1);
                assert(spec_lines(body@).skip(k)[0] == spec_lines(body@)[k]);
                assert(spec_lines(body@)[k] == cs@.subrange(pos as int, hi as int));
            }
            if field_matches(&cs, pos, hi, &hx) {
                proof {
                    assert(spec_fold_upper(spec_suffix_field(spec_lines(body@)[k]))
                        == spec_fold_upper(spec_hash_hex(password@).skip(5)));
                }
                return true;
            }
            proof {
                assert(spec_lines(body@).skip(k + 1) =~= spec_lines(body@).skip(k).drop_first());
                if e < n {
                    assert(seg.skip(e - pos + 1) =~= body@.skip(e + 1));
                    assert(spec_lines(body@).skip(k + 1) =~= spec_lines(body@.skip(e + 1)));
                } else {
                    assert(spec_lines(body@).skip(k + 1) =~= spec_lines(body@.skip(n as int)));
                }
                k = k + 1;
            }
            if e < n {
                pos = e + 1;
            } else {
                pos = n;
            }
        }
        proof {
            assert(body@.skip(n as int) =~= Seq::<char>::empty());
            assert(spec_lines(body@).skip(k).len() == 0);
            assert(k == spec_lines(body@).len());
        }
        false
    }
}

/// The absolute index of the first newline at or past `from`, or the length.
fn find_nl(cs: &Vec<char>, from: usize) -> (r: usize)
    requires
        from <= cs@.len(),
    ensures
        from <= r <= cs@.len(),
        r - from == spec_find_char(cs@.skip(from as int), '\n'),
        r < cs@.len() ==> cs@[r as int] == '\n',
        forall|j: int| from <= j < r ==> cs@[j] != '\n',
{
    let n = cs.len();
    let mut i: usize = from;
    while i < n
        invariant
            from <= i <= n,
            n == cs@.len(),
            forall|j: int| from <= j < i ==> cs@[j] != '\n',
        decreases n - i,
    {
        if cs[i] == '\n' {
            proof {
                lemma_find_char_is(cs@.skip(from as int), '\n', i - from);
            }
            return i;
        }
        i = i + 1;
    }
    proof {
        lemma_find_char_is(cs@.skip(from as int), '\n', n - from);
    }
    n
}

} // verus!
