//! The password generator: one guaranteed character from each of the four
//! classes, the rest drawn from their union, the whole sequence shuffled.
//! Randomness comes from the process RNG behind two trusted draws; everything
//! the result is promised to satisfy is proved around them.

use vstd::prelude::*;
use rand::seq::SliceRandom;

verus! {

use crate::text::string_from_chars;

pub open spec fn is_lower(c: char) -> bool {
    'a' <= c && c <= 'z'
}

pub open spec fn is_upper(c: char) -> bool {
    'A' <= c && c <= 'Z'
}

pub open spec fn is_digit(c: char) -> bool {
    '0' <= c && c <= '9'
}

/// The fixed set of special characters a password may carry.
pub open spec fn is_special(c: char) -> bool {
    c == '!' || c == '@' || c == '#' || c == '$' || c == '%' || c == '^' || c == '&' || c == '*'
        || c == '(' || c == ')' || c == '_' || c == '-' || c == '+' || c == '=' || c == '<' || c
        == '>' || c == '?'
}

pub open spec fn is_password_char(c: char) -> bool {
    is_lower(c) || is_upper(c) || is_digit(c) || is_special(c)
}

/// Relies on `rand::random_range`: a draw from `0..bound` lies below the
/// bound; nothing else is assumed of it.
#[verifier::external_body]
fn random_index(bound: usize) -> (r: usize)
    requires
        bound > 0,
    ensures
        r < bound,
{
    rand::random_range(0..bound)
}

/// Relies on rand's `SliceRandom::shuffle`: it permutes the slice in place,
/// so the characters are kept, only reordered.
#[verifier::external_body]
fn shuffle_chars(v: &mut Vec<char>)
    ensures
        final(v)@.to_multiset() == old(v)@.to_multiset(),
        final(v)@.len() == old(v)@.len(),
{
    v.as_mut_slice().shuffle(&mut rand::rng());
}

fn lowercase_chars() -> (r: Vec<char>)
    ensures
        r@.len() == 26,
        forall|i: int| 0 <= i < r@.len() ==> is_lower(#[trigger] r@[i]),
{
    let mut out: Vec<char> = Vec::new();
    let mut b: u8 = 0;
    while b < 26
        invariant
            b <= 26,
            out@.len() == b as int,
            forall|i: int| 0 <= i < out@.len() ==> is_lower(#[trigger] out@[i]),
        decreases 26 - b,
    {
        out.push((97 + b) as char);
        b = b + 1;
    }
    out
}

fn uppercase_chars() -> (r: Vec<char>)
    ensures
        r@.len() == 26,
        forall|i: int| 0 <= i < r@.len() ==> is_upper(#[trigger] r@[i]),
{
    let mut out: Vec<char> = Vec::new();
    let mut b: u8 = 0;
    while b < 26
        invariant
            b <= 26,
            out@.len() == b as int,
            forall|i: int| 0 <= i < out@.len() ==> is_upper(#[trigger] out@[i]),
        decreases 26 - b,
    {
        out.push((65 + b) as char);
        b = b + 1;
    }
    out
}

fn digit_chars() -> (r: Vec<char>)
    ensures
        r@.len() == 10,
        forall|i: int| 0 <= i < r@.len() ==> is_digit(#[trigger] r@[i]),
{
    let mut out: Vec<char> = Vec::new();
    let mut b: u8 = 0;
    while b < 10
        invariant
            b <= 10,
            out@.len() == b as int,
            forall|i: int| 0 <= i < out@.len() ==> is_digit(#[trigger] out@[i]),
        decreases 10 - b,
    {
        out.push((48 + b) as char);
        b = b + 1;
    }
    out
}

fn special_chars() -> (r: Vec<char>)
    ensures
        r@.len() == 17,
        forall|i: int| 0 <= i < r@.len() ==> is_special(#[trigger] r@[i]),
{
    let mut out: Vec<char> = Vec::new();
    out.push('!');
    out.push('@');
    out.push('#');
    out.push('$');
    out.push('%');
    out.push('^');
    out.push('&');
    out.push('*');
    out.push('(');
    out.push(')');
    out.push('_');
    out.push('-');
    out.push('+');
    out.push('=');
    out.push('<');
    out.push('>');
    out.push('?');
    out
}

fn push_all(dst: &mut Vec<char>, src: &Vec<char>)
    ensures
        final(dst)@ == old(dst)@ + src@,
{
    let n = src.len();
    let mut i: usize = 0;
    while i < n
        invariant
            n == src@.len(),
            i <= n,
            dst@ == old(dst)@ + src@.take(i as int),
        decreases n - i,
    {
        dst.push(src[i]);
        proof {
            assert(old(dst)@ + src@.take(i + 1 as int) =~= (old(dst)@ + src@.take(i as int)).push(
                src@[i as int],
            ));
        }
        i = i + 1;
    }
    proof {
        assert(old(dst)@ + src@.take(n as int) =~= old(dst)@ + src@);
    }
}

/// A fresh random password. The result has exactly the requested length —
/// at least 4, since one character of each class is always present — and it
/// holds at least one lowercase letter, one uppercase letter, one digit and
/// one special character, and nothing outside those four classes.
pub fn generate_strong_password(length: usize) -> (r: String)
    ensures
        r@.len() == if length < 4 {
            4int
        } else {
            length as int
        },
        exists|i: int| 0 <= i < r@.len() && is_lower(#[trigger] r@[i]),
        exists|i: int| 0 <= i < r@.len() && is_upper(#[trigger] r@[i]),
        exists|i: int| 0 <= i < r@.len() && is_digit(#[trigger] r@[i]),
        exists|i: int| 0 <= i < r@.len() && is_special(#[trigger] r@[i]),
        forall|i: int| 0 <= i < r@.len() ==> is_password_char(#[trigger] r@[i]),
{
    let lows = lowercase_chars();
    let ups = uppercase_chars();
    let digs = digit_chars();
    let specs = special_chars();
    let mut all: Vec<char> = Vec::new();
    push_all(&mut all, &lows);
    push_all(&mut all, &ups);
    push_all(&mut all, &digs);
    push_all(&mut all, &specs);
    proof {
        assert(forall|i: int| 0 <= i < all@.len() ==> is_password_char(#[trigger] all@[i]));
    }
    let mut pw: Vec<char> = Vec::new();
    pw.push(lows[random_index(lows.len())]);
    pw.push(ups[random_index(ups.len())]);
    pw.push(digs[random_index(digs.len())]);
    pw.push(specs[random_index(specs.len())]);
    let target: usize = if length < 4 {
        4
    } else {
        length
    };
    while pw.len() < target
        invariant
            4 <= pw@.len(),
            pw@.len() <= target,
            target >= 4,
            all@.len() == 79,
            forall|i: int| 0 <= i < all@.len() ==> is_password_char(#[trigger] all@[i]),
            is_lower(pw@[0]),
            is_upper(pw@[1]),
            is_digit(pw@[2]),
            is_special(pw@[3]),
            forall|i: int| 0 <= i < pw@.len() ==> is_password_char(#[trigger] pw@[i]),
        decreases target - pw@.len(),
    {
        pw.push(all[random_index(all.len())]);
    }
    let ghost before = pw@;
    shuffle_chars(&mut pw);
    proof {
        before.to_multiset_ensures();
        pw@.to_multiset_ensures();
        assert(before.contains(before[0]));
        assert(before.contains(before[1]));
        assert(before.contains(before[2]));
        assert(before.contains(before[3]));
        assert(pw@.to_multiset().count(before[0]) > 0 && pw@.to_multiset().count(before[1]) > 0
            && pw@.to_multiset().count(before[2]) > 0 && pw@.to_multiset().count(before[3])
            > 0) by {
            assert(before.to_multiset().count(before[0]) > 0);
            assert(before.to_multiset().count(before[1]) > 0);
            assert(before.to_multiset().count(before[2]) > 0);
            assert(before.to_multiset().count(before[3]) > 0);
        }
        assert(pw@.contains(before[0]));
        assert(pw@.contains(before[1]));
        assert(pw@.contains(before[2]));
        assert(pw@.contains(before[3]));
        assert forall|i: int| 0 <= i < pw@.len() implies is_password_char(#[trigger] pw@[i]) by {
            assert(pw@.contains(pw@[i]));
            assert(pw@.to_multiset().count(pw@[i]) > 0);
            assert(before.to_multiset().count(pw@[i]) > 0);
            assert(before.contains(pw@[i]));
            let j = choose|j: int| 0 <= j < before.len() && before[j] == pw@[i];
            assert(is_password_char(before[j]));
        }
    }
    string_from_chars(&pw)
}

} // verus!
