//! Character-level text utilities: conversion between strings and character
//! vectors, whitespace handling, digit predicates, integer parsing, and
//! lexicographic comparison. All higher layers work over `Vec<char>` and
//! state their contracts over `Seq<char>`.

use vstd::prelude::*;

verus! {

use vstd::std_specs::iter::IteratorSpec;

/// The whitespace characters recognised by trimming and normalisation.
pub open spec fn is_ws(c: char) -> bool {
    c == ' ' || c == '\t' || c == '\n' || c == '\r' || c == '\u{0b}' || c == '\u{0c}'
}

/// Executable mirror of [`is_ws`].
pub fn ws_char(c: char) -> (r: bool)
    ensures
        r == is_ws(c),
{
    c == ' ' || c == '\t' || c == '\n' || c == '\r' || c == '\u{0b}' || c == '\u{0c}'
}

/// An ASCII decimal digit.
pub open spec fn is_digit(c: char) -> bool {
    '0' <= c && c <= '9'
}

/// Executable mirror of [`is_digit`].
pub fn digit_char(c: char) -> (r: bool)
    ensures
        r == is_digit(c),
{
    '0' <= c && c <= '9'
}

/// Collects the characters of a string slice into a vector.
pub fn str_to_chars(s: &str) -> (r: Vec<char>)
    ensures
        r@ == s@,
{
    broadcast use vstd::string::group_string_axioms;

    let mut it = s.chars();
    let mut r: Vec<char> = Vec::new();
    loop
        invariant
            it.obeys_prophetic_iter_laws(),
            it.decrease() is Some,
            r@ + it.remaining() == s@,
        ensures
            r@ == s@,
        decreases it.decrease()->0,
    {
        match it.next() {
            Some(c) => {
                r.push(c);
            },
            None => {
                proof {
                    assert(r@ =~= s@);
                }
                break ;
            },
        }
    }
    r
}

/// Builds a `String` whose characters are exactly those of `v`.
///
/// Relies on `String`'s `FromIterator<char>` impl: collecting characters
/// yields the string containing those characters in order.
#[verifier::external_body]
pub fn chars_to_string(v: &Vec<char>) -> (s: String)
    ensures
        s@ == v@,
{
    v.iter().collect()
}

/// `s` with leading whitespace removed.
pub open spec fn trim_left(s: Seq<char>) -> Seq<char>
    decreases s.len(),
{
    if s.len() == 0 {
        s
    } else if is_ws(s[0]) {
        trim_left(s.drop_first())
    } else {
        s
    }
}

/// `s` with trailing whitespace removed.
pub open spec fn trim_right(s: Seq<char>) -> Seq<char>
    decreases s.len(),
{
    if s.len() == 0 {
        s
    } else if is_ws(s[s.len() - 1]) {
        trim_right(s.drop_last())
    } else {
        s
    }
}

/// `s` with whitespace removed from both ends.
pub open spec fn trim(s: Seq<char>) -> Seq<char> {
    trim_right(trim_left(s))
}

proof fn lemma_trim_left_skip(s: Seq<char>, i: int)
    requires
        0 <= i <= s.len(),
        forall|k: int| 0 <= k < i ==> is_ws(s[k]),
        i == s.len() || !is_ws(s[i]),
    ensures
        trim_left(s) == s.skip(i),
    decreases i,
{
    if i == 0 {
        assert(s.skip(0) =~= s);
    } else {
        assert(is_ws(s[0]));
        lemma_trim_left_skip(s.drop_first(), i - 1);
        assert(s.drop_first().skip(i - 1) =~= s.skip(i));
    }
}

proof fn lemma_trim_right_take(s: Seq<char>, j: int)
    requires
        0 <= j <= s.len(),
        forall|k: int| j <= k < s.len() ==> is_ws(s[k]),
        j == 0 || !is_ws(s[j - 1]),
    ensures
        trim_right(s) == s.take(j),
    decreases s.len() - j,
{
    if j == s.len() {
        assert(s.take(j) =~= s);
    } else {
        assert(is_ws(s[s.len() - 1]));
        lemma_trim_right_take(s.drop_last(), j);
        assert(s.drop_last() =~= s.take(s.len() - 1));
        assert(s.drop_last().take(j) =~= s.take(j));
    }
}

/// Copies `v[from..to]` into a fresh vector.
pub fn subrange_chars(v: &Vec<char>, from: usize, to: usize) -> (r: Vec<char>)
    requires
        from <= to <= v@.len(),
    ensures
        r@ == v@.subrange(from as int, to as int),
{
    let mut r: Vec<char> = Vec::new();
    let mut i: usize = from;
    while i < to
        invariant
            from <= i <= to <= v@.len(),
            r@ == v@.subrange(from as int, i as int),
        decreases to - i,
    {
        r.push(v[i]);
        proof {
            assert(r@ =~= v@.subrange(from as int, i + 1 as int));
        }
        i = i + 1;
    }
    r
}

/// Removes whitespace from both ends of `v`.
pub fn trim_chars(v: &Vec<char>) -> (r: Vec<char>)
    ensures
        r@ == trim(v@),
{
    let n = v.len();
    let mut i: usize = 0;
    while i < n && ws_char(v[i])
        invariant
            0 <= i <= n == v@.len(),
            forall|k: int| 0 <= k < i ==> is_ws(v@[k]),
        decreases n - i,
    {
        i = i + 1;
    }
    let mut j: usize = n;
    while j > i && ws_char(v[j - 1])
        invariant
            0 <= i <= j <= n == v@.len(),
            forall|k: int| 0 <= k < i ==> is_ws(v@[k]),
            forall|k: int| j <= k < n ==> is_ws(v@[k]),
        decreases j,
    {
        j = j - 1;
    }
    proof {
        lemma_trim_left_skip(v@, i as int);
        if j == i {
            assert(trim_left(v@) =~= v@.subrange(i as int, j as int));
            assert(trim_right(trim_left(v@)) == trim_left(v@));
        } else {
            assert(!is_ws(v@[j - 1]));
            lemma_trim_right_take(v@.skip(i as int), j - i);
            assert(v@.skip(i as int).take(j - i) =~= v@.subrange(i as int, j as int));
        }
    }
    subrange_chars(v, i, j)
}

/// One step of whitespace normalisation: `emitted` says whether any word
/// character has been emitted, `ws_since` whether whitespace has been seen
/// since the last word character.
pub open spec fn norm_rest(s: Seq<char>, emitted: bool, ws_since: bool) -> Seq<char>
    decreases s.len(),
{
    if s.len() == 0 {
        Seq::empty()
    } else if is_ws(s[0]) {
        norm_rest(s.drop_first(), emitted, true)
    } else {
        let sep: Seq<char> = if emitted && ws_since {
            seq![' ']
        } else {
            Seq::empty()
        };
        sep + seq![s[0]] + norm_rest(s.drop_first(), true, false)
    }
}

/// Whitespace normalisation: runs of whitespace collapse to a single space
/// and both ends are trimmed.
pub open spec fn norm_spaces(s: Seq<char>) -> Seq<char> {
    norm_rest(s, false, false)
}

/// Collapses whitespace runs to single spaces and trims both ends.
pub fn normalize_spaces_chars(v: &Vec<char>) -> (r: Vec<char>)
    ensures
        r@ == norm_spaces(v@),
{
    let n = v.len();
    let mut r: Vec<char> = Vec::new();
    let mut emitted = false;
    let mut ws_since = false;
    let mut i: usize = 0;
    proof {
        assert(v@.skip(0) =~= v@);
        assert(r@ + norm_rest(v@, false, false) =~= norm_rest(v@, false, false));
    }
    while i < n
        invariant
            0 <= i <= n == v@.len(),
            norm_spaces(v@) == r@ + norm_rest(v@.skip(i as int), emitted, ws_since),
        decreases n - i,
    {
        let c = v[i];
        let ghost tail = v@.skip(i as int);
        let ghost r0 = r@;
        let ghost em0 = emitted;
        let ghost ws0 = ws_since;
        proof {
            assert(tail.drop_first() =~= v@.skip(i + 1 as int));
            assert(tail[0] == v@[i as int]);
        }
        if ws_char(c) {
            ws_since = true;
        } else {
            if emitted && ws_since {
                r.push(' ');
            }
            r.push(c);
            emitted = true;
            ws_since = false;
        }
        proof {
            if !is_ws(c) {
                let sep: Seq<char> = if em0 && ws0 {
                    seq![' ']
                } else {
                    Seq::empty()
                };
                assert(norm_rest(tail, em0, ws0) == sep + seq![c] + norm_rest(
                    tail.drop_first(),
                    true,
                    false,
                ));
                assert(r@ =~= r0 + sep + seq![c]);
                assert(r@ + norm_rest(v@.skip(i + 1 as int), emitted, ws_since) =~= r0
                    + norm_rest(tail, em0, ws0));
            }
        }
        i = i + 1;
    }
    proof {
        assert(v@.skip(n as int) =~= Seq::<char>::empty());
        assert(r@ + Seq::<char>::empty() =~= r@);
    }
    r
}

/// `p` is a prefix of `s`.
pub open spec fn starts_with(s: Seq<char>, p: Seq<char>) -> bool {
    p.len() <= s.len() && s.subrange(0, p.len() as int) == p
}

/// Executable prefix test.
pub fn starts_with_chars(v: &Vec<char>, p: &Vec<char>) -> (r: bool)
    ensures
        r == starts_with(v@, p@),
{
    let np = p.len();
    if np > v.len() {
        return false;
    }
    let mut i: usize = 0;
    while i < np
        invariant
            0 <= i <= np == p@.len() <= v@.len(),
            forall|k: int| 0 <= k < i ==> v@[k] == p@[k],
        decreases np - i,
    {
        if v[i] != p[i] {
            proof {
                assert(v@.subrange(0, np as int)[i as int] != p@[i as int]);
            }
            return false;
        }
        i = i + 1;
    }
    proof {
        assert(v@.subrange(0, np as int) =~= p@);
    }
    true
}

/// `needle` occurs in `s` starting at position `i`.
pub open spec fn matches_at(s: Seq<char>, needle: Seq<char>, i: int) -> bool {
    0 <= i && i + needle.len() <= s.len() && s.subrange(i, i + needle.len()) == needle
}

/// `needle` occurs somewhere in `s`.
pub open spec fn contains_seq(s: Seq<char>, needle: Seq<char>) -> bool {
    exists|i: int| matches_at(s, needle, i)
}

/// Executable substring search.
pub fn contains_chars(v: &Vec<char>, needle: &Vec<char>) -> (r: bool)
    ensures
        r == contains_seq(v@, needle@),
{
    let nn = needle.len();
    let nv = v.len();
    if nn > nv {
        proof {
            assert(forall|i: int| !matches_at(v@, needle@, i));
        }
        return false;
    }
    let mut i: usize = 0;
    while i <= nv - nn
        invariant
            nn == needle@.len() <= nv == v@.len(),
            0 <= i <= nv - nn + 1,
            forall|k: int| 0 <= k < i ==> !matches_at(v@, needle@, k),
        decreases nv - i,
    {
        let mut j: usize = 0;
        let mut hit = true;
        while j < nn
            invariant
                nn == needle@.len() <= nv == v@.len(),
                0 <= i <= nv - nn,
                0 <= j <= nn,
                hit == (forall|k: int| 0 <= k < j ==> v@[i + k] == needle@[k]),
            decreases nn - j,
        {
            if v[i + j] != needle[j] {
                hit = false;
                j = nn;
            } else {
                proof {
                    if hit {
                        assert(v@[i + j as int] == needle@[j as int]);
                        assert(forall|k: int|
                            0 <= k < j + 1 ==> v@[i + k] == #[trigger] needle@[k]);
                    }
                }
                j = j + 1;
            }
        }
        if hit {
            proof {
                assert(v@.subrange(i as int, i + nn as int) =~= needle@);
                assert(matches_at(v@, needle@, i as int));
            }
            return true;
        }
        proof {
            if matches_at(v@, needle@, i as int) {
                assert(forall|k: int|
                    0 <= k < nn ==> v@[i + k] == #[trigger] v@.subrange(
                        i as int,
                        i + nn as int,
                    )[k]);
            }
        }
        i = i + 1;
    }
    proof {
        assert(forall|k: int| matches_at(v@, needle@, k) ==> 0 <= k < i);
    }
    false
}

/// Lexicographic order on character sequences (by code point), the order a
/// text store applies to string comparisons.
pub open spec fn lex_le(a: Seq<char>, b: Seq<char>) -> bool
    decreases a.len(),
{
    if a.len() == 0 {
        true
    } else if b.len() == 0 {
        false
    } else if a[0] != b[0] {
        a[0] < b[0]
    } else {
        lex_le(a.drop_first(), b.drop_first())
    }
}

/// Executable lexicographic comparison.
pub fn lex_le_chars(a: &Vec<char>, b: &Vec<char>) -> (r: bool)
    ensures
        r == lex_le(a@, b@),
{
    let na = a.len();
    let nb = b.len();
    let mut i: usize = 0;
    proof {
        assert(a@.skip(0) =~= a@);
        assert(b@.skip(0) =~= b@);
    }
    loop
        invariant
            na == a@.len(),
            nb == b@.len(),
            0 <= i <= na,
            0 <= i <= nb,
            lex_le(a@, b@) == lex_le(a@.skip(i as int), b@.skip(i as int)),
        ensures
            lex_le(a@, b@) == ({
                if i >= na {
                    true
                } else if i >= nb {
                    false
                } else {
                    a@[i as int] < b@[i as int]
                }
            }),
        decreases na - i,
    {
        if i >= na || i >= nb || a[i] != b[i] {
            break ;
        }
        proof {
            assert(a@.skip(i as int).drop_first() =~= a@.skip(i + 1 as int));
            assert(b@.skip(i as int).drop_first() =~= b@.skip(i + 1 as int));
        }
        i = i + 1;
    }
    if i >= na {
        true
    } else if i >= nb {
        false
    } else {
        a[i] < b[i]
    }
}

/// Every character of `s` is an ASCII digit.
pub open spec fn all_digits(s: Seq<char>) -> bool {
    forall|i: int| 0 <= i < s.len() ==> is_digit(s[i])
}

/// The numeric value of a digit string.
pub open spec fn digits_val(s: Seq<char>) -> nat
    decreases s.len(),
{
    if s.len() == 0 {
        0
    } else {
        digits_val(s.drop_last()) * 10 + ((s[s.len() - 1] as int - '0' as int) as nat)
    }
}

/// The value of a decimal integer literal with optional sign, as a signed
/// 64-bit parse would read it: `None` for an empty or malformed string or a
/// value out of range.
pub open spec fn parse_int(s: Seq<char>) -> Option<i64> {
    let (neg, ds) = if s.len() > 0 && (s[0] == '-' || s[0] == '+') {
        (s[0] == '-', s.drop_first())
    } else {
        (false, s)
    };
    if ds.len() == 0 || !all_digits(ds) {
        None
    } else if neg {
        if digits_val(ds) <= 0x8000_0000_0000_0000 {
            Some((-(digits_val(ds) as int)) as i64)
        } else {
            None
        }
    } else {
        if digits_val(ds) <= 0x7fff_ffff_ffff_ffff {
            Some(digits_val(ds) as i64)
        } else {
            None
        }
    }
}

/// Appending a digit multiplies the value by ten and adds the digit.
pub proof fn lemma_digits_val_push(s: Seq<char>, c: char)
    requires
        is_digit(c),
    ensures
        digits_val(s.push(c)) == digits_val(s) * 10 + (c as int - '0' as int),
{
    let t = s.push(c);
    assert(t.drop_last() =~= s);
    assert(t[t.len() - 1] == c);
}

/// Parses an optionally signed decimal integer, exactly as [`parse_int`]
/// describes.
pub fn parse_int_chars(v: &Vec<char>) -> (r: Option<i64>)
    ensures
        r == parse_int(v@),
{
    let n = v.len();
    let mut start: usize = 0;
    let mut neg = false;
    if n > 0 && (v[0] == '-' || v[0] == '+') {
        neg = v[0] == '-';
        start = 1;
    }
    let ghost ds = if start == 1 {
        v@.drop_first()
    } else {
        v@
    };
    if start >= n {
        return None;
    }
    let mut acc: u64 = 0;
    let mut i: usize = start;
    let mut overflow = false;
    while i < n
        invariant
            0 <= start <= i <= n == v@.len(),
            start == 0 || start == 1,
            neg ==> start == 1,
            start == 1 ==> v@.len() > 0 && (v@[0] == '-' || v@[0] == '+') && (neg <==> v@[0]
                == '-'),
            start == 0 ==> !(v@.len() > 0 && (v@[0] == '-' || v@[0] == '+')),
            start == 1 ==> ds == v@.drop_first(),
            start == 0 ==> ds == v@,
            ds.len() == n - start,
            forall|k: int| 0 <= k < i - start ==> is_digit(ds[k]),
            !overflow ==> acc == digits_val(ds.take(i - start)) && acc
                <= 0x8000_0000_0000_0000,
            overflow ==> digits_val(ds.take(i - start)) > 0x8000_0000_0000_0000,
        decreases n - i,
    {
        let c = v[i];
        proof {
            if start == 1 {
                assert(ds[i - start] == v@.drop_first()[i - 1]);
                assert(v@.drop_first()[i - 1] == v@[i as int]);
            } else {
                assert(ds[i - start] == v@[i as int]);
            }
        }
        if !digit_char(c) {
            return None;
        }
        let d: u64 = (c as u64) - ('0' as u64);
        proof {
            assert(ds.take(i - start + 1).drop_last() =~= ds.take(i - start));
        }
        if !overflow {
            let m = acc.checked_mul(10);
            match m {
                Some(m10) => {
                    let s2 = m10.checked_add(d);
                    match s2 {
                        Some(a2) => {
                            if a2 > 0x8000_0000_0000_0000 {
                                overflow = true;
                            } else {
                                acc = a2;
                            }
                        },
                        None => {
                            overflow = true;
                        },
                    }
                },
                None => {
                    proof {
                        assert(digits_val(ds.take(i - start + 1)) >= acc * 10);
                    }
                    overflow = true;
                },
            }
        } else {
            proof {
                let t = ds.take(i - start + 1);
                assert(digits_val(t) == digits_val(ds.take(i - start)) * 10 + (t[t.len() - 1]
                    as nat - '0' as nat));
                assert(digits_val(ds.take(i - start)) * 10 >= digits_val(ds.take(i - start)));
            }
        }
        i = i + 1;
    }
    proof {
        assert(ds.take(n - start) =~= ds);
        assert(all_digits(ds));
        assert(ds.len() > 0);
    }
    if overflow {
        return None;
    }
    if neg {
        if acc <= 0x7fff_ffff_ffff_ffff {
            proof {
                assert((-(digits_val(ds) as int)) as i64 == -(acc as i64));
            }
            Some(-(acc as i64))
        } else {
            proof {
                assert(acc == 0x8000_0000_0000_0000);
                assert((-(digits_val(ds) as int)) as i64 == i64::MIN);
            }
            Some(i64::MIN)
        }
    } else {
        if acc <= 0x7fff_ffff_ffff_ffff {
            Some(acc as i64)
        } else {
            None
        }
    }
}

/// Scans the mantissa of a float-shaped string from position `i`.
pub open spec fn float_mantissa(s: Seq<char>, i: int, has_digit: bool, has_dot: bool) -> bool
    decreases s.len() - i,
{
    if i < 0 || i > s.len() {
        false
    } else if i == s.len() {
        has_digit
    } else if is_digit(s[i]) {
        float_mantissa(s, i + 1, true, has_dot)
    } else if s[i] == '.' {
        !has_dot && float_mantissa(s, i + 1, has_digit, true)
    } else if s[i] == 'e' || s[i] == 'E' {
        has_digit && float_exp(s, i + 1)
    } else {
        false
    }
}

/// Scans an exponent: an optional sign and then at least one digit.
pub open spec fn float_exp(s: Seq<char>, i: int) -> bool {
    if 0 <= i < s.len() && (s[i] == '+' || s[i] == '-') {
        float_exp_digits(s, i + 1)
    } else {
        float_exp_digits(s, i)
    }
}

/// Position `i` up to the end holds at least one digit and nothing else.
pub open spec fn float_exp_digits(s: Seq<char>, i: int) -> bool {
    0 <= i < s.len() && (forall|j: int| i <= j < s.len() ==> is_digit(s[j]))
}

/// The string has the shape of a decimal float: an optional leading sign,
/// digits with at most one dot, and an optional exponent part.
pub open spec fn is_float_str(s: Seq<char>) -> bool {
    if s.len() == 0 {
        false
    } else if s[0] == '+' || s[0] == '-' {
        float_mantissa(s, 1, false, false)
    } else {
        float_mantissa(s, 0, false, false)
    }
}

fn float_exp_digits_chars(v: &Vec<char>, i: usize) -> (r: bool)
    requires
        i <= v@.len(),
    ensures
        r == float_exp_digits(v@, i as int),
{
    let n = v.len();
    if i >= n {
        return false;
    }
    let mut j: usize = i;
    while j < n
        invariant
            i <= j <= n == v@.len(),
            forall|k: int| i <= k < j ==> is_digit(v@[k]),
        decreases n - j,
    {
        if !digit_char(v[j]) {
            return false;
        }
        j = j + 1;
    }
    true
}

fn float_mantissa_chars(v: &Vec<char>, i: usize, has_digit: bool, has_dot: bool) -> (r: bool)
    requires
        i <= v@.len(),
    ensures
        r == float_mantissa(v@, i as int, has_digit, has_dot),
    decreases v@.len() - i,
{
    let n = v.len();
    if i == n {
        return has_digit;
    }
    let c = v[i];
    if digit_char(c) {
        float_mantissa_chars(v, i + 1, true, has_dot)
    } else if c == '.' {
        if has_dot {
            false
        } else {
            float_mantissa_chars(v, i + 1, has_digit, true)
        }
    } else if c == 'e' || c == 'E' {
        if !has_digit {
            false
        } else {
            if i + 1 < n && (v[i + 1] == '+' || v[i + 1] == '-') {
                float_exp_digits_chars(v, i + 2)
            } else {
                float_exp_digits_chars(v, i + 1)
            }
        }
    } else {
        false
    }
}

/// Decides whether a cell has the shape of a decimal float, per
/// [`is_float_str`].
pub fn is_float_chars(v: &Vec<char>) -> (r: bool)
    ensures
        r == is_float_str(v@),
{
    if v.len() == 0 {
        return false;
    }
    let c = v[0];
    if c == '+' || c == '-' {
        float_mantissa_chars(v, 1, false, false)
    } else {
        float_mantissa_chars(v, 0, false, false)
    }
}

/// Compares a character vector with a string slice.
pub fn chars_eq_str(v: &Vec<char>, s: &str) -> (r: bool)
    ensures
        r == (v@ == s@),
{
    let w = str_to_chars(s);
    let n = v.len();
    if n != w.len() {
        proof {
            assert(v@ != s@);
        }
        return false;
    }
    let mut i: usize = 0;
    while i < n
        invariant
            n == v@.len() == w@.len(),
            w@ == s@,
            0 <= i <= n,
            forall|k: int| 0 <= k < i ==> v@[k] == w@[k],
        decreases n - i,
    {
        if v[i] != w[i] {
            return false;
        }
        i = i + 1;
    }
    proof {
        assert(v@ =~= s@);
    }
    true
}

} // verus!
