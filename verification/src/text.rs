//! Character classes and sequence helpers used by the lexer and the
//! evaluator.
//!
//! The query language is ASCII-oriented: letters, digits and whitespace are
//! the ASCII ones, and case folding folds only ASCII capitals.

use vstd::prelude::*;

verus! {

/// ASCII whitespace.
pub open spec fn is_space_char(c: char) -> bool {
    c == ' ' || c == '\t' || c == '\n' || c == '\r'
}

/// ASCII letter.
pub open spec fn is_letter_char(c: char) -> bool {
    (97 <= c as u32 && c as u32 <= 122) || (65 <= c as u32 && c as u32 <= 90)
}

/// ASCII decimal digit.
pub open spec fn is_digit_char(c: char) -> bool {
    48 <= c as u32 && c as u32 <= 57
}

/// Numeric value of an ASCII digit.
pub open spec fn digit_val(c: char) -> int {
    c as u32 - 48
}

/// ASCII lower-casing of one character; everything else is unchanged.
pub open spec fn lower_char(c: char) -> char {
    if 65 <= c as u32 && c as u32 <= 90 {
        ((c as u32 + 32) as u8) as char
    } else {
        c
    }
}

/// ASCII lower-casing of a whole sequence.
pub open spec fn to_lower(s: Seq<char>) -> Seq<char> {
    s.map_values(|c: char| lower_char(c))
}

/// `needle` occurs in `hay` starting at position `i`.
pub open spec fn is_substr_at(hay: Seq<char>, needle: Seq<char>, i: int) -> bool {
    0 <= i && i + needle.len() <= hay.len() && hay.subrange(i, i + needle.len()) == needle
}

/// `needle` occurs somewhere in `hay` (the empty needle always does).
pub open spec fn is_substr(hay: Seq<char>, needle: Seq<char>) -> bool {
    exists|i: int| is_substr_at(hay, needle, i)
}

/// Case-insensitive containment: `needle` occurs in `hay` after both are
/// lower-cased.
pub open spec fn contains_ci(hay: Seq<char>, needle: Seq<char>) -> bool {
    is_substr(to_lower(hay), to_lower(needle))
}

/// Strict lexicographic order on character sequences, by code point.
pub open spec fn seq_lt(a: Seq<char>, b: Seq<char>) -> bool
    decreases a.len(),
{
    if b.len() == 0 {
        false
    } else if a.len() == 0 {
        true
    } else if a[0] != b[0] {
        (a[0] as u32) < (b[0] as u32)
    } else {
        seq_lt(a.skip(1), b.skip(1))
    }
}

/// Value of a digit string read left to right, most significant digit first.
pub open spec fn digits_val(w: Seq<char>) -> int
    decreases w.len(),
{
    if w.len() == 0 {
        0
    } else {
        digits_val(w.take(w.len() - 1)) * 10 + digit_val(w[w.len() - 1])
    }
}

/// Ten to the `n`th power.
pub open spec fn pow10(n: nat) -> int
    decreases n,
{
    if n == 0 {
        1
    } else {
        10 * pow10((n - 1) as nat)
    }
}

/// Ten to a power is positive and monotone in the exponent.
pub proof fn lemma_pow10_mono(n: nat, m: nat)
    requires
        n <= m,
    ensures
        1 <= pow10(n) <= pow10(m),
    decreases m,
{
    if m > 0 {
        if n == m {
            lemma_pow10_mono((n - 1) as nat, (m - 1) as nat);
        } else {
            lemma_pow10_mono(n, (m - 1) as nat);
        }
    }
}

/// A digit string's value is bounded by ten to its length.
pub proof fn lemma_digits_val_bound(w: Seq<char>)
    requires
        all_digits(w),
    ensures
        0 <= digits_val(w) < pow10(w.len()),
    decreases w.len(),
{
    if w.len() > 0 {
        lemma_digits_val_bound(w.take(w.len() - 1));
    }
}

/// All characters of `w` are ASCII digits.
pub open spec fn all_digits(w: Seq<char>) -> bool {
    forall|i: int| 0 <= i < w.len() ==> is_digit_char(#[trigger] w[i])
}

/// First position at or after `i` where `c` occurs in `w`, or `w.len()`.
pub open spec fn find_from(w: Seq<char>, c: char, i: int) -> int
    decreases w.len() - i,
{
    if i < 0 || i >= w.len() {
        w.len() as int
    } else if w[i] == c {
        i
    } else {
        find_from(w, c, i + 1)
    }
}

/// A search that reaches the end passed over no occurrence.
pub proof fn lemma_find_from_cover(w: Seq<char>, c: char, i: int)
    requires
        0 <= i <= w.len(),
    ensures
        forall|k: int| i <= k < find_from(w, c, i) ==> w[k] != c,
    decreases w.len() - i,
{
    if i < w.len() && w[i] != c {
        lemma_find_from_cover(w, c, i + 1);
    }
}

/// `w` without its trailing `'0'` characters.
pub open spec fn trim_trailing_zeros(w: Seq<char>) -> Seq<char>
    decreases w.len(),
{
    if w.len() > 0 && w[w.len() - 1] == '0' {
        trim_trailing_zeros(w.take(w.len() - 1))
    } else {
        w
    }
}

/// If everything from `r` on is a `'0'` and the character before `r` (if
/// any) is not, then trimming trailing zeros keeps exactly the first `r`
/// characters.
pub proof fn lemma_trim_suffix(w: Seq<char>, r: int)
    requires
        0 <= r <= w.len(),
        forall|k: int| r <= k < w.len() ==> w[k] == '0',
        r > 0 ==> w[r - 1] != '0',
    ensures
        trim_trailing_zeros(w) == w.take(r),
    decreases w.len() - r,
{
    if r == w.len() {
        assert(w.take(r) =~= w);
    } else {
        assert(w.take(w.len() - 1).take(r) =~= w.take(r));
        lemma_trim_suffix(w.take(w.len() - 1), r);
    }
}

/// Reading more digits never shrinks the value.
pub proof fn lemma_digits_val_prefix(w: Seq<char>, i: int)
    requires
        all_digits(w),
        0 <= i <= w.len(),
    ensures
        digits_val(w) >= digits_val(w.take(i)),
    decreases w.len(),
{
    lemma_digits_val_bound(w);
    if i < w.len() {
        assert(w.take(w.len() - 1).take(i) =~= w.take(i));
        lemma_digits_val_bound(w.take(w.len() - 1));
        lemma_digits_val_prefix(w.take(w.len() - 1), i);
    } else {
        assert(w.take(i) =~= w);
    }
}

/// The last digit of a digit string is its value modulo ten.
pub proof fn lemma_digits_val_last(w: Seq<char>)
    requires
        all_digits(w),
        w.len() > 0,
    ensures
        digits_val(w) % 10 == digit_val(w[w.len() - 1]),
{
    lemma_digits_val_bound(w.take(w.len() - 1));
}

/// Executable ASCII lower-casing of one character.
pub fn lower_char_exec(c: char) -> (r: char)
    ensures
        r == lower_char(c),
{
    let u = c as u32;
    if 65 <= u && u <= 90 {
        ((u + 32) as u8) as char
    } else {
        c
    }
}

/// Executable whitespace test.
pub fn is_space_exec(c: char) -> (r: bool)
    ensures
        r == is_space_char(c),
{
    c == ' ' || c == '\t' || c == '\n' || c == '\r'
}

/// Executable letter test.
pub fn is_letter_exec(c: char) -> (r: bool)
    ensures
        r == is_letter_char(c),
{
    let u = c as u32;
    (97 <= u && u <= 122) || (65 <= u && u <= 90)
}

/// Executable digit test.
pub fn is_digit_exec(c: char) -> (r: bool)
    ensures
        r == is_digit_char(c),
{
    let u = c as u32;
    48 <= u && u <= 57
}

/// Ten to the `n`th, as a machine word.
#[verifier::loop_isolation(false)]
pub fn pow10_exec(n: u32) -> (r: u64)
    requires
        n <= 15,
    ensures
        r as int == pow10(n as nat),
        r <= 1000000000000000,
{
    let mut r: u64 = 1;
    let mut j: u32 = 0;
    while j < n
        invariant
            j <= n,
            r as int == pow10(j as nat),
            r <= 1000000000000000,
        decreases n - j,
    {
        proof {
            lemma_pow10_mono((j + 1) as nat, 15);
            assert(pow10(15) == 1000000000000000) by {
                reveal_with_fuel(pow10, 17);
            }
        }
        r = r * 10;
        j = j + 1;
    }
    r
}

/// Relies on char::to_string: the resulting string holds exactly the one
/// character it was given.
#[verifier::external_body]
pub fn char_to_string(c: char) -> (r: String)
    ensures
        r@ == seq![c],
{
    c.to_string()
}

/// The least index `r` in `[from, to]` such that everything from `r` to
/// `to` is the character `'0'`.
pub fn scan_back_zeros(s: &str, from: usize, to: usize) -> (r: usize)
    requires
        from <= to <= s@.len(),
    ensures
        from <= r <= to,
        forall|k: int| r <= k < to ==> s@[k] == '0',
        r > from ==> s@[r - 1] != '0',
{
    let mut e = to;
    loop
        invariant
            from <= e <= to <= s@.len(),
            forall|k: int| e <= k < to ==> s@[k] == '0',
        decreases e,
    {
        if e == from {
            return e;
        }
        let c = s.get_char(e - 1);
        if c != '0' {
            return e;
        }
        e = e - 1;
    }
}

/// Find the first occurrence of `c` in `s` at or after `i`.
pub fn find_char(s: &str, c: char, i: usize) -> (r: usize)
    requires
        i <= s@.len(),
    ensures
        r == find_from(s@, c, i as int),
        i <= r <= s@.len(),
{
    let len = s.unicode_len();
    let mut j = i;
    while j < len
        invariant
            i <= j <= len,
            len == s@.len(),
            find_from(s@, c, i as int) == find_from(s@, c, j as int),
        decreases len - j,
    {
        if s.get_char(j) == c {
            return j;
        }
        j = j + 1;
    }
    j
}

/// Character-for-character equality of two string slices.
pub fn str_eq(a: &str, b: &str) -> (r: bool)
    ensures
        r == (a@ == b@),
{
    let alen = a.unicode_len();
    let blen = b.unicode_len();
    if alen != blen {
        return false;
    }
    let mut i: usize = 0;
    while i < alen
        invariant
            alen == a@.len(),
            blen == b@.len(),
            alen == blen,
            0 <= i <= alen,
            forall|j: int| 0 <= j < i ==> a@[j] == b@[j],
        decreases alen - i,
    {
        if a.get_char(i) != b.get_char(i) {
            return false;
        }
        i = i + 1;
    }
    proof {
        assert(a@ =~= b@);
    }
    true
}

} // verus!
