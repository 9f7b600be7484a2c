//! Character classes, scanning primitives and digit arithmetic shared by the
//! record grammar: everything here is stated over `Seq<char>` so that the
//! other modules can describe strings exactly.

use vstd::prelude::*;

verus! {

// ---------------------------------------------------------------------------
// Character classes
// ---------------------------------------------------------------------------

/// Whitespace as the record grammar understands it: the characters with
/// Unicode's White_Space property.
pub open spec fn is_space_char(c: char) -> bool {
    c == ' ' || c == '\t' || c == '\n' || c == '\r' || c == '\u{b}' || c == '\u{c}' || c
        == '\u{85}' || c == '\u{a0}' || c == '\u{1680}' || (0x2000 <= c as u32 && c as u32
        <= 0x200a) || c == '\u{2028}' || c == '\u{2029}' || c == '\u{202f}' || c == '\u{205f}'
        || c == '\u{3000}'
}

/// Word characters: ASCII letters, digits and the underscore.  The full
/// Unicode word classes are out of scope here: a non-ASCII letter counts as
/// an ordinary tag-body character, not as part of a key.
pub open spec fn is_word_char(c: char) -> bool {
    (48 <= c as u32 && c as u32 <= 57) || (65 <= c as u32 && c as u32 <= 90) || (97 <= c as u32
        && c as u32 <= 122) || c == '_'
}

pub open spec fn is_digit_char(c: char) -> bool {
    48 <= c as u32 && c as u32 <= 57
}

pub open spec fn is_upper_char(c: char) -> bool {
    65 <= c as u32 && c as u32 <= 90
}

pub fn space_char(c: char) -> (r: bool)
    ensures
        r == is_space_char(c),
{
    let u = c as u32;
    c == ' ' || c == '\t' || c == '\n' || c == '\r' || c == '\u{b}' || c == '\u{c}' || c
        == '\u{85}' || c == '\u{a0}' || c == '\u{1680}' || (0x2000 <= u && u <= 0x200a) || c
        == '\u{2028}' || c == '\u{2029}' || c == '\u{202f}' || c == '\u{205f}' || c == '\u{3000}'
}

pub fn word_char(c: char) -> (r: bool)
    ensures
        r == is_word_char(c),
{
    let u = c as u32;
    (48 <= u && u <= 57) || (65 <= u && u <= 90) || (97 <= u && u <= 122) || c == '_'
}

pub fn digit_char_test(c: char) -> (r: bool)
    ensures
        r == is_digit_char(c),
{
    let u = c as u32;
    48 <= u && u <= 57
}

pub fn upper_char(c: char) -> (r: bool)
    ensures
        r == is_upper_char(c),
{
    let u = c as u32;
    65 <= u && u <= 90
}

// ---------------------------------------------------------------------------
// Scanning primitives: maximal runs and first occurrences
// ---------------------------------------------------------------------------

/// Length of the maximal leading run of non-space characters.
pub open spec fn token_len(s: Seq<char>) -> nat
    decreases s.len(),
{
    if s.len() == 0 || is_space_char(s[0]) {
        0
    } else {
        (1 + token_len(s.skip(1))) as nat
    }
}

/// Length of the maximal leading run of space characters.
pub open spec fn space_run(s: Seq<char>) -> nat
    decreases s.len(),
{
    if s.len() == 0 || !is_space_char(s[0]) {
        0
    } else {
        (1 + space_run(s.skip(1))) as nat
    }
}

/// Length of the maximal leading run of word characters.
pub open spec fn word_run(s: Seq<char>) -> nat
    decreases s.len(),
{
    if s.len() == 0 || !is_word_char(s[0]) {
        0
    } else {
        (1 + word_run(s.skip(1))) as nat
    }
}

/// One past the last word character of `s`, or `0` if `s` has none.
pub open spec fn last_word_end(s: Seq<char>) -> nat
    decreases s.len(),
{
    if s.len() == 0 {
        0
    } else if is_word_char(s[s.len() - 1]) {
        s.len()
    } else {
        last_word_end(s.drop_last())
    }
}

/// Index of the first occurrence of `c` in `s`, or `s.len()` if there is none.
pub open spec fn first_idx(s: Seq<char>, c: char) -> nat
    decreases s.len(),
{
    if s.len() == 0 {
        0
    } else if s[0] == c {
        0
    } else {
        (1 + first_idx(s.skip(1), c)) as nat
    }
}

pub proof fn lemma_token_len(s: Seq<char>)
    ensures
        token_len(s) <= s.len(),
        forall|k: int| 0 <= k < token_len(s) ==> !is_space_char(s[k]),
        token_len(s) < s.len() ==> is_space_char(s[token_len(s) as int]),
    decreases s.len(),
{
    if s.len() == 0 || is_space_char(s[0]) {
    } else {
        lemma_token_len(s.skip(1));
        assert forall|k: int| 0 <= k < token_len(s) implies !is_space_char(s[k]) by {
            if k > 0 {
                assert(s.skip(1)[k - 1] == s[k]);
            }
        }
        if token_len(s) < s.len() {
            assert(s.skip(1)[token_len(s) - 1] == s[token_len(s) as int]);
        }
    }
}

/// `token_len` is the unique cut obeying the run conditions.
pub proof fn lemma_token_len_is(s: Seq<char>, n: int)
    requires
        0 <= n <= s.len(),
        forall|k: int| 0 <= k < n ==> !is_space_char(s[k]),
        n < s.len() ==> is_space_char(s[n]),
    ensures
        token_len(s) == n,
    decreases s.len(),
{
    if n == 0 {
    } else {
        assert(!is_space_char(s[0]));
        assert forall|k: int| 0 <= k < n - 1 implies !is_space_char(s.skip(1)[k]) by {
            assert(s.skip(1)[k] == s[k + 1]);
        }
        if n - 1 < s.skip(1).len() {
            assert(s.skip(1)[n - 1] == s[n]);
        }
        lemma_token_len_is(s.skip(1), n - 1);
    }
}

pub proof fn lemma_word_run(s: Seq<char>)
    ensures
        word_run(s) <= s.len(),
        forall|k: int| 0 <= k < word_run(s) ==> is_word_char(s[k]),
        word_run(s) < s.len() ==> !is_word_char(s[word_run(s) as int]),
    decreases s.len(),
{
    if s.len() == 0 || !is_word_char(s[0]) {
    } else {
        lemma_word_run(s.skip(1));
        assert forall|k: int| 0 <= k < word_run(s) implies is_word_char(s[k]) by {
            if k > 0 {
                assert(s.skip(1)[k - 1] == s[k]);
            }
        }
        if word_run(s) < s.len() {
            assert(s.skip(1)[word_run(s) - 1] == s[word_run(s) as int]);
        }
    }
}

pub proof fn lemma_space_run_is(s: Seq<char>, n: int)
    requires
        0 <= n <= s.len(),
        forall|k: int| 0 <= k < n ==> is_space_char(s[k]),
        n < s.len() ==> !is_space_char(s[n]),
    ensures
        space_run(s) == n,
    decreases s.len(),
{
    if n == 0 {
    } else {
        assert(is_space_char(s[0]));
        assert forall|k: int| 0 <= k < n - 1 implies is_space_char(s.skip(1)[k]) by {
            assert(s.skip(1)[k] == s[k + 1]);
        }
        if n - 1 < s.skip(1).len() {
            assert(s.skip(1)[n - 1] == s[n]);
        }
        lemma_space_run_is(s.skip(1), n - 1);
    }
}

pub proof fn lemma_word_run_is(s: Seq<char>, n: int)
    requires
        0 <= n <= s.len(),
        forall|k: int| 0 <= k < n ==> is_word_char(s[k]),
        n < s.len() ==> !is_word_char(s[n]),
    ensures
        word_run(s) == n,
    decreases s.len(),
{
    if n == 0 {
    } else {
        assert(is_word_char(s[0]));
        assert forall|k: int| 0 <= k < n - 1 implies is_word_char(s.skip(1)[k]) by {
            assert(s.skip(1)[k] == s[k + 1]);
        }
        if n - 1 < s.skip(1).len() {
            assert(s.skip(1)[n - 1] == s[n]);
        }
        lemma_word_run_is(s.skip(1), n - 1);
    }
}

pub proof fn lemma_last_word_end_is(s: Seq<char>, e: int)
    requires
        0 <= e <= s.len(),
        e > 0 ==> is_word_char(s[e - 1]),
        forall|m: int| e <= m < s.len() ==> !is_word_char(s[m]),
    ensures
        last_word_end(s) == e,
    decreases s.len(),
{
    if s.len() == 0 {
    } else if e == s.len() {
    } else {
        assert(!is_word_char(s[s.len() - 1]));
        assert forall|m: int| e <= m < s.drop_last().len() implies !is_word_char(
            s.drop_last()[m],
        ) by {
            assert(s.drop_last()[m] == s[m]);
        }
        if e > 0 {
            assert(s.drop_last()[e - 1] == s[e - 1]);
        }
        lemma_last_word_end_is(s.drop_last(), e);
    }
}

pub proof fn lemma_first_idx_is(s: Seq<char>, c: char, n: int)
    requires
        0 <= n <= s.len(),
        forall|k: int| 0 <= k < n ==> s[k] != c,
        n < s.len() ==> s[n] == c,
    ensures
        first_idx(s, c) == n,
    decreases s.len(),
{
    if s.len() == 0 {
    } else if n == 0 && s[0] == c {
    } else {
        assert(s[0] != c);
        assert forall|k: int| 0 <= k < n - 1 implies s.skip(1)[k] != c by {
            assert(s.skip(1)[k] == s[k + 1]);
        }
        if n - 1 < s.skip(1).len() {
            assert(s.skip(1)[n - 1] == s[n]);
        }
        lemma_first_idx_is(s.skip(1), c, n - 1);
    }
}

// ---------------------------------------------------------------------------
// Decimal digits
// ---------------------------------------------------------------------------

pub open spec fn digit_char(d: nat) -> char {
    if d == 0 {
        '0'
    } else if d == 1 {
        '1'
    } else if d == 2 {
        '2'
    } else if d == 3 {
        '3'
    } else if d == 4 {
        '4'
    } else if d == 5 {
        '5'
    } else if d == 6 {
        '6'
    } else if d == 7 {
        '7'
    } else if d == 8 {
        '8'
    } else {
        '9'
    }
}

pub open spec fn digit_val(c: char) -> nat {
    if c == '0' {
        0
    } else if c == '1' {
        1
    } else if c == '2' {
        2
    } else if c == '3' {
        3
    } else if c == '4' {
        4
    } else if c == '5' {
        5
    } else if c == '6' {
        6
    } else if c == '7' {
        7
    } else if c == '8' {
        8
    } else if c == '9' {
        9
    } else {
        10
    }
}

/// The decimal digits of `v`, most significant first, without leading zeroes.
pub open spec fn num_chars(v: nat) -> Seq<char>
    decreases v,
{
    if v < 10 {
        seq![digit_char(v)]
    } else {
        num_chars(v / 10).push(digit_char(v % 10))
    }
}

/// The number denoted by a digit string (left fold over the characters).
pub open spec fn digits_val(s: Seq<char>) -> nat
    decreases s.len(),
{
    if s.len() == 0 {
        0
    } else {
        digits_val(s.drop_last()) * 10 + digit_val(s.last())
    }
}

pub open spec fn all_digits(s: Seq<char>) -> bool {
    forall|k: int| 0 <= k < s.len() ==> is_digit_char(s[k])
}

pub proof fn lemma_digit_char_val(d: nat)
    requires
        d < 10,
    ensures
        is_digit_char(digit_char(d)),
        digit_val(digit_char(d)) == d,
        !is_space_char(digit_char(d)),
        is_word_char(digit_char(d)),
        digit_char(d) != '-',
        digit_char(d) != ':',
        digit_char(d) != '@',
        digit_char(d) != '+',
{
}

pub proof fn lemma_num_chars(v: nat)
    ensures
        num_chars(v).len() >= 1,
        all_digits(num_chars(v)),
        digits_val(num_chars(v)) == v,
    decreases v,
{
    if v < 10 {
        lemma_digit_char_val(v);
        let s = num_chars(v);
        assert(s.drop_last() =~= Seq::<char>::empty());
        assert(digits_val(s) == digits_val(s.drop_last()) * 10 + digit_val(s.last()));
    } else {
        lemma_num_chars(v / 10);
        lemma_digit_char_val(v % 10);
        let s = num_chars(v);
        assert(s.drop_last() =~= num_chars(v / 10));
        assert(s.last() == digit_char(v % 10));
        assert(digits_val(s) == digits_val(s.drop_last()) * 10 + digit_val(s.last()));
        assert(digits_val(s.drop_last()) == v / 10);
        assert(digit_val(s.last()) == v % 10);
        assert(digits_val(s) == (v / 10) * 10 + (v % 10));
        assert(v == (v / 10) * 10 + (v % 10)) by (nonlinear_arith);
    }
}

/// How many digits a number has, for the bounds the date format relies on.
pub proof fn lemma_num_chars_len(v: nat)
    ensures
        v < 10 ==> num_chars(v).len() == 1,
        10 <= v < 100 ==> num_chars(v).len() == 2,
        100 <= v < 1000 ==> num_chars(v).len() == 3,
        1000 <= v < 10000 ==> num_chars(v).len() == 4,
        v < 100000 ==> num_chars(v).len() <= 5,
    decreases v,
{
    if v >= 10 {
        lemma_num_chars_len(v / 10);
    }
}

/// A leading zero does not change the denoted number.
pub proof fn lemma_digits_zero_prefix(s: Seq<char>)
    ensures
        digits_val(seq!['0'].add(s)) == digits_val(s),
    decreases s.len(),
{
    let z = seq!['0'].add(s);
    if s.len() == 0 {
        assert(z.drop_last() =~= Seq::<char>::empty());
        assert(z.last() == '0');
        assert(digits_val(z) == digits_val(z.drop_last()) * 10 + digit_val(z.last()));
    } else {
        assert(z.drop_last() =~= seq!['0'].add(s.drop_last()));
        lemma_digits_zero_prefix(s.drop_last());
        assert(z.last() == s.last());
        assert(digits_val(z) == digits_val(z.drop_last()) * 10 + digit_val(z.last()));
        assert(digits_val(s) == digits_val(s.drop_last()) * 10 + digit_val(s.last()));
    }
}

/// The denoted number only grows as more digits are appended.
pub proof fn lemma_digits_val_prefix(s: Seq<char>, k: int)
    requires
        0 <= k <= s.len(),
    ensures
        digits_val(s.take(k)) <= digits_val(s),
    decreases s.len() - k,
{
    if k == s.len() {
        assert(s.take(k) =~= s);
    } else {
        lemma_digits_val_prefix(s, k + 1);
        assert(s.take(k + 1).drop_last() =~= s.take(k));
        assert(digits_val(s.take(k + 1)) == digits_val(s.take(k)) * 10 + digit_val(
            s.take(k + 1).last(),
        ));
    }
}

// ---------------------------------------------------------------------------
// Executable helpers over characters and strings
// ---------------------------------------------------------------------------

/// Relies on std's `String::push`: it appends the given character to the end
/// of the string.
pub assume_specification [ String::push ](s: &mut String, c: char)
    ensures
        final(s)@ == old(s)@.push(c),
;

/// The characters of a string slice, as a vector.
pub fn chars_of(s: &str) -> (v: Vec<char>)
    ensures
        v@ == s@,
{
    let n = s.unicode_len();
    let mut v: Vec<char> = Vec::new();
    let mut i: usize = 0;
    while i < n
        invariant
            i <= n,
            n == s@.len(),
            v@ =~= s@.take(i as int),
        decreases n - i,
    {
        let c = s.get_char(i);
        v.push(c);
        i = i + 1;
        assert(v@ =~= s@.take(i as int));
    }
    assert(v@ =~= s@);
    v
}

/// The substring `v[a..b]`, as an owned string.
pub fn string_range(v: &Vec<char>, a: usize, b: usize) -> (r: String)
    requires
        a <= b <= v@.len(),
    ensures
        r@ == v@.subrange(a as int, b as int),
{
    let mut r = String::new();
    let mut i: usize = a;
    while i < b
        invariant
            a <= i <= b <= v@.len(),
            r@ =~= v@.subrange(a as int, i as int),
        decreases b - i,
    {
        r.push(v[i]);
        i = i + 1;
        assert(r@ =~= v@.subrange(a as int, i as int));
    }
    r
}

/// All the characters of `v`, as an owned string.
pub fn string_of(v: &Vec<char>) -> (r: String)
    ensures
        r@ == v@,
{
    let r = string_range(v, 0, v.len());
    assert(v@.subrange(0, v@.len() as int) =~= v@);
    r
}

/// Appends `v[a..b]` to `out`.
pub fn push_range(out: &mut Vec<char>, v: &Vec<char>, a: usize, b: usize)
    requires
        a <= b <= v@.len(),
    ensures
        final(out)@ == old(out)@ + v@.subrange(a as int, b as int),
{
    let ghost base = out@;
    let mut i: usize = a;
    proof {
        assert(out@ =~= base + v@.subrange(a as int, a as int));
    }
    while i < b
        invariant
            a <= i <= b <= v@.len(),
            out@ == base + v@.subrange(a as int, i as int),
        decreases b - i,
    {
        out.push(v[i]);
        i = i + 1;
        assert(out@ =~= base + v@.subrange(a as int, i as int));
    }
}

pub fn digit_of(d: u64) -> (c: char)
    requires
        d < 10,
    ensures
        c == digit_char(d as nat),
{
    if d == 0 {
        '0'
    } else if d == 1 {
        '1'
    } else if d == 2 {
        '2'
    } else if d == 3 {
        '3'
    } else if d == 4 {
        '4'
    } else if d == 5 {
        '5'
    } else if d == 6 {
        '6'
    } else if d == 7 {
        '7'
    } else if d == 8 {
        '8'
    } else {
        '9'
    }
}

/// The value of a digit character; `10` marks a non-digit.
pub fn digit_val_of(c: char) -> (d: u32)
    ensures
        d == digit_val(c),
        is_digit_char(c) <==> d < 10,
{
    if c == '0' {
        0
    } else if c == '1' {
        1
    } else if c == '2' {
        2
    } else if c == '3' {
        3
    } else if c == '4' {
        4
    } else if c == '5' {
        5
    } else if c == '6' {
        6
    } else if c == '7' {
        7
    } else if c == '8' {
        8
    } else if c == '9' {
        9
    } else {
        assert(!is_digit_char(c)) by {
            assert(c as u32 != 48 ==> c != '0');
        }
        10
    }
}

/// Appends the decimal digits of `v` to `out`.
pub fn push_num_chars(out: &mut Vec<char>, v: u64)
    ensures
        final(out)@ == old(out)@ + num_chars(v as nat),
    decreases v,
{
    if v < 10 {
        out.push(digit_of(v));
    } else {
        push_num_chars(out, v / 10);
        out.push(digit_of(v % 10));
    }
}

} // verus!
