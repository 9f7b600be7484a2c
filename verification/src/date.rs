//! Calendar dates: the `YYYY-MM-DD` rendering and its parser, with a proof
//! that rendering round-trips.

use vstd::prelude::*;
use crate::error::Error;
use crate::text::{
    all_digits, chars_of, digit_val_of, digits_val, first_idx, is_digit_char, lemma_digit_char_val,
    lemma_digits_val_prefix, lemma_digits_zero_prefix, lemma_first_idx_is, lemma_num_chars,
    lemma_num_chars_len, num_chars, push_num_chars, string_of,
};

verus! {

/// A calendar date.  The numeric ranges are the grammar's only validity
/// requirement; no real calendar rules are checked.
#[derive(Clone, Copy, Debug, PartialEq, Eq, Structural)]
pub struct Date {
    pub year: u16,
    pub month: u8,
    pub day: u8,
}

pub open spec fn date_valid(year: int, month: int, day: int) -> bool {
    0 <= year <= 9999 && 1 <= month <= 12 && 1 <= day <= 31
}

/// A run of `n` zero characters.
pub open spec fn zeroes(n: nat) -> Seq<char>
    decreases n,
{
    if n == 0 {
        Seq::empty()
    } else {
        zeroes((n - 1) as nat).push('0')
    }
}

/// The decimal digits of `v`, left-padded with zeroes to at least `w` places.
pub open spec fn padded_num(v: nat, w: nat) -> Seq<char> {
    if num_chars(v).len() >= w {
        num_chars(v)
    } else {
        zeroes((w - num_chars(v).len()) as nat) + num_chars(v)
    }
}

/// The `YYYY-MM-DD` rendering of a date.
pub open spec fn date_chars(d: Date) -> Seq<char> {
    padded_num(d.year as nat, 4) + seq!['-'] + padded_num(d.month as nat, 2) + seq!['-']
        + padded_num(d.day as nat, 2)
}

/// Is `s` a digit string denoting a number in `[lo, hi]`?
pub open spec fn num_in_range(s: Seq<char>, lo: int, hi: int) -> bool {
    s.len() > 0 && all_digits(s) && lo <= digits_val(s) <= hi
}

/// The date denoted by a token: the text up to the first dash is the year,
/// then up to the next dash the month, and the rest the day; each part must
/// be a digit string within the valid range.
pub open spec fn spec_parse_date(s: Seq<char>) -> Option<Date> {
    let i = first_idx(s, '-') as int;
    if i >= s.len() {
        None
    } else {
        let ypart = s.take(i);
        let rest = s.skip(i + 1);
        let j = first_idx(rest, '-') as int;
        if j >= rest.len() {
            None
        } else {
            let mpart = rest.take(j);
            let dpart = rest.skip(j + 1);
            if num_in_range(ypart, 0, 9999) && num_in_range(mpart, 1, 12) && num_in_range(
                dpart,
                1,
                31,
            ) {
                Some(
                    Date {
                        year: digits_val(ypart) as u16,
                        month: digits_val(mpart) as u8,
                        day: digits_val(dpart) as u8,
                    },
                )
            } else {
                None
            }
        }
    }
}

pub proof fn lemma_zeroes(n: nat)
    ensures
        zeroes(n).len() == n,
        forall|k: int| 0 <= k < n ==> zeroes(n)[k] == '0',
    decreases n,
{
    if n > 0 {
        lemma_zeroes((n - 1) as nat);
    }
}

/// Left-padding with zeroes changes neither digit-hood nor the value.
pub proof fn lemma_padded_num(v: nat, w: nat)
    ensures
        padded_num(v, w).len() >= w,
        padded_num(v, w).len() >= num_chars(v).len(),
        padded_num(v, w).len() == if num_chars(v).len() >= w {
            num_chars(v).len()
        } else {
            w
        },
        all_digits(padded_num(v, w)),
        digits_val(padded_num(v, w)) == v,
        padded_num(v, w).len() > 0,
{
    lemma_num_chars(v);
    if num_chars(v).len() >= w {
    } else {
        let z = (w - num_chars(v).len()) as nat;
        lemma_zeroes(z);
        lemma_padded_zero_step(z, num_chars(v));
        assert(all_digits(padded_num(v, w))) by {
            lemma_zeroes(z);
            assert forall|k: int| 0 <= k < padded_num(v, w).len() implies is_digit_char(
                padded_num(v, w)[k],
            ) by {
                if k < z {
                    assert(padded_num(v, w)[k] == '0');
                } else {
                    assert(padded_num(v, w)[k] == num_chars(v)[k - z]);
                }
            }
        }
    }
}

/// Prepending `n` zeroes to a digit string keeps its value.
proof fn lemma_padded_zero_step(n: nat, s: Seq<char>)
    ensures
        digits_val(zeroes(n) + s) == digits_val(s),
    decreases n,
{
    if n == 0 {
        assert(zeroes(0) + s =~= s);
    } else {
        assert(zeroes(n) =~= zeroes((n - 1) as nat).push('0'));
        assert(zeroes(n) + s =~= zeroes((n - 1) as nat) + (seq!['0'] + s));
        lemma_digits_zero_prefix(s);
        lemma_padded_zero_step((n - 1) as nat, seq!['0'] + s);
    }
}

impl Date {
    pub open spec fn wf(&self) -> bool {
        date_valid(self.year as int, self.month as int, self.day as int)
    }

    /// Builds a date, rejecting numbers outside the valid ranges.
    pub fn new(year: u16, month: u8, day: u8) -> (r: Result<Date, Error>)
        ensures
            r is Ok <==> date_valid(year as int, month as int, day as int),
            r is Ok ==> r->Ok_0 == (Date { year, month, day }),
    {
        if year <= 9999 && 1 <= month && month <= 12 && 1 <= day && day <= 31 {
            Ok(Date { year, month, day })
        } else {
            Err(Error::new("Invalid date"))
        }
    }

    /// Renders the date as zero-padded `YYYY-MM-DD`.
    pub fn format(&self) -> (r: String)
        ensures
            r@ == date_chars(*self),
    {
        let mut out: Vec<char> = Vec::new();
        push_padded(&mut out, self.year as u64, 4);
        out.push('-');
        push_padded(&mut out, self.month as u64, 2);
        out.push('-');
        push_padded(&mut out, self.day as u64, 2);
        assert(out@ =~= date_chars(*self));
        string_of(&out)
    }

    /// Parses a `year-month-day` token, if it is one.
    pub fn parse(s: &str) -> (r: Result<Date, Error>)
        ensures
            spec_parse_date(s@) matches Some(d) ==> r matches Ok(rd) && rd == d,
            spec_parse_date(s@) is None ==> r is Err,
    {
        let v = chars_of(s);
        let ghost sq = s@;
        let n = v.len();
        // First dash.
        let mut i: usize = 0;
        while i < n && v[i] != '-'
            invariant
                0 <= i <= n,
                n == v@.len(),
                v@ == sq,
                forall|k: int| 0 <= k < i ==> sq[k] != '-',
            decreases n - i,
        {
            i = i + 1;
        }
        proof {
            lemma_first_idx_is(sq, '-', i as int);
        }
        if i >= n {
            return Err(Error::new("Invalid date format"));
        }
        // Second dash.
        let mut j: usize = i + 1;
        while j < n && v[j] != '-'
            invariant
                i + 1 <= j <= n,
                n == v@.len(),
                v@ == sq,
                forall|k: int| i + 1 <= k < j ==> sq[k] != '-',
            decreases n - j,
        {
            j = j + 1;
        }
        let ghost rest = sq.skip(i + 1);
        proof {
            assert forall|k: int| 0 <= k < j - i - 1 implies rest[k] != '-' by {
                assert(rest[k] == sq[k + i + 1]);
            }
            if j < n {
                assert(rest[j - i - 1] == sq[j as int]);
            }
            lemma_first_idx_is(rest, '-', j - i - 1);
        }
        if j >= n {
            return Err(Error::new("Invalid date format"));
        }
        proof {
            assert(sq.take(i as int) =~= v@.subrange(0, i as int));
            assert(rest.take(j - i - 1) =~= v@.subrange(i + 1, j as int));
            assert(rest.skip(j - i - 1 + 1) =~= v@.subrange(j + 1, n as int));
        }
        let year = match parse_bounded_num(&v, 0, i, 0, 9999) {
            Some(y) => y,
            None => {
                return Err(Error::new("Invalid date format"));
            },
        };
        let month = match parse_bounded_num(&v, i + 1, j, 1, 12) {
            Some(m) => m,
            None => {
                return Err(Error::new("Invalid date format"));
            },
        };
        let day = match parse_bounded_num(&v, j + 1, n, 1, 31) {
            Some(d) => d,
            None => {
                return Err(Error::new("Invalid date format"));
            },
        };
        Ok(Date { year: year as u16, month: month as u8, day: day as u8 })
    }
}

/// Appends the digits of `v`, zero-padded to at least `w` places.
fn push_padded(out: &mut Vec<char>, v: u64, w: usize)
    ensures
        final(out)@ == old(out)@ + padded_num(v as nat, w as nat),
{
    let ghost base = out@;
    let mut tmp: Vec<char> = Vec::new();
    push_num_chars(&mut tmp, v);
    proof {
        lemma_num_chars(v as nat);
    }
    proof {
        assert(out@ =~= base + zeroes(0));
    }
    let mut z: usize = tmp.len();
    while z < w
        invariant
            out@ == base + zeroes((z - tmp@.len()) as nat),
            tmp@ == num_chars(v as nat),
            tmp@.len() <= z,
            z <= w || z == tmp@.len(),
        decreases w - z,
    {
        out.push('0');
        z = z + 1;
        assert(out@ =~= base + zeroes((z - tmp@.len()) as nat));
    }
    let ghost mid = out@;
    proof {
        assert(out@ =~= mid + tmp@.take(0));
    }
    let mut i: usize = 0;
    while i < tmp.len()
        invariant
            i <= tmp@.len(),
            out@ == mid + tmp@.take(i as int),
        decreases tmp@.len() - i,
    {
        out.push(tmp[i]);
        i = i + 1;
        assert(out@ =~= mid + tmp@.take(i as int));
    }
    proof {
        assert(tmp@.take(tmp@.len() as int) =~= tmp@);
        if num_chars(v as nat).len() >= w as nat {
            // No padding was added.
            assert(z == tmp@.len());
            assert(zeroes(0) =~= Seq::<char>::empty());
            assert(mid =~= base);
            assert(out@ =~= base + padded_num(v as nat, w as nat));
        } else {
            assert(z == w);
            assert(out@ =~= base + padded_num(v as nat, w as nat));
        }
    }
}

/// Reads `v[a..b]` as a decimal number, accepting it only when the range is a
/// nonempty digit string denoting a value in `[lo, hi]`.
fn parse_bounded_num(v: &Vec<char>, a: usize, b: usize, lo: u32, hi: u32) -> (r: Option<u32>)
    requires
        a <= b <= v@.len(),
        hi <= 100000,
    ensures
        r is Some <==> num_in_range(v@.subrange(a as int, b as int), lo as int, hi as int),
        r matches Some(x) ==> x == digits_val(v@.subrange(a as int, b as int)) && lo <= x <= hi,
{
    let ghost s = v@.subrange(a as int, b as int);
    if a == b {
        return None;
    }
    let mut acc: u32 = 0;
    let mut i: usize = a;
    while i < b
        invariant
            a <= i <= b <= v@.len(),
            s == v@.subrange(a as int, b as int),
            hi <= 100000,
            acc <= hi,
            all_digits(s.take(i - a)),
            acc == digits_val(s.take(i - a)),
        decreases b - i,
    {
        let d = digit_val_of(v[i]);
        proof {
            assert(s[i - a] == v@[i as int]);
        }
        if d >= 10 {
            // A non-digit: the whole range is rejected.
            assert(!all_digits(s));
            return None;
        }
        proof {
            assert(s.take(i - a + 1).drop_last() =~= s.take(i - a));
            assert(s.take(i - a + 1).last() == s[i - a]);
        }
        let next = acc * 10 + d;
        if next > hi {
            // The prefix already exceeds the bound, so the whole string does.
            proof {
                if all_digits(s) {
                    lemma_digits_val_prefix(s, i - a + 1);
                }
            }
            return None;
        }
        acc = next;
        i = i + 1;
    }
    proof {
        assert(s.take(b - a) =~= s);
    }
    if acc < lo {
        return None;
    }
    Some(acc)
}

/// A valid date renders to exactly ten characters, digits and dashes only.
pub proof fn lemma_date_chars_shape(d: Date)
    requires
        d.wf(),
    ensures
        date_chars(d).len() == 10,
        forall|k: int|
            0 <= k < 10 ==> (is_digit_char(#[trigger] date_chars(d)[k]) || date_chars(d)[k]
                == '-'),
{
    let y = padded_num(d.year as nat, 4);
    let m = padded_num(d.month as nat, 2);
    let dd = padded_num(d.day as nat, 2);
    lemma_padded_num(d.year as nat, 4);
    lemma_padded_num(d.month as nat, 2);
    lemma_padded_num(d.day as nat, 2);
    lemma_num_chars_len(d.year as nat);
    lemma_num_chars_len(d.month as nat);
    lemma_num_chars_len(d.day as nat);
    let s = date_chars(d);
    assert forall|k: int|
        0 <= k < 10 implies (is_digit_char(#[trigger] s[k]) || s[k] == '-') by {
        if k < 4 {
            assert(s[k] == y[k]);
        } else if k == 4 {
            assert(s[k] == '-');
        } else if k < 7 {
            assert(s[k] == m[k - 5]);
        } else if k == 7 {
            assert(s[k] == '-');
        } else {
            assert(s[k] == dd[k - 8]);
        }
    }
}

/// Rendering a valid date and parsing the text gives the date back.
pub proof fn lemma_date_round_trip(d: Date)
    requires
        d.wf(),
    ensures
        spec_parse_date(date_chars(d)) == Some(d),
{
    let y = padded_num(d.year as nat, 4);
    let m = padded_num(d.month as nat, 2);
    let dd = padded_num(d.day as nat, 2);
    let s = date_chars(d);
    lemma_padded_num(d.year as nat, 4);
    lemma_padded_num(d.month as nat, 2);
    lemma_padded_num(d.day as nat, 2);
    lemma_num_chars_len(d.year as nat);
    lemma_num_chars_len(d.month as nat);
    lemma_num_chars_len(d.day as nat);
    assert(y.len() == 4);
    assert(m.len() == 2);
    assert(dd.len() == 2);
    assert forall|k: int| 0 <= k < 4 implies s[k] != '-' by {
        assert(s[k] == y[k]);
        assert(is_digit_char(y[k]));
    }
    assert(s[4] == '-');
    lemma_first_idx_is(s, '-', 4);
    assert(s.take(4) =~= y);
    let rest = s.skip(5);
    assert(rest =~= m + seq!['-'] + dd);
    assert forall|k: int| 0 <= k < 2 implies rest[k] != '-' by {
        assert(rest[k] == m[k]);
        assert(is_digit_char(m[k]));
    }
    assert(rest[2] == '-');
    lemma_first_idx_is(rest, '-', 2);
    assert(rest.take(2) =~= m);
    assert(rest.skip(3) =~= dd);
}

} // verus!
