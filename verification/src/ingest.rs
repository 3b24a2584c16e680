//! Ingestion: building batches from a stream of string rows by
//! per-column type inference, integer parsing, and encoding.

use vstd::prelude::*;

use crate::column::{Batch, ColData, Column, IntegerColumn, StringColumn};
use crate::val::RVal;

verus! {

/// Whether a character is a decimal digit.
pub open spec fn is_digit(c: char) -> bool {
    48 <= c as u32 <= 57
}

/// The value of a decimal digit.
pub open spec fn digit_val(c: char) -> int {
    c as u32 - 48
}

pub open spec fn all_digits(s: Seq<char>) -> bool {
    forall|i: int| 0 <= i < s.len() ==> is_digit(#[trigger] s[i])
}

/// The value of a run of digits.
pub open spec fn digits_val(s: Seq<char>) -> int
    decreases s.len(),
{
    if s.len() == 0 {
        0
    } else {
        digits_val(s.drop_last()) * 10 + digit_val(s.last())
    }
}

/// An optionally signed run of one or more digits.
pub open spec fn is_int_lit(s: Seq<char>) -> bool {
    if s.len() == 0 {
        false
    } else if s[0] == '-' || s[0] == '+' {
        s.len() > 1 && all_digits(s.skip(1))
    } else {
        all_digits(s)
    }
}

/// The mathematical value of an integer literal.
pub open spec fn int_lit_val(s: Seq<char>) -> int {
    if s.len() > 0 && s[0] == '-' {
        -digits_val(s.skip(1))
    } else if s.len() > 0 && s[0] == '+' {
        digits_val(s.skip(1))
    } else {
        digits_val(s)
    }
}

/// The position of the first dot, or the length when there is none.
pub open spec fn first_dot(t: Seq<char>) -> int
    decreases t.len(),
{
    if t.len() == 0 {
        0
    } else if t[0] == '.' {
        0
    } else {
        1 + first_dot(t.skip(1))
    }
}

/// The position of the first exponent marker, or the length.
pub open spec fn first_e(t: Seq<char>) -> int
    decreases t.len(),
{
    if t.len() == 0 {
        0
    } else if t[0] == 'e' || t[0] == 'E' {
        0
    } else {
        1 + first_e(t.skip(1))
    }
}

/// Whether `c` is the letter of code `l`, in either case (`l` is the
/// lowercase code).
pub open spec fn ci(c: char, l: u32) -> bool {
    c as u32 == l || c as u32 + 32 == l
}

/// The word `inf`, in any case.
pub open spec fn is_inf_word(t: Seq<char>) -> bool {
    t.len() == 3 && ci(t[0], 105) && ci(t[1], 110) && ci(t[2], 102)
}

/// The word `infinity`, in any case.
pub open spec fn is_infinity_word(t: Seq<char>) -> bool {
    &&& t.len() == 8
    &&& ci(t[0], 105)
    &&& ci(t[1], 110)
    &&& ci(t[2], 102)
    &&& ci(t[3], 105)
    &&& ci(t[4], 110)
    &&& ci(t[5], 105)
    &&& ci(t[6], 116)
    &&& ci(t[7], 121)
}

/// The word `nan`, in any case.
pub open spec fn is_nan_word(t: Seq<char>) -> bool {
    t.len() == 3 && ci(t[0], 110) && ci(t[1], 97) && ci(t[2], 110)
}

/// Digits with at most one dot and at least one digit: the mantissa of
/// a decimal number.
pub open spec fn is_mantissa(m: Seq<char>) -> bool {
    let d = first_dot(m);
    &&& all_digits(m.take(d))
    &&& (d == m.len() || all_digits(m.skip(d + 1)))
    &&& m.len() > (if d == m.len() {
        0int
    } else {
        1int
    })
}

/// An optionally signed decimal number as the standard float parser
/// accepts it: the words `inf`/`infinity`/`nan` in any case, or a
/// mantissa with an optional signed decimal exponent.
pub open spec fn is_num_lit(s: Seq<char>) -> bool {
    let t = if s.len() > 0 && (s[0] == '-' || s[0] == '+') {
        s.skip(1)
    } else {
        s
    };
    ||| is_inf_word(t)
    ||| is_infinity_word(t)
    ||| is_nan_word(t)
    ||| {
        let e = first_e(t);
        &&& is_mantissa(t.take(e))
        &&& (e == t.len() || is_int_lit(t.skip(e + 1)))
    }
}

/// Ten to the `k`.
pub open spec fn pow10(k: nat) -> int
    decreases k,
{
    if k == 0 {
        1
    } else {
        10 * pow10((k - 1) as nat)
    }
}

pub proof fn lemma_pow10_pos(k: nat)
    ensures
        pow10(k) >= 1,
    decreases k,
{
    if k > 0 {
        lemma_pow10_pos((k - 1) as nat);
    }
}

pub proof fn lemma_pow10_mono(a: nat, b: nat)
    requires
        a <= b,
    ensures
        pow10(a) <= pow10(b),
    decreases b,
{
    if a < b {
        lemma_pow10_mono(a, (b - 1) as nat);
        lemma_pow10_pos((b - 1) as nat);
    }
}

/// Ten to the nineteenth already leaves `i64`.
pub proof fn lemma_pow10_19()
    ensures
        pow10(19) > i64::MAX as int + 1,
{
    reveal_with_fuel(pow10, 20);
    assert(pow10(19) == 10_000_000_000_000_000_000);
}

/// A digit run's value is below ten to its length.
pub proof fn lemma_digits_bound(s: Seq<char>)
    requires
        all_digits(s),
    ensures
        0 <= digits_val(s) < pow10(s.len()),
    decreases s.len(),
{
    if s.len() == 0 {
    } else {
        assert(all_digits(s.drop_last())) by {
            assert(forall|i: int| 0 <= i < s.drop_last().len() ==> s.drop_last()[i] == s[i]);
        }
        lemma_digits_bound(s.drop_last());
        assert(is_digit(s.last()));
    }
}

/// Concatenated digit runs: the left part is shifted by the right
/// part's length.
pub proof fn lemma_digits_split(a: Seq<char>, b: Seq<char>)
    ensures
        digits_val(a + b) == digits_val(a) * pow10(b.len()) + digits_val(b),
    decreases b.len(),
{
    if b.len() == 0 {
        assert(a + b =~= a);
    } else {
        assert((a + b).drop_last() =~= a + b.drop_last());
        assert((a + b).last() == b.last());
        lemma_digits_split(a, b.drop_last());
        assert(digits_val(a + b) == (digits_val(a) * pow10((b.len() - 1) as nat) + digits_val(
            b.drop_last(),
        )) * 10 + digit_val(b.last()));
        assert(digits_val(a) * pow10((b.len() - 1) as nat) * 10 == digits_val(a) * pow10(
            b.len(),
        )) by (nonlinear_arith)
            requires
                pow10(b.len()) == 10 * pow10((b.len() - 1) as nat),
        ;
    }
}

/// Dividing a digit run's value by a power of ten drops that many
/// trailing digits.
pub proof fn lemma_digits_div(s: Seq<char>, j: nat)
    requires
        all_digits(s),
        j <= s.len(),
    ensures
        digits_val(s) / pow10(j) == digits_val(s.take(s.len() - j)),
{
    let a = s.take(s.len() - j);
    let b = s.skip(s.len() - j);
    assert(s =~= a + b);
    lemma_digits_split(a, b);
    assert(all_digits(b)) by {
        assert(forall|i: int| 0 <= i < b.len() ==> b[i] == s[s.len() - j + i]);
    }
    lemma_digits_bound(b);
    lemma_pow10_pos(j);
    assert((digits_val(a) * pow10(j) + digits_val(b)) / pow10(j) == digits_val(a))
        by (nonlinear_arith)
        requires
            pow10(j) >= 1,
            0 <= digits_val(b) < pow10(j),
    ;
}

/// Dividing by a power of ten past the digit count gives zero.
pub proof fn lemma_digits_div_big(s: Seq<char>, j: nat)
    requires
        all_digits(s),
        j > s.len(),
    ensures
        digits_val(s) / pow10(j) == 0,
{
    lemma_digits_bound(s);
    lemma_pow10_mono(s.len(), j);
    lemma_pow10_pos(j);
    assert(digits_val(s) / pow10(j) == 0) by (nonlinear_arith)
        requires
            0 <= digits_val(s) < pow10(j),
            pow10(j) >= 1,
    ;
}

/// `first_dot` is the first dot position.
pub proof fn lemma_first_dot(t: Seq<char>, p: int)
    requires
        0 <= p <= t.len(),
        forall|k: int| 0 <= k < p ==> t[k] != '.',
        p < t.len() ==> t[p] == '.',
    ensures
        first_dot(t) == p,
    decreases t.len(),
{
    if t.len() == 0 {
    } else if t[0] == '.' {
        assert(p == 0);
    } else {
        assert(p > 0);
        let r = t.skip(1);
        assert forall|k: int| 0 <= k < p - 1 implies r[k] != '.' by {
            assert(r[k] == t[k + 1]);
        }
        if p - 1 < r.len() {
            assert(r[p - 1] == t[p]);
        }
        lemma_first_dot(r, p - 1);
    }
}

/// When the first-dot position is inside the run, it holds a dot.
pub proof fn lemma_first_dot_hits(t: Seq<char>)
    ensures
        0 <= first_dot(t) <= t.len(),
        first_dot(t) < t.len() ==> t[first_dot(t)] == '.',
        forall|k: int| 0 <= k < first_dot(t) ==> t[k] != '.',
    decreases t.len(),
{
    if t.len() == 0 {
    } else if t[0] == '.' {
    } else {
        lemma_first_dot_hits(t.skip(1));
        assert forall|k: int| 0 <= k < first_dot(t) implies t[k] != '.' by {
            if k > 0 {
                assert(t.skip(1)[k - 1] == t[k]);
            }
        }
        if first_dot(t) < t.len() {
            assert(t.skip(1)[first_dot(t) - 1] == t[first_dot(t)]);
        }
    }
}

/// A run of digits is non-negative and never shrinks as it extends.
pub proof fn lemma_digits_mono(s: Seq<char>, j: int)
    requires
        0 <= j <= s.len(),
        all_digits(s),
    ensures
        digits_val(s) >= digits_val(s.take(j)) >= 0,
        digits_val(s.take(j)) >= 0,
    decreases s.len() - j,
{
    if j == s.len() {
        assert(s.take(j) =~= s);
        lemma_digits_nonneg(s);
    } else {
        lemma_digits_mono(s, j + 1);
        assert(s.take(j + 1).drop_last() =~= s.take(j));
        assert(all_digits(s.take(j))) by {
            assert(forall|i: int| 0 <= i < j ==> s.take(j)[i] == s[i]);
        }
        lemma_digits_nonneg(s.take(j));
        assert(digits_val(s.take(j + 1)) == digits_val(s.take(j)) * 10 + digit_val(s[j]));
        assert(is_digit(s[j]));
    }
}

pub proof fn lemma_digits_nonneg(s: Seq<char>)
    requires
        all_digits(s),
    ensures
        digits_val(s) >= 0,
    decreases s.len(),
{
    if s.len() > 0 {
        assert(all_digits(s.drop_last())) by {
            assert(forall|i: int| 0 <= i < s.len() - 1 ==> is_digit(#[trigger] s[i]));
            assert(forall|i: int|
                0 <= i < s.drop_last().len() ==> s.drop_last()[i] == s[i]);
        }
        lemma_digits_nonneg(s.drop_last());
    }
}

/// Parses an optionally signed decimal integer; `None` exactly when
/// the text is not an integer literal or its value leaves `i64`.
pub fn parse_int(s: &str) -> (r: Option<i64>)
    ensures
        r is Some <==> is_int_lit(s@) && i64::MIN <= int_lit_val(s@) <= i64::MAX,
        r matches Some(v) ==> v == int_lit_val(s@),
{
    let n = s.unicode_len();
    if n == 0 {
        return None;
    }
    let first = s.get_char(0);
    let (neg, start): (bool, usize) = if first == '-' {
        (true, 1)
    } else if first == '+' {
        (false, 1)
    } else {
        (false, 0)
    };
    if start == 1 && n == 1 {
        return None;
    }
    let ghost digs = s@.skip(start as int);
    proof {
        if start == 0 {
            assert(digs =~= s@);
        }
    }
    // accumulate negated to reach i64::MIN without overflow
    let mut acc: i64 = 0;
    let mut i: usize = start;
    while i < n
        invariant
            start <= i <= n,
            n == s@.len(),
            n > 0,
            start <= 1,
            (start == 1) == (s@[0] == '-' || s@[0] == '+'),
            neg == (s@[0] == '-'),
            start == 1 ==> n > 1,
            digs == s@.skip(start as int),
            acc <= 0,
            all_digits(s@.skip(start as int).take(i - start)),
            acc as int == -digits_val(digs.take(i - start)),
        decreases n - i,
    {
        let c = s.get_char(i);
        let cu = c as u32;
        if cu < 48 || cu > 57 {
            proof {
                assert(s@[i as int] == c);
                assert(digs[i - start] == c);
                assert(!is_digit(c));
                if is_int_lit(s@) {
                    if start == 1 {
                        assert(all_digits(s@.skip(1)));
                        assert(is_digit(digs[i - start]));
                    } else {
                        assert(all_digits(s@));
                        assert(is_digit(s@[i as int]));
                    }
                }
            }
            return None;
        }
        let d: i64 = (cu - 48) as i64;
        let acc10 = match acc.checked_mul(10) {
            Some(a) => a,
            None => {
                proof {
                    if start == 0 {
                        assert(digs =~= s@);
                    }
                    lemma_digits_overflow(digs, i - start, d as int);
                    if is_int_lit(s@) {
                        assert(all_digits(digs));
                        assert(int_lit_val(s@) == if neg {
                            -digits_val(digs)
                        } else {
                            digits_val(digs)
                        });
                    }
                }
                return None;
            },
        };
        let acc2 = match acc10.checked_sub(d) {
            Some(a) => a,
            None => {
                proof {
                    if start == 0 {
                        assert(digs =~= s@);
                    }
                    lemma_digits_overflow(digs, i - start, d as int);
                    if is_int_lit(s@) {
                        assert(all_digits(digs));
                        assert(int_lit_val(s@) == if neg {
                            -digits_val(digs)
                        } else {
                            digits_val(digs)
                        });
                    }
                }
                return None;
            },
        };
        acc = acc2;
        proof {
            assert(digs.take(i - start + 1).drop_last() =~= digs.take(i - start));
            assert(digs.take(i - start + 1).last() == digs[i - start]);
            assert(digit_val(digs[i - start]) == d as int);
            assert forall|k: int| 0 <= k < i - start + 1 implies is_digit(
                #[trigger] s@.skip(start as int).take(i - start + 1)[k],
            ) by {
                if k < i - start {
                    assert(is_digit(s@.skip(start as int).take((i - start) as int)[k]));
                }
            }
        }
        i += 1;
    }
    proof {
        assert(digs.take(n - start) =~= digs);
        if start == 1 {
            assert(s@[0] == first);
        }
        assert(is_int_lit(s@));
    }
    if neg {
        Some(acc)
    } else {
        if acc == i64::MIN {
            proof {
                assert(int_lit_val(s@) == -(acc as int));
            }
            return None;
        }
        Some(-acc)
    }
}

/// Once a digit prefix with one more digit leaves `i64`, the whole
/// literal's value leaves `i64` in either sign.
proof fn lemma_digits_overflow(digs: Seq<char>, j: int, d: int)
    requires
        0 <= j < digs.len(),
        d == digit_val(digs[j]),
        digits_val(digs.take(j)) * 10 + d > i64::MAX as int + 1,
    ensures
        all_digits(digs) ==> digits_val(digs) > i64::MAX as int + 1,
{
    if all_digits(digs) {
        assert(digs.take(j + 1).drop_last() =~= digs.take(j));
        assert(digs.take(j + 1).last() == digs[j]);
        assert(digits_val(digs.take(j + 1)) == digits_val(digs.take(j)) * 10 + d);
        lemma_digits_mono(digs, j + 1);
    }
}

/// The union type of the cells seen so far in one column.
#[derive(Clone, Copy, PartialEq, Eq, Structural, Debug)]
pub struct ColType {
    pub contains_string: bool,
    pub contains_int: bool,
    pub contains_null: bool,
}

impl ColType {
    pub fn new(has_string: bool, has_int: bool, has_null: bool) -> (r: ColType)
        ensures
            r == (ColType {
                contains_string: has_string,
                contains_int: has_int,
                contains_null: has_null,
            }),
    {
        ColType { contains_string: has_string, contains_int: has_int, contains_null: has_null }
    }

    pub fn string() -> (r: ColType)
        ensures
            r == (ColType { contains_string: true, contains_int: false, contains_null: false }),
    {
        ColType::new(true, false, false)
    }

    pub fn integer() -> (r: ColType)
        ensures
            r == (ColType { contains_string: false, contains_int: true, contains_null: false }),
    {
        ColType::new(false, true, false)
    }

    pub fn null() -> (r: ColType)
        ensures
            r == (ColType { contains_string: false, contains_int: false, contains_null: true }),
    {
        ColType::new(false, false, true)
    }

    pub fn nothing() -> (r: ColType)
        ensures
            r == (ColType { contains_string: false, contains_int: false, contains_null: false }),
    {
        ColType::new(false, false, false)
    }

    /// The type one cell contributes: empty is null, a number is an
    /// integer, anything else a string.
    pub fn determine(s: &str) -> (r: ColType)
        ensures
            r == spec_determine(s@),
    {
        if s.unicode_len() == 0 {
            ColType::null()
        } else if is_numeric(s) {
            ColType::integer()
        } else {
            ColType::string()
        }
    }

    /// The pointwise union of two cell types.
    pub fn bitor(self, rhs: ColType) -> (r: ColType)
        ensures
            r == spec_or(self, rhs),
    {
        ColType {
            contains_string: self.contains_string || rhs.contains_string,
            contains_int: self.contains_int || rhs.contains_int,
            contains_null: self.contains_null || rhs.contains_null,
        }
    }
}

pub open spec fn spec_determine(s: Seq<char>) -> ColType {
    if s.len() == 0 {
        ColType { contains_string: false, contains_int: false, contains_null: true }
    } else if is_num_lit(s) {
        ColType { contains_string: false, contains_int: true, contains_null: false }
    } else {
        ColType { contains_string: true, contains_int: false, contains_null: false }
    }
}

pub open spec fn spec_or(a: ColType, b: ColType) -> ColType {
    ColType {
        contains_string: a.contains_string || b.contains_string,
        contains_int: a.contains_int || b.contains_int,
        contains_null: a.contains_null || b.contains_null,
    }
}

/// Whether `c` is the letter of lowercase code `l`, in either case.
fn ci_eq(c: char, l: u32) -> (r: bool)
    ensures
        r == ci(c, l),
{
    let cu = c as u32;
    cu == l || cu + 32 == l
}

/// Whether the range `[start, end)` of `s` is a mantissa: digits with
/// at most one dot and at least one digit.
fn scan_mantissa(s: &str, start: usize, end: usize) -> (r: bool)
    requires
        start <= end <= s@.len(),
    ensures
        r == is_mantissa(s@.subrange(start as int, end as int)),
{
    let ghost m = s@.subrange(start as int, end as int);
    if start == end {
        proof {
            assert(first_dot(m) == 0);
        }
        return false;
    }
    let mut i: usize = start;
    while i < end
        invariant
            start <= i <= end,
            start < end <= s@.len(),
            m == s@.subrange(start as int, end as int),
            m.len() == end - start,
            all_digits(m.take(i - start)),
            forall|k: int| 0 <= k < i - start ==> m[k] != '.',
        decreases end - i,
    {
        let c = s.get_char(i);
        let cu = c as u32;
        proof {
            assert(m[i - start] == c);
        }
        if c == '.' {
            proof {
                lemma_first_dot(m, i - start);
            }
            // every remaining character must be a digit
            let dot = i;
            let mut j: usize = i + 1;
            while j < end
                invariant
                    dot < j <= end,
                    dot == i,
                    start <= i < end <= s@.len(),
                    m == s@.subrange(start as int, end as int),
                    m.len() == end - start,
                    m[i - start] == '.',
                    first_dot(m) == i - start,
                    all_digits(m.take(i - start)),
                    all_digits(m.skip(i - start + 1).take(j - i - 1)),
                decreases end - j,
            {
                let c2 = s.get_char(j);
                let cu2 = c2 as u32;
                proof {
                    assert(m[j - start] == c2);
                    assert(m.skip(i - start + 1)[j - i - 1] == m[j - start]);
                }
                if cu2 < 48 || cu2 > 57 {
                    proof {
                        assert(!is_digit(m.skip(i - start + 1)[j - i - 1]));
                        assert(first_dot(m) != m.len());
                        assert(!is_mantissa(m));
                    }
                    return false;
                }
                proof {
                    assert(m.skip(i - start + 1).take(j - i).drop_last() =~= m.skip(
                        i - start + 1,
                    ).take(j - i - 1));
                    assert(m.skip(i - start + 1).take(j - i).last() == m.skip(
                        i - start + 1,
                    )[j - i - 1]);
                    assert(is_digit(c2));
                }
                j += 1;
            }
            // a lone dot is not a number
            if i == start && i + 1 == end {
                proof {
                    assert(m.len() == 1);
                    assert(first_dot(m) == 0);
                }
                return false;
            }
            proof {
                let d = (i - start) as int;
                assert(m.skip(d + 1) =~= m.skip(i - start + 1).take(end - i - 1));
                assert(all_digits(m.take(d)));
                assert(m.len() > 1);
                assert(is_mantissa(m));
            }
            return true;
        }
        if cu < 48 || cu > 57 {
            proof {
                if is_mantissa(m) {
                    let d = first_dot(m);
                    lemma_first_dot_hits(m);
                    if d <= i - start {
                        if d < m.len() {
                            assert(m[d] == '.');
                        } else {
                            assert(all_digits(m.take(d)));
                            assert(m.take(d) =~= m);
                            assert(is_digit(m[(i - start) as int]));
                        }
                    } else {
                        assert(all_digits(m.take(d)));
                        assert(is_digit(m.take(d)[(i - start) as int]));
                    }
                }
            }
            return false;
        }
        proof {
            assert(m.take(i - start + 1).drop_last() =~= m.take(i - start));
            assert(m.take(i - start + 1).last() == m[i - start]);
            assert(is_digit(c));
        }
        i += 1;
    }
    proof {
        lemma_first_dot(m, m.len() as int);
        assert(m.take(m.len() as int) =~= m);
        assert(m.len() > 0);
        assert(is_mantissa(m));
    }
    true
}

/// Whether the range `[start, end)` of `s` is an optionally signed
/// run of one or more digits.
fn scan_exp(s: &str, start: usize, end: usize) -> (r: bool)
    requires
        start <= end <= s@.len(),
    ensures
        r == is_int_lit(s@.subrange(start as int, end as int)),
{
    let ghost x = s@.subrange(start as int, end as int);
    if start == end {
        return false;
    }
    let c0 = s.get_char(start);
    proof {
        assert(x[0] == c0);
    }
    let dstart: usize = if c0 == '-' || c0 == '+' {
        start + 1
    } else {
        start
    };
    if dstart == end {
        return false;
    }
    let mut i: usize = dstart;
    while i < end
        invariant
            dstart <= i <= end,
            start <= dstart <= start + 1,
            dstart < end <= s@.len(),
            x == s@.subrange(start as int, end as int),
            x.len() == end - start,
            x[0] == s@[start as int],
            (dstart == start + 1) == (x[0] == '-' || x[0] == '+'),
            all_digits(x.skip(dstart - start).take(i - dstart)),
        decreases end - i,
    {
        let c = s.get_char(i);
        let cu = c as u32;
        proof {
            assert(x[i - start] == c);
            assert(x.skip(dstart - start)[i - dstart] == x[i - start]);
        }
        if cu < 48 || cu > 57 {
            proof {
                assert(!is_digit(x.skip(dstart - start)[i - dstart]));
                if is_int_lit(x) {
                    if dstart == start + 1 {
                        assert(all_digits(x.skip(1)));
                        assert(is_digit(x.skip(1)[i - dstart]));
                    } else {
                        assert(all_digits(x));
                        assert(x.skip(0) =~= x);
                        assert(is_digit(x[i - start]));
                    }
                }
            }
            return false;
        }
        proof {
            let d0 = (dstart - start) as int;
            assert(x.skip(d0).take(i - dstart + 1).drop_last() =~= x.skip(d0).take(i - dstart));
            assert(x.skip(d0).take(i - dstart + 1).last() == x.skip(d0)[i - dstart]);
            assert(is_digit(c));
        }
        i += 1;
    }
    proof {
        let d0 = (dstart - start) as int;
        assert(x.skip(d0).take(end - dstart) =~= x.skip(d0));
        if dstart == start {
            assert(x.skip(0) =~= x);
        }
        assert(is_int_lit(x));
    }
    true
}

/// Whether the text is a decimal number as the standard float parser
/// accepts it.
pub fn is_numeric(s: &str) -> (r: bool)
    ensures
        r == is_num_lit(s@),
{
    let n = s.unicode_len();
    let start: usize = if n > 0 {
        let c = s.get_char(0);
        if c == '-' || c == '+' {
            1
        } else {
            0
        }
    } else {
        0
    };
    let ghost t = if s@.len() > 0 && (s@[0] == '-' || s@[0] == '+') {
        s@.skip(1)
    } else {
        s@
    };
    proof {
        if start == 0 {
            assert(t =~= s@);
        }
        assert(t =~= s@.subrange(start as int, n as int));
    }
    if n == start {
        proof {
            assert(t.len() == 0);
            assert(first_e(t) == 0);
            assert(first_dot(t.take(0)) == 0);
        }
        return false;
    }
    let c0 = s.get_char(start);
    proof {
        assert(t[0] == c0);
    }
    // the word forms start with i or n; a mantissa cannot
    if ci_eq(c0, 105) || ci_eq(c0, 110) {
        proof {
            lemma_first_e_hits(t);
            let e = first_e(t);
            let m = t.take(e);
            if is_mantissa(m) {
                let d = first_dot(m);
                lemma_first_dot_hits(m);
                assert(m.len() > 0);
                assert(m[0] == t[0]);
                if d == 0 {
                    assert(d < m.len());
                    assert(m[0] == '.');
                } else {
                    assert(all_digits(m.take(d)));
                    assert(is_digit(m.take(d)[0]));
                }
                assert(false);
            }
        }
        let len = n - start;
        if len == 3 {
            let c1 = s.get_char(start + 1);
            let c2 = s.get_char(start + 2);
            proof {
                assert(t[1] == c1);
                assert(t[2] == c2);
            }
            return (ci_eq(c0, 105) && ci_eq(c1, 110) && ci_eq(c2, 102)) || (ci_eq(c0, 110)
                && ci_eq(c1, 97) && ci_eq(c2, 110));
        }
        if len == 8 {
            let c1 = s.get_char(start + 1);
            let c2 = s.get_char(start + 2);
            let c3 = s.get_char(start + 3);
            let c4 = s.get_char(start + 4);
            let c5 = s.get_char(start + 5);
            let c6 = s.get_char(start + 6);
            let c7 = s.get_char(start + 7);
            proof {
                assert(t[1] == c1);
                assert(t[2] == c2);
                assert(t[3] == c3);
                assert(t[4] == c4);
                assert(t[5] == c5);
                assert(t[6] == c6);
                assert(t[7] == c7);
            }
            return ci_eq(c0, 105) && ci_eq(c1, 110) && ci_eq(c2, 102) && ci_eq(c3, 105) && ci_eq(
                c4,
                110,
            ) && ci_eq(c5, 105) && ci_eq(c6, 116) && ci_eq(c7, 121);
        }
        return false;
    }
    proof {
        // the words are refuted by their first character
        assert(!ci(t[0], 105) && !ci(t[0], 110));
    }
    // find the exponent marker, then check mantissa and exponent
    let mut ep = start;
    let mut founde = false;
    while ep < n && !founde
        invariant
            start <= ep <= n,
            n == s@.len(),
            start <= 1,
            t == s@.subrange(start as int, n as int),
            t.len() == n - start,
            founde ==> ep < n && (t[ep - start] == 'e' || t[ep - start] == 'E'),
            forall|k: int| 0 <= k < ep - start ==> t[k] != 'e' && t[k] != 'E',
        decreases n - ep + (if founde {
            0int
        } else {
            1int
        }),
    {
        let c = s.get_char(ep);
        proof {
            assert(t[ep - start] == c);
        }
        if c == 'e' || c == 'E' {
            founde = true;
        } else {
            ep += 1;
        }
    }
    proof {
        lemma_first_e(t, ep - start);
        assert(t.take(ep - start) =~= s@.subrange(start as int, ep as int));
    }
    let mant_ok = scan_mantissa(s, start, ep);
    if !mant_ok {
        return false;
    }
    if ep < n {
        proof {
            assert(t.skip(ep - start + 1) =~= s@.subrange(ep as int + 1, n as int));
        }
        let exp_ok = scan_exp(s, ep + 1, n);
        return exp_ok;
    }
    true
}

/// `first_e` is the first exponent-marker position./// `first_e` is the first exponent-marker position.
pub proof fn lemma_first_e(t: Seq<char>, p: int)
    requires
        0 <= p <= t.len(),
        forall|k: int| 0 <= k < p ==> t[k] != 'e' && t[k] != 'E',
        p < t.len() ==> (t[p] == 'e' || t[p] == 'E'),
    ensures
        first_e(t) == p,
    decreases t.len(),
{
    if t.len() == 0 {
    } else if t[0] == 'e' || t[0] == 'E' {
        assert(p == 0);
    } else {
        assert(p > 0);
        let r = t.skip(1);
        assert forall|k: int| 0 <= k < p - 1 implies r[k] != 'e' && r[k] != 'E' by {
            assert(r[k] == t[k + 1]);
        }
        if p - 1 < r.len() {
            assert(r[p - 1] == t[p]);
        }
        lemma_first_e(r, p - 1);
    }
}

/// When the first-marker position is inside the run, it holds one.
pub proof fn lemma_first_e_hits(t: Seq<char>)
    ensures
        0 <= first_e(t) <= t.len(),
        first_e(t) < t.len() ==> (t[first_e(t)] == 'e' || t[first_e(t)] == 'E'),
        forall|k: int| 0 <= k < first_e(t) ==> t[k] != 'e' && t[k] != 'E',
    decreases t.len(),
{
    if t.len() == 0 {
    } else if t[0] == 'e' || t[0] == 'E' {
    } else {
        lemma_first_e_hits(t.skip(1));
        assert forall|k: int| 0 <= k < first_e(t) implies t[k] != 'e' && t[k] != 'E' by {
            if k > 0 {
                assert(t.skip(1)[k - 1] == t[k]);
            }
        }
        if first_e(t) < t.len() {
            assert(t.skip(1)[first_e(t) - 1] == t[first_e(t)]);
        }
    }
}

/// The mantissa's digits with the dot removed, and the count of
/// digits after the dot.
pub open spec fn mant_digits(m: Seq<char>) -> Seq<char> {
    let d = first_dot(m);
    if d == m.len() {
        m
    } else {
        m.take(d) + m.skip(d + 1)
    }
}

pub open spec fn frac_len(m: Seq<char>) -> int {
    let d = first_dot(m);
    if d == m.len() {
        0
    } else {
        m.len() - d - 1
    }
}

/// The truncated-toward-zero integer value of a decimal number,
/// clamped into `i64`: the special words saturate (or give 0 for
/// `nan`); otherwise the mantissa's digits are shifted by the exponent
/// less the fractional digit count and the fraction is cut off.
pub open spec fn num_trunc_val(s: Seq<char>) -> int {
    let neg = s.len() > 0 && s[0] == '-';
    let t = if s.len() > 0 && (s[0] == '-' || s[0] == '+') {
        s.skip(1)
    } else {
        s
    };
    if is_nan_word(t) {
        0
    } else if is_inf_word(t) || is_infinity_word(t) {
        if neg {
            i64::MIN as int
        } else {
            i64::MAX as int
        }
    } else {
        mant_trunc_val(t, neg)
    }
}

/// The truncated, clamped value of a mantissa with an optional
/// exponent, under a sign.
pub open spec fn mant_trunc_val(t: Seq<char>, neg: bool) -> int {
    let e = first_e(t);
    let m = t.take(e);
    let k = if e == t.len() {
        0int
    } else {
        int_lit_val(t.skip(e + 1))
    };
    let shift = k - frac_len(m);
    let raw = if shift >= 0 {
        digits_val(mant_digits(m)) * pow10(shift as nat)
    } else {
        digits_val(mant_digits(m)) / pow10((-shift) as nat)
    };
    let sv = if neg {
        -raw
    } else {
        raw
    };
    if sv > i64::MAX {
        i64::MAX as int
    } else if sv < i64::MIN {
        i64::MIN as int
    } else {
        sv
    }
}

/// The integer a cell contributes to an integer column: empty is 0, an
/// in-range integer literal keeps its value, any other number is
/// truncated and clamped.
pub open spec fn int_cell_val(s: Seq<char>) -> int {
    if s.len() == 0 {
        0
    } else if is_int_lit(s) && i64::MIN <= int_lit_val(s) <= i64::MAX {
        int_lit_val(s)
    } else {
        num_trunc_val(s)
    }
}

/// The mantissa's digits are digits.
proof fn lemma_mant_digits_ok(m: Seq<char>)
    requires
        is_mantissa(m),
    ensures
        all_digits(mant_digits(m)),
        mant_digits(m).len() == m.len() - (if first_dot(m) == m.len() {
            0int
        } else {
            1int
        }),
        frac_len(m) >= 0,
{
    let d = first_dot(m);
    lemma_first_dot_hits(m);
    if d == m.len() {
        assert(m.take(d) =~= m);
    } else {
        let md = m.take(d) + m.skip(d + 1);
        assert(all_digits(m.skip(d + 1)));
        assert forall|i: int| 0 <= i < md.len() implies is_digit(#[trigger] md[i]) by {
            if i < d {
                assert(md[i] == m.take(d)[i]);
                assert(is_digit(m.take(d)[i]));
            } else {
                assert(md[i] == m.skip(d + 1)[i - d]);
                assert(is_digit(m.skip(d + 1)[i - d]));
            }
        }
    }
}

/// A nonnegative value only grows under a power of ten.
proof fn lemma_mul_pow_ge(v: int, k: nat)
    requires
        v >= 0,
    ensures
        v * pow10(k) >= v,
{
    lemma_pow10_pos(k);
    assert(v * pow10(k) >= v * 1) by (nonlinear_arith)
        requires
            v >= 0,
            pow10(k) >= 1,
    ;
}

/// A nonnegative value grows with the power's exponent.
proof fn lemma_mul_pow_mono(v: int, a: nat, b: nat)
    requires
        v >= 0,
        a <= b,
    ensures
        v * pow10(a) <= v * pow10(b),
{
    lemma_pow10_mono(a, b);
    assert(v * pow10(a) <= v * pow10(b)) by (nonlinear_arith)
        requires
            v >= 0,
            pow10(a) <= pow10(b),
    ;
}

/// A positive value shifted by at least 39 digits leaves `i64`.
proof fn lemma_sat_39(v: int, k: nat)
    requires
        v >= 1,
        k >= 39,
    ensures
        v * pow10(k) > i64::MAX as int + 1,
{
    lemma_pow10_19();
    lemma_pow10_mono(19, k);
    assert(v * pow10(k) >= pow10(k)) by (nonlinear_arith)
        requires
            v >= 1,
            pow10(k) >= 1,
    ;
}

/// Ties the digit-accumulation outcome to the specified raw value of
/// a shifted mantissa.
proof fn lemma_trunc_cases(
    md: Seq<char>,
    kval: int,
    flen: int,
    keep: int,
    shift: int,
    shift_true: int,
    sat: bool,
    accv: int,
    cap: int,
)
    requires
        all_digits(md),
        flen >= 0,
        shift_true == kval - flen,
        cap == 1_000_000_000_000_000_000_000_000_000_000,
        md.len() < 1_000_000_000_000_000_000_000,
        flen < 1_000_000_000_000_000_000_000,
        // the exec shift is the true shift, saturated at the cap
        shift == (if kval >= 0 {
            if kval <= cap {
                kval
            } else {
                cap
            }
        } else {
            if -kval <= cap {
                kval
            } else {
                -cap
            }
        }) - flen,
        keep == if shift >= 0 {
            md.len() as int
        } else if md.len() + shift <= 0 {
            0int
        } else {
            md.len() + shift
        },
        0 <= accv <= i64::MAX as int + 1,
        !sat && shift <= 0 ==> accv == digits_val(md.take(keep)),
        !sat && shift > 0 ==> accv == digits_val(md.take(keep)) * pow10(shift as nat) || (
        digits_val(md.take(keep)) == 0 && accv == 0),
        sat ==> digits_val(md.take(keep)) > i64::MAX as int + 1 || (shift > 0 && digits_val(
            md.take(keep),
        ) * pow10(shift as nat) > i64::MAX as int + 1),
    ensures
        ({
            let raw = if shift_true >= 0 {
                digits_val(md) * pow10(shift_true as nat)
            } else {
                digits_val(md) / pow10((-shift_true) as nat)
            };
            &&& (!sat ==> accv == raw)
            &&& (sat ==> raw > i64::MAX as int + 1)
        }),
{
    lemma_digits_nonneg(md);
    let v0 = digits_val(md.take(keep));
    assert(all_digits(md.take(keep))) by {
        assert(forall|j: int| 0 <= j < keep ==> md.take(keep)[j] == md[j]);
    }
    lemma_digits_nonneg(md.take(keep));
    let raw = if shift_true >= 0 {
        digits_val(md) * pow10(shift_true as nat)
    } else {
        digits_val(md) / pow10((-shift_true) as nat)
    };
    if -cap <= kval <= cap {
        assert(shift == shift_true);
        if shift >= 0 {
            assert(keep == md.len());
            assert(md.take(keep) =~= md);
            if shift == 0 {
                assert(raw == v0) by (nonlinear_arith)
                    requires
                        raw == v0 * pow10(0),
                        pow10(0) == 1,
                ;
                assert(!sat ==> accv == raw || (v0 == 0 && accv == 0));
            } else {
                assert(raw == v0 * pow10(shift as nat));
                if !sat && v0 == 0 {
                    assert(raw == 0) by (nonlinear_arith)
                        requires
                            raw == v0 * pow10(shift as nat),
                            v0 == 0,
                    ;
                }
                if sat && v0 > i64::MAX as int + 1 {
                    lemma_mul_pow_ge(v0, shift as nat);
                }
            }
        } else {
            let j = (-shift_true) as nat;
            if j <= md.len() {
                lemma_digits_div(md, j);
                assert(keep == md.len() - j);
                assert(raw == v0);
            } else {
                lemma_digits_div_big(md, j);
                assert(keep == 0);
                assert(v0 == 0);
                assert(raw == 0);
            }
            assert(!sat ==> accv == raw);
            assert(sat ==> raw > i64::MAX as int + 1);
        }
    } else if kval > cap {
        assert(shift == cap - flen);
        assert(shift > 38);
        assert(shift_true >= shift);
        assert(shift_true >= 39);
        assert(keep == md.len());
        assert(md.take(keep) =~= md);
        assert(raw == v0 * pow10(shift_true as nat));
        if v0 == 0 {
            assert(raw == 0) by (nonlinear_arith)
                requires
                    raw == v0 * pow10(shift_true as nat),
                    v0 == 0,
            ;
            assert(!sat ==> accv == 0 || accv == raw);
        } else {
            lemma_sat_39(v0, shift_true as nat);
            assert(raw > i64::MAX as int + 1);
            // the exec must have saturated: its product is at least as large
            if !sat {
                assert(shift > 0);
                assert(accv == v0 * pow10(shift as nat) || (v0 == 0 && accv == 0));
                lemma_sat_39(v0, shift as nat);
                assert(accv > i64::MAX as int + 1);
                assert(false);
            }
        }
    } else {
        assert(kval < -cap);
        assert(shift == -cap - flen);
        assert(shift < 0);
        assert(md.len() + shift <= 0);
        assert(keep == 0);
        assert(md.take(0) =~= Seq::<char>::empty());
        assert(v0 == 0);
        assert(shift_true < 0);
        let j = (-shift_true) as nat;
        assert(j > md.len());
        lemma_digits_div_big(md, j);
        assert(raw == 0);
        assert(!sat);
        assert(accv == 0);
    }
}

/// Truncates a decimal number toward zero, clamped into `i64`. The

/// Truncates a decimal number toward zero, clamped into `i64`. The
/// words saturate (`nan` gives 0); the exponent shifts the mantissa's
/// digits; all arithmetic is exact and integer.
#[verifier::rlimit(30)]
pub fn num_trunc(s: &str) -> (r: i64)
    requires
        is_num_lit(s@),
    ensures
        r as int == num_trunc_val(s@),
{
    let n = s.unicode_len();
    proof {
        if n == 0 {
            assert(first_e(s@) == 0);
            assert(first_dot(s@.take(0)) == 0);
            assert(false);
        }
    }
    let first = s.get_char(0);
    let (neg, start): (bool, usize) = if first == '-' {
        (true, 1)
    } else if first == '+' {
        (false, 1)
    } else {
        (false, 0)
    };
    let ghost t = if s@.len() > 0 && (s@[0] == '-' || s@[0] == '+') {
        s@.skip(1)
    } else {
        s@
    };
    proof {
        if start == 0 {
            assert(t =~= s@);
        }
        assert(t =~= s@.subrange(start as int, n as int));
        assert(t =~= s@.skip(start as int));
        if n == start {
            assert(t.len() == 0);
            assert(first_e(t) == 0);
            assert(first_dot(t.take(0)) == 0);
            assert(false);
        }
    }
    let c0 = s.get_char(start);
    proof {
        assert(t[0] == c0);
    }
    // word forms: saturate, or 0 for nan
    if ci_eq(c0, 105) || ci_eq(c0, 110) {
        proof {
            lemma_first_e_hits(t);
            let e0 = first_e(t);
            let m0 = t.take(e0);
            if is_mantissa(m0) {
                let d = first_dot(m0);
                lemma_first_dot_hits(m0);
                assert(m0[0] == t[0]);
                if d == 0 {
                    assert(d < m0.len());
                    assert(m0[0] == '.');
                } else {
                    assert(is_digit(m0.take(d)[0]));
                }
                assert(false);
            }
        }
        if ci_eq(c0, 110) {
            proof {
                assert(!ci(t[0], 105));
                assert(is_nan_word(t));
            }
            return 0;
        }
        proof {
            assert(!ci(t[0], 110));
            assert(!is_nan_word(t));
            assert(is_inf_word(t) || is_infinity_word(t));
        }
        return if neg {
            i64::MIN
        } else {
            i64::MAX
        };
    }
    proof {
        assert(!ci(t[0], 105) && !ci(t[0], 110));
        assert(!is_nan_word(t) && !is_inf_word(t) && !is_infinity_word(t));
    }
    num_trunc_mant(s, start, neg)
}

/// Evaluates the mantissa-and-exponent form: the digits, shifted by
/// the exponent less the fraction length, signed and clamped.
#[verifier::rlimit(100)]
fn num_trunc_mant(s: &str, start: usize, neg: bool) -> (r: i64)
    requires
        start <= 1,
        start < s@.len(),
        (start == 1) == (s@[0] == '-' || s@[0] == '+'),
        neg == (s@[0] == '-'),
        ({
            let t = s@.skip(start as int);
            let e = first_e(t);
            is_mantissa(t.take(e)) && (e == t.len() || is_int_lit(t.skip(e + 1)))
        }),
    ensures
        r as int == mant_trunc_val(s@.skip(start as int), neg),
{
    let n = s.unicode_len();
    let ghost t = s@.skip(start as int);
    proof {
        assert(t =~= s@.subrange(start as int, n as int));
    }
    // locate the exponent marker
    let mut ep = start;
    let mut founde = false;
    while ep < n && !founde
        invariant
            start <= ep <= n,
            n == s@.len(),
            start <= 1,
            t == s@.subrange(start as int, n as int),
            t.len() == n - start,
            founde ==> ep < n && (t[ep - start] == 'e' || t[ep - start] == 'E'),
            forall|k: int| 0 <= k < ep - start ==> t[k] != 'e' && t[k] != 'E',
        decreases n - ep + (if founde {
            0int
        } else {
            1int
        }),
    {
        let c = s.get_char(ep);
        proof {
            assert(t[ep - start] == c);
        }
        if c == 'e' || c == 'E' {
            founde = true;
        } else {
            ep += 1;
        }
    }
    let ghost e = (ep - start) as int;
    let ghost m = t.take(e);
    proof {
        lemma_first_e(t, e);
        assert(is_mantissa(m));
        assert(founde == (e < t.len()));
        if e < t.len() {
            assert(is_int_lit(t.skip(e + 1)));
        }
        lemma_mant_digits_ok(m);
    }
    let ghost md = mant_digits(m);
    let ghost flen = frac_len(m);
    let ghost kval = if e == t.len() {
        0int
    } else {
        int_lit_val(t.skip(e + 1))
    };
    // parse the exponent's magnitude, capped far beyond any digit count
    let mut kneg = false;
    let mut kmag: i128 = 0;
    let ghost cap: int = 1_000_000_000_000_000_000_000_000_000_000;
    if founde {
        proof {
            let x = t.skip(e + 1);
            if x.len() == 0 {
                assert(!is_int_lit(x));
                assert(false);
            }
        }
        let cx = s.get_char(ep + 1);
        proof {
            assert(t.skip(e + 1)[0] == t[e + 1]);
            assert(t[e + 1] == cx);
        }
        let ds: usize = if cx == '-' {
            kneg = true;
            ep + 2
        } else if cx == '+' {
            ep + 2
        } else {
            ep + 1
        };
        proof {
            let x = t.skip(e + 1);
            if ds == ep + 2 && x.len() == 1 {
                assert(!is_int_lit(x));
                assert(false);
            }
        }
        let ghost xd = t.skip(e + 1).skip((ds - ep - 1) as int);
        proof {
            let x = t.skip(e + 1);
            if ds == ep + 2 {
                assert(xd =~= x.skip(1));
                assert(all_digits(xd));
            } else {
                assert(xd =~= x.skip(0));
                assert(xd =~= x);
                assert(!(x[0] == '-' || x[0] == '+')) by {
                    if x[0] == '-' || x[0] == '+' {
                        assert(x.len() > 1 && all_digits(x.skip(1)));
                        assert(ds == ep + 2);
                    }
                }
                assert(all_digits(xd));
            }
        }
        let mut i: usize = ds;
        while i < n
            invariant
                ds <= i <= n,
                n == s@.len(),
                start <= 1,
                ep + 1 <= ds <= ep + 2,
                start <= ep,
                e == ep - start,
                t == s@.subrange(start as int, n as int),
                t.len() == n - start,
                xd == t.skip(e + 1).skip((ds - ep - 1) as int),
                xd.len() == n - ds,
                all_digits(xd),
                cap == 1_000_000_000_000_000_000_000_000_000_000int,
                0 <= kmag <= cap,
                kmag as int == if digits_val(xd.take(i - ds)) <= cap {
                    digits_val(xd.take(i - ds))
                } else {
                    cap
                },
            decreases n - i,
        {
            let c = s.get_char(i);
            proof {
                assert(t[i - start] == c);
                assert(t.skip(e + 1)[i - ep - 1] == t[i - start]);
                assert(xd[i - ds] == t.skip(e + 1)[i - ep - 1]);
                assert(is_digit(xd[i - ds]));
                assert(xd.take(i - ds + 1).drop_last() =~= xd.take(i - ds));
                assert(xd.take(i - ds + 1).last() == xd[i - ds]);
                assert(all_digits(xd.take(i - ds))) by {
                    assert(forall|j: int| 0 <= j < i - ds ==> xd.take((i - ds) as int)[j] == xd[j]);
                }
                lemma_digits_nonneg(xd.take(i - ds));
            }
            let cu = c as u32;
            let d: i128 = (cu - 48) as i128;
            if kmag >= 1_000_000_000_000_000_000_000_000_000_000 {
                kmag = 1_000_000_000_000_000_000_000_000_000_000;
            } else {
                let k10 = kmag * 10 + d;
                kmag = if k10 > 1_000_000_000_000_000_000_000_000_000_000 {
                    1_000_000_000_000_000_000_000_000_000_000
                } else {
                    k10
                };
            }
            i += 1;
        }
        proof {
            assert(xd.take(n - ds) =~= xd);
            let x = t.skip(e + 1);
            if ds == ep + 2 {
                if x[0] == '-' {
                    assert(kval == -digits_val(x.skip(1)));
                } else {
                    assert(x[0] == '+');
                    assert(kval == digits_val(x.skip(1)));
                }
            } else {
                assert(kval == digits_val(x));
            }
            lemma_digits_nonneg(xd);
            assert(kneg ==> kval == -digits_val(xd));
            assert(!kneg ==> kval == digits_val(xd));
            assert(kmag as int == if digits_val(xd) <= cap {
                digits_val(xd)
            } else {
                cap
            });
        }
    }
    let ghost kabs: int = if kval >= 0 {
        kval
    } else {
        -kval
    };
    proof {
        assert(kmag as int == if kabs <= cap {
            kabs
        } else {
            cap
        });
        assert(kneg ==> kval <= 0);
        assert(!kneg ==> kval >= 0);
    }
    // locate the dot and the digit counts
    let mut dp = start;
    let mut foundd = false;
    while dp < ep && !foundd
        invariant
            start <= dp <= ep,
            ep <= n,
            n == s@.len(),
            start <= 1,
            e == ep - start,
            t == s@.subrange(start as int, n as int),
            t.len() == n - start,
            m == t.take(e),
            foundd ==> dp < ep && m[dp - start] == '.',
            forall|k: int| 0 <= k < dp - start ==> m[k] != '.',
        decreases ep - dp + (if foundd {
            0int
        } else {
            1int
        }),
    {
        let c = s.get_char(dp);
        proof {
            assert(t[dp - start] == c);
            assert(m[dp - start] == t[dp - start]);
        }
        if c == '.' {
            foundd = true;
        } else {
            dp += 1;
        }
    }
    proof {
        lemma_first_dot(m, dp - start);
    }
    let flen_e: usize = if foundd {
        ep - dp - 1
    } else {
        0
    };
    let dlen: usize = (ep - start) - (if foundd {
        1
    } else {
        0
    });
    proof {
        assert(flen_e as int == flen);
        assert(dlen as int == md.len());
        assert(flen <= n);
        assert(dlen <= n);
    }
    let ksig: i128 = if kneg {
        -kmag
    } else {
        kmag
    };
    let shift: i128 = ksig - (flen_e as i128);
    let ghost shift_true: int = kval - flen;
    proof {
        if kabs <= cap {
            assert(ksig as int == kval);
            assert(shift as int == shift_true);
        }
    }
    let keep: usize = if shift >= 0 {
        dlen
    } else {
        let kp: i128 = (dlen as i128) + shift;
        if kp <= 0 {
            0
        } else {
            kp as usize
        }
    };
    // accumulate the kept digits, negated to reach the full range
    let mut acc: i64 = 0;
    let mut sat = false;
    let mut consumed: usize = 0;
    let mut i = start;
    while i < ep && consumed < keep && !sat
        invariant
            start <= i <= ep,
            ep <= n,
            n == s@.len(),
            start <= 1,
            e == ep - start,
            t == s@.subrange(start as int, n as int),
            t.len() == n - start,
            m == t.take(e),
            is_mantissa(m),
            md == mant_digits(m),
            first_dot(m) == dp - start,
            foundd == (dp < ep),
            start <= dp <= ep,
            keep <= dlen,
            dlen as int == md.len(),
            all_digits(md),
            consumed <= keep,
            consumed == i - start - (if foundd && dp < i {
                1int
            } else {
                0int
            }),
            acc <= 0,
            !sat ==> acc as int == -digits_val(md.take(consumed as int)),
            sat ==> digits_val(md.take(keep as int)) > i64::MAX as int + 1,
        decreases ep - i,
    {
        let c = s.get_char(i);
        proof {
            assert(t[i - start] == c);
            assert(m[i - start] == t[i - start]);
        }
        if c == '.' {
            proof {
                lemma_first_dot_hits(m);
                let d0 = first_dot(m);
                if i - start < d0 {
                    assert(m[i - start] != '.');
                }
                if i - start > d0 {
                    assert(m.skip(d0 + 1)[i - start - d0 - 1] == m[i - start]);
                    assert(is_digit(m[i - start]));
                }
                assert(dp - start == i - start);
            }
            i += 1;
        } else {
            proof {
                let d0 = first_dot(m);
                lemma_first_dot_hits(m);
                if (i - start) < d0 {
                    assert(consumed as int == i - start);
                    assert(md[consumed as int] == m.take(d0)[consumed as int]);
                    assert(m.take(d0)[consumed as int] == m[consumed as int]);
                } else {
                    assert(i - start > d0);
                    assert(consumed as int == i - start - 1);
                    assert(md[consumed as int] == m.skip(d0 + 1)[consumed - d0]);
                    assert(m.skip(d0 + 1)[consumed - d0] == m[consumed + 1]);
                }
                assert(md[consumed as int] == m[i - start]);
                assert(is_digit(md[consumed as int]));
                assert(md.take(consumed + 1).drop_last() =~= md.take(consumed as int));
                assert(md.take(consumed + 1).last() == md[consumed as int]);
            }
            let cu = c as u32;
            let d: i64 = (cu - 48) as i64;
            let step_ok: Option<i64> = match acc.checked_mul(10) {
                Some(a) => a.checked_sub(d),
                None => None,
            };
            match step_ok {
                Some(a) => {
                    acc = a;
                },
                None => {
                    sat = true;
                    proof {
                        assert(digits_val(md.take(consumed + 1)) > i64::MAX as int + 1);
                        assert(all_digits(md.take(keep as int))) by {
                            assert(forall|j: int|
                                0 <= j < keep ==> md.take(keep as int)[j] == md[j]);
                        }
                        assert(md.take(keep as int).take(consumed + 1) =~= md.take(consumed + 1));
                        lemma_digits_mono(md.take(keep as int), consumed + 1);
                    }
                },
            }
            consumed += 1;
            i += 1;
        }
    }
    proof {
        if !sat {
            if i == ep {
                assert(consumed as int == dlen as int);
            }
            assert(consumed == keep);
        }
    }
    let ghost v0: int = digits_val(md.take(keep as int));
    proof {
        assert(all_digits(md.take(keep as int))) by {
            assert(forall|j: int| 0 <= j < keep ==> md.take(keep as int)[j] == md[j]);
        }
        lemma_digits_nonneg(md.take(keep as int));
    }
    // apply a positive shift by repeated multiplication
    if !sat && shift > 0 {
        if acc == 0 {
            proof {
                assert(v0 == 0);
            }
        } else if shift > 38 {
            sat = true;
            proof {
                lemma_sat_39(v0, shift as nat);
            }
        } else {
            let sh: usize = shift as usize;
            let mut st: usize = 0;
            while st < sh && !sat
                invariant
                    st <= sh,
                    0 < sh <= 38,
                    acc <= 0,
                    v0 >= 0,
                    v0 == digits_val(md.take(keep as int)),
                    !sat ==> acc as int == -(v0 * pow10(st as nat)),
                    sat ==> v0 * pow10(sh as nat) > i64::MAX as int + 1,
                decreases sh - st,
            {
                match acc.checked_mul(10) {
                    Some(a) => {
                        proof {
                            assert(v0 * pow10(st as nat) * 10 == v0 * pow10(
                                (st + 1) as nat,
                            )) by (nonlinear_arith)
                                requires
                                    pow10((st + 1) as nat) == 10 * pow10(st as nat),
                            ;
                        }
                        acc = a;
                    },
                    None => {
                        sat = true;
                        proof {
                            assert(v0 * pow10(st as nat) * 10 == v0 * pow10(
                                (st + 1) as nat,
                            )) by (nonlinear_arith)
                                requires
                                    pow10((st + 1) as nat) == 10 * pow10(st as nat),
                            ;
                            assert(v0 * pow10((st + 1) as nat) > i64::MAX as int + 1);
                            lemma_mul_pow_mono(v0, (st + 1) as nat, sh as nat);
                            assert(v0 * pow10(sh as nat) >= v0 * pow10((st + 1) as nat));
                        }
                    },
                }
                st += 1;
            }
        }
    }
    // tie the computed value to the specified raw value
    let ghost raw: int = if shift_true >= 0 {
        digits_val(md) * pow10(shift_true as nat)
    } else {
        digits_val(md) / pow10((-shift_true) as nat)
    };
    proof {
        assert(md.len() < 1_000_000_000_000_000_000_000) by {
            assert(dlen <= usize::MAX);
        }
        assert(flen < 1_000_000_000_000_000_000_000) by {
            assert(flen_e <= usize::MAX);
        }
        assert(shift as int == (if kval >= 0 {
            if kval <= cap {
                kval
            } else {
                cap
            }
        } else {
            if -kval <= cap {
                kval
            } else {
                -cap
            }
        }) - flen) by {
            if kval >= 0 {
                assert(!kneg ==> kmag as int == if kval <= cap {
                    kval
                } else {
                    cap
                });
                if kneg {
                    assert(kval == 0);
                    assert(kmag == 0);
                }
            } else {
                assert(kneg);
            }
        }
        assert(keep as int == if shift as int >= 0 {
            md.len() as int
        } else if md.len() + shift as int <= 0 {
            0int
        } else {
            md.len() + shift as int
        });
        lemma_trunc_cases(
            md,
            kval,
            flen,
            keep as int,
            shift as int,
            shift_true,
            sat,
            -(acc as int),
            cap,
        );
        // the specified result is the clamp of the signed raw value
        assert(mant_trunc_val(t, neg) == {
            let sv = if neg {
                -raw
            } else {
                raw
            };
            if sv > i64::MAX {
                i64::MAX as int
            } else if sv < i64::MIN {
                i64::MIN as int
            } else {
                sv
            }
        });
    }
    if sat {
        if neg {
            i64::MIN
        } else {
            i64::MAX
        }
    } else if neg {
        acc
    } else {
        if acc == i64::MIN {
            i64::MAX
        } else {
            -acc
        }
    }
}

/// The union of the cell types of a whole column.
pub open spec fn col_union(cells: Seq<Seq<char>>) -> ColType
    decreases cells.len(),
{
    if cells.len() == 0 {
        ColType { contains_string: false, contains_int: false, contains_null: false }
    } else {
        spec_or(col_union(cells.drop_last()), spec_determine(cells.last()))
    }
}

/// The decoded cell a finalized column holds at row `i`: strings stay
/// strings if any cell is one; otherwise integers if any cell is a
/// number; otherwise every cell is empty.
pub open spec fn col_cell_model(cells: Seq<Seq<char>>, i: int) -> RVal {
    let u = col_union(cells);
    if u.contains_string {
        RVal::S(cells[i])
    } else if u.contains_int {
        RVal::I(int_cell_val(cells[i]) as i64)
    } else {
        RVal::N
    }
}

/// The smallest entry of a run of integers (0 when empty).
pub open spec fn seq_imin(s: Seq<int>) -> int
    decreases s.len(),
{
    if s.len() == 0 {
        0
    } else if s.len() == 1 {
        s[0]
    } else if s.last() < seq_imin(s.drop_last()) {
        s.last()
    } else {
        seq_imin(s.drop_last())
    }
}

/// The largest entry of a run of integers (0 when empty).
pub open spec fn seq_imax(s: Seq<int>) -> int
    decreases s.len(),
{
    if s.len() == 0 {
        0
    } else if s.len() == 1 {
        s[0]
    } else if s.last() > seq_imax(s.drop_last()) {
        s.last()
    } else {
        seq_imax(s.drop_last())
    }
}

/// One column's cells as read from the row stream, with the union of
/// their types.
pub struct RawCol {
    pub types: ColType,
    pub data: Vec<String>,
}

impl RawCol {
    /// The cell texts.
    pub open spec fn cells(self) -> Seq<Seq<char>> {
        Seq::new(self.data@.len(), |i: int| self.data@[i]@)
    }

    /// The type flags match the cells seen.
    pub open spec fn wf(self) -> bool {
        self.types == col_union(self.cells())
    }

    pub fn new() -> (r: RawCol)
        ensures
            r.wf(),
            r.data@.len() == 0,
    {
        let r = RawCol { types: ColType::nothing(), data: Vec::new() };
        proof {
            assert(r.cells() =~= Seq::<Seq<char>>::empty());
        }
        r
    }

    /// Adds one cell, folding its type into the column type.
    pub fn push(&mut self, elem: &str)
        requires
            old(self).wf(),
        ensures
            final(self).wf(),
            final(self).cells() == old(self).cells().push(elem@),
    {
        self.types = self.types.bitor(ColType::determine(elem));
        self.data.push(elem.to_owned());
        proof {
            assert(self.cells() =~= old(self).cells().push(elem@));
            assert(self.cells().drop_last() =~= old(self).cells());
            assert(self.cells().last() == elem@);
        }
    }

    /// Encodes the column: a dictionary of strings if any cell is a
    /// string, otherwise the narrowest integer encoding over the
    /// parsed values, otherwise an all-empty column.
    pub fn finalize(&self, name: &str) -> (c: Column)
        requires
            self.wf(),
            self.data@.len() <= u32::MAX,
        ensures
            c.name@ == name@,
            c.wf(),
            c.data.len_spec() == self.data@.len(),
            forall|i: int|
                0 <= i < self.data@.len() ==> c.data.cell(i) == col_cell_model(self.cells(), i),
            !self.types.contains_string && self.types.contains_int && self.data@.len() > 0 ==> {
                let vals = Seq::new(self.data@.len(), |i: int| int_cell_val(self.cells()[i]));
                let span = seq_imax(vals) - seq_imin(vals);
                &&& (span <= u8::MAX ==> c.data matches ColData::Off8 { .. })
                &&& (u8::MAX < span <= u16::MAX ==> c.data matches ColData::Off16 { .. })
                &&& (u16::MAX < span <= u32::MAX ==> c.data matches ColData::Off32 { .. })
                &&& (span > u32::MAX ==> c.data matches ColData::Plain(_))
            },
    {
        let ghost cells = self.cells();
        let name_s = String::from_str(name);
        if self.types.contains_string {
            let sc = StringColumn::from_values(&self.data);
            let c = Column { name: name_s, data: ColData::Str(sc) };
            proof {
                assert forall|i: int| 0 <= i < self.data@.len() implies c.data.cell(i)
                    == col_cell_model(cells, i) by {
                    assert(c.data.str_at(i) == cells[i]);
                }
            }
            c
        } else if self.types.contains_int {
            let n = self.data.len();
            let mut values: Vec<i64> = Vec::new();
            let mut lo: i64 = 0;
            let mut hi: i64 = 0;
            let ghost vals = Seq::new(self.data@.len(), |i: int| int_cell_val(cells[i]));
            let mut i: usize = 0;
            while i < n
                invariant
                    i <= n,
                    n == self.data@.len(),
                    self.wf(),
                    cells == self.cells(),
                    vals == Seq::new(self.data@.len(), |i: int| int_cell_val(cells[i])),
                    !self.types.contains_string,
                    values@.len() == i,
                    forall|j: int| 0 <= j < i ==> values@[j] as int == vals[j],
                    i > 0 ==> lo as int == seq_imin(vals.take(i as int)),
                    i > 0 ==> hi as int == seq_imax(vals.take(i as int)),
                    forall|j: int| 0 <= j < i ==> lo <= #[trigger] values@[j] <= hi,
                decreases n - i,
            {
                let cell = &self.data[i];
                proof {
                    lemma_union_covers(cells, i as int);
                    assert(cells[i as int] == cell@);
                }
                let v: i64 = if cell.unicode_len() == 0 {
                    0
                } else {
                    match parse_int(cell.as_str()) {
                        Some(v) => v,
                        None => {
                            proof {
                                assert(!spec_determine(cell@).contains_string);
                                assert(is_num_lit(cell@));
                            }
                            num_trunc(cell.as_str())
                        },
                    }
                };
                proof {
                    assert(v as int == int_cell_val(cells[i as int]));
                    assert(vals.take(i + 1).drop_last() =~= vals.take(i as int));
                    assert(vals.take(i + 1).last() == vals[i as int]);
                }
                if i == 0 {
                    lo = v;
                    hi = v;
                } else {
                    if v < lo {
                        lo = v;
                    }
                    if v > hi {
                        hi = v;
                    }
                }
                values.push(v);
                i += 1;
            }
            proof {
                assert(vals.take(n as int) =~= vals);
            }
            let data = IntegerColumn::new(values, lo, hi);
            let c = Column { name: name_s, data };
            proof {
                assert forall|i2: int| 0 <= i2 < self.data@.len() implies c.data.cell(i2)
                    == col_cell_model(cells, i2) by {
                    assert(c.data.int_at(i2) == vals[i2]);
                }
            }
            c
        } else {
            let c = Column { name: name_s, data: ColData::Null(self.data.len()) };
            proof {
                assert forall|i: int| 0 <= i < self.data@.len() implies c.data.cell(i)
                    == col_cell_model(cells, i) by {
                    lemma_union_covers(cells, i);
                }
            }
            c
        }
    }
}

/// Encodes one accumulated chunk of columns as a batch.
pub fn create_batch(cols: &Vec<RawCol>, colnames: &Vec<String>) -> (r: Batch)
    requires
        cols@.len() == colnames@.len(),
        forall|c: int| 0 <= c < cols@.len() ==> (#[trigger] cols@[c]).wf(),
        forall|c: int|
            0 <= c < cols@.len() ==> (#[trigger] cols@[c]).data@.len() == cols@[0].data@.len(),
        cols@.len() > 0 ==> cols@[0].data@.len() <= u32::MAX,
        forall|i: int, j: int|
            0 <= i < j < colnames@.len() ==> (#[trigger] colnames@[i])@ != (
            #[trigger] colnames@[j])@,
    ensures
        r.wf(),
        r.cols@.len() == cols@.len(),
        cols@.len() > 0 ==> r.len_spec() == cols@[0].data@.len(),
        forall|c: int|
            0 <= c < cols@.len() ==> (#[trigger] r.cols@[c]).name@ == colnames@[c]@,
        forall|c: int, k: int|
            0 <= c < cols@.len() && 0 <= k < cols@[c].data@.len() ==> (
            #[trigger] r.cols@[c].data.cell(k)) == col_cell_model(cols@[c].cells(), k),
{
    let n = cols.len();
    let mut out: Vec<Column> = Vec::new();
    let mut i: usize = 0;
    while i < n
        invariant
            i <= n,
            n == cols@.len(),
            cols@.len() == colnames@.len(),
            forall|c: int| 0 <= c < cols@.len() ==> (#[trigger] cols@[c]).wf(),
            forall|c: int|
                0 <= c < cols@.len() ==> (#[trigger] cols@[c]).data@.len() == cols@[0].data@.len(),
            cols@.len() > 0 ==> cols@[0].data@.len() <= u32::MAX,
            out@.len() == i,
            forall|c: int| 0 <= c < i ==> (#[trigger] out@[c]).name@ == colnames@[c]@,
            forall|c: int| 0 <= c < i ==> (#[trigger] out@[c]).wf(),
            forall|c: int|
                0 <= c < i ==> (#[trigger] out@[c]).len_spec() == cols@[0].data@.len(),
            forall|c: int, k: int|
                0 <= c < i && 0 <= k < cols@[c].data@.len() ==> (
                #[trigger] out@[c].data.cell(k)) == col_cell_model(cols@[c].cells(), k),
        decreases n - i,
    {
        let col = cols[i].finalize(colnames[i].as_str());
        out.push(col);
        i += 1;
    }
    let r = Batch { cols: out };
    proof {
        assert forall|a: int, b2: int| 0 <= a < b2 < r.cols@.len() implies r.cols@[a].name@
            != r.cols@[b2].name@ by {
            assert(r.cols@[a].name@ == colnames@[a]@);
            assert(r.cols@[b2].name@ == colnames@[b2]@);
        }
    }
    r
}

/// The cells of column `c` in chunk `b` of the row stream.
pub open spec fn chunk_col(recs: Seq<Vec<String>>, size: int, b: int, c: int) -> Seq<Seq<char>> {
    let lo = b * size;
    let len = if recs.len() - lo < size {
        recs.len() - lo
    } else {
        size
    };
    Seq::new(len as nat, |k: int| recs[lo + k]@[c]@)
}

/// Builds batches of `batch_size` rows from a stream of string rows,
/// one batch per full chunk and one for the remainder.
pub fn auto_ingest(records: &Vec<Vec<String>>, colnames: &Vec<String>, batch_size: usize) -> (r:
    Vec<Batch>)
    requires
        1 <= batch_size <= u32::MAX,
        forall|i: int|
            0 <= i < records@.len() ==> (#[trigger] records@[i])@.len() == colnames@.len(),
        forall|i: int, j: int|
            0 <= i < j < colnames@.len() ==> (#[trigger] colnames@[i])@ != (
            #[trigger] colnames@[j])@,
    ensures
        r@.len() == (records@.len() + batch_size - 1) / (batch_size as int),
        forall|b: int| 0 <= b < r@.len() ==> (#[trigger] r@[b]).wf(),
        forall|b: int| 0 <= b < r@.len() ==> (#[trigger] r@[b]).cols@.len() == colnames@.len(),
        forall|b: int| 0 <= b < r@.len() ==> (#[trigger] r@[b]).len_spec() == chunk_col(
            records@,
            batch_size as int,
            b,
            0,
        ).len() || colnames@.len() == 0,
        forall|b: int, c: int|
            0 <= b < r@.len() && 0 <= c < colnames@.len() ==> (
            #[trigger] r@[b].cols@[c]).name@ == colnames@[c]@,
        forall|b: int, c: int, k: int|
            0 <= b < r@.len() && 0 <= c < colnames@.len() && 0 <= k < chunk_col(
                records@,
                batch_size as int,
                b,
                c,
            ).len() ==> (#[trigger] r@[b].cols@[c].data.cell(k)) == col_cell_model(
                chunk_col(records@, batch_size as int, b, c),
                k,
            ),
{
    let ncols = colnames.len();
    let nrows = records.len();
    let ghost sz = batch_size as int;
    let mut batches: Vec<Batch> = Vec::new();
    let mut lo: usize = 0;
    proof {
        assert(0int * sz == 0) by (nonlinear_arith);
    }
    while lo < nrows
        invariant
            lo <= nrows,
            nrows == records@.len(),
            ncols == colnames@.len(),
            1 <= batch_size <= u32::MAX,
            sz == batch_size as int,
            forall|i: int|
                0 <= i < records@.len() ==> (#[trigger] records@[i])@.len() == colnames@.len(),
            forall|i: int, j: int|
                0 <= i < j < colnames@.len() ==> (#[trigger] colnames@[i])@ != (
                #[trigger] colnames@[j])@,
            lo == batches@.len() * sz || (lo == nrows && batches@.len() >= 1 && (batches@.len()
                - 1) * sz < nrows && nrows <= batches@.len() * sz),
            forall|b: int| 0 <= b < batches@.len() ==> (#[trigger] batches@[b]).wf(),
            forall|b: int|
                0 <= b < batches@.len() ==> (#[trigger] batches@[b]).cols@.len()
                    == colnames@.len(),
            forall|b: int|
                0 <= b < batches@.len() ==> (#[trigger] batches@[b]).len_spec() == chunk_col(
                    records@,
                    sz,
                    b,
                    0,
                ).len() || colnames@.len() == 0,
            forall|b: int, c: int|
                0 <= b < batches@.len() && 0 <= c < colnames@.len() ==> (
                #[trigger] batches@[b].cols@[c]).name@ == colnames@[c]@,
            forall|b: int, c: int, k: int|
                0 <= b < batches@.len() && 0 <= c < colnames@.len() && 0 <= k < chunk_col(
                    records@,
                    sz,
                    b,
                    c,
                ).len() ==> (#[trigger] batches@[b].cols@[c].data.cell(k)) == col_cell_model(
                    chunk_col(records@, sz, b, c),
                    k,
                ),
        decreases nrows - lo,
    {
        let hi: usize = if nrows - lo < batch_size {
            nrows
        } else {
            lo + batch_size
        };
        let ghost bidx = batches@.len() as int;
        let mut raw_cols: Vec<RawCol> = Vec::new();
        let mut c: usize = 0;
        while c < ncols
            invariant
                c <= ncols,
                lo < hi <= nrows,
                hi - lo <= batch_size,
                nrows == records@.len(),
                ncols == colnames@.len(),
                1 <= batch_size <= u32::MAX,
                sz == batch_size as int,
                lo == bidx * sz,
                bidx == batches@.len(),
                hi == if nrows - lo < batch_size {
                    nrows as int
                } else {
                    lo + sz
                },
                forall|i: int|
                    0 <= i < records@.len() ==> (#[trigger] records@[i])@.len()
                        == colnames@.len(),
                raw_cols@.len() == c,
                forall|cc: int| 0 <= cc < c ==> (#[trigger] raw_cols@[cc]).wf(),
                forall|cc: int|
                    0 <= cc < c ==> (#[trigger] raw_cols@[cc]).cells() == chunk_col(
                        records@,
                        sz,
                        bidx,
                        cc,
                    ),
                forall|cc: int|
                    0 <= cc < c ==> (#[trigger] raw_cols@[cc]).data@.len() == hi - lo,
            decreases ncols - c,
        {
            let mut rc = RawCol::new();
            let mut k: usize = lo;
            while k < hi
                invariant
                    lo <= k <= hi,
                    lo < hi <= nrows,
                    c < ncols,
                    nrows == records@.len(),
                    ncols == colnames@.len(),
                    sz == batch_size as int,
                    forall|i: int|
                        0 <= i < records@.len() ==> (#[trigger] records@[i])@.len()
                            == colnames@.len(),
                    rc.wf(),
                    rc.data@.len() == k - lo,
                    rc.cells() =~= Seq::new((k - lo) as nat, |kk: int| records@[lo + kk]@[c as int]@),
                decreases hi - k,
            {
                rc.push(records[k][c].as_str());
                proof {
                    assert(rc.cells() =~= Seq::new(
                        (k + 1 - lo) as nat,
                        |kk: int| records@[lo + kk]@[c as int]@,
                    ));
                }
                k += 1;
            }
            proof {
                assert(chunk_col(records@, sz, bidx, c as int).len() == hi - lo);
                assert(rc.cells() =~= chunk_col(records@, sz, bidx, c as int));
            }
            raw_cols.push(rc);
            c += 1;
        }
        let batch = create_batch(&raw_cols, colnames);
        proof {
            if ncols > 0 {
                assert(raw_cols@[0].data@.len() == hi - lo);
                assert(chunk_col(records@, sz, bidx, 0).len() == hi - lo);
            }
        }
        batches.push(batch);
        proof {
            assert((bidx + 1) * sz == bidx * sz + sz) by (nonlinear_arith);
            assert(lo == bidx * sz);
            assert(lo < nrows);
            if hi == lo + batch_size {
                assert(hi == batches@.len() * sz);
            } else {
                assert(hi == nrows as int);
                assert(bidx * sz < nrows);
                assert(nrows < lo + sz);
                assert(nrows <= (bidx + 1) * sz);
            }
        }
        lo = hi;
    }
    proof {
        if nrows == 0 {
            let nb0 = batches@.len() as int;
            if nb0 >= 1 {
                if lo == nb0 * sz {
                    assert(nb0 * sz >= sz) by (nonlinear_arith)
                        requires
                            sz >= 1,
                            nb0 >= 1,
                    ;
                } else {
                    assert((nb0 - 1) * sz >= 0) by (nonlinear_arith)
                        requires
                            sz >= 1,
                            nb0 >= 1,
                    ;
                }
            }
            assert(batches@.len() == 0);
            assert((records@.len() + batch_size - 1) / (batch_size as int) == 0) by {
                assert(records@.len() == 0);
                assert((0 + sz - 1) / sz == 0) by (nonlinear_arith)
                    requires
                        sz >= 1,
                ;
            }
        } else {
            let nb = batches@.len() as int;
            if lo == nb * sz && !(lo == nrows && nb >= 1 && (nb - 1) * sz < nrows && nrows <= nb
                * sz) {
                // the loop ended exactly on a chunk boundary
                assert(lo >= nrows);
                assert(nb * sz >= nrows);
                if nb == 0 {
                    assert(lo == 0) by (nonlinear_arith)
                        requires
                            lo == nb * sz,
                            nb == 0,
                    ;
                    assert(false);
                }
                assert((nb - 1) * sz == nb * sz - sz) by (nonlinear_arith);
            }
            assert(nb >= 1 && (nb - 1) * sz < nrows && nrows <= nb * sz);
            lemma_ceil_div(nrows as int, sz, nb);
        }
    }
    batches
}

/// Characterizes the rounded-up quotient.
proof fn lemma_ceil_div(n: int, sz: int, q: int)
    requires
        sz >= 1,
        q >= 1,
        (q - 1) * sz < n,
        n <= q * sz,
    ensures
        (n + sz - 1) / sz == q,
{
    let r = n - (q - 1) * sz;
    assert(q * sz - (q - 1) * sz == sz) by (nonlinear_arith);
    assert(1 <= r <= sz);
    assert(n + sz - 1 == (q - 1) * sz + r + sz - 1);
    assert(((q - 1) * sz + (r + sz - 1)) / sz == (q - 1) + (r + sz - 1) / sz) by (nonlinear_arith)
        requires
            sz >= 1,
            0 <= r + sz - 1,
    ;
    assert((r + sz - 1) / sz == 1) by (nonlinear_arith)
        requires
            sz >= 1,
            1 <= r <= sz,
    ;
}

/// A fresh, empty accumulator per column.
fn new_raw_cols(ncols: usize) -> (r: Vec<RawCol>)
    ensures
        r@.len() == ncols,
        forall|c: int|
            0 <= c < ncols ==> (#[trigger] r@[c]).wf() && r@[c].cells() =~= Seq::<
                Seq<char>,
            >::empty(),
{
    let mut r: Vec<RawCol> = Vec::new();
    let mut i: usize = 0;
    while i < ncols
        invariant
            i <= ncols,
            r@.len() == i,
            forall|c: int|
                0 <= c < i ==> (#[trigger] r@[c]).wf() && r@[c].cells() =~= Seq::<
                    Seq<char>,
                >::empty(),
        decreases ncols - i,
    {
        r.push(RawCol::new());
        i += 1;
    }
    r
}

/// Each cell's type is folded into the column union.
pub proof fn lemma_union_covers(cells: Seq<Seq<char>>, i: int)
    requires
        0 <= i < cells.len(),
    ensures
        spec_determine(cells[i]).contains_string ==> col_union(cells).contains_string,
        spec_determine(cells[i]).contains_int ==> col_union(cells).contains_int,
        spec_determine(cells[i]).contains_null ==> col_union(cells).contains_null,
        !col_union(cells).contains_string ==> !spec_determine(cells[i]).contains_string,
        !col_union(cells).contains_int ==> !spec_determine(cells[i]).contains_int,
    decreases cells.len(),
{
    if i < cells.len() - 1 {
        lemma_union_covers(cells.drop_last(), i);
        assert(cells.drop_last()[i] == cells[i]);
    }
}

} // verus!
