//! Ranges of product IDs, and the IDs among them that are some digits
//! written twice.
use crate::text::{
    all_digits, decimal_usize, find_byte, index_of, is_digit, lemma_pow10_add, lemma_pow10_positive,
    lemma_pow10_strict, parse_decimal, pieces, pow10,
};
use vstd::arithmetic::div_mod::{
    lemma_fundamental_div_mod, lemma_fundamental_div_mod_converse, lemma_mod_pos_bound,
};
use vstd::prelude::*;

verus! {

/// Byte between the two ends of a range.
pub const DASH: u8 = 0x2d;

/// Byte between two ranges.
pub const COMMA: u8 = 0x2c;

/// Closed range spanning from .0 to .1 inclusive.
#[derive(Debug, Clone, Copy, PartialEq, Eq, Structural)]
pub struct Range(pub usize, pub usize);

/// Why a text is not an ID or a range of IDs.
#[derive(Debug, Clone, Copy, PartialEq, Eq, Structural)]
pub enum IdError {
    /// The ID is empty.
    Empty,
    /// The ID holds a byte that is not a decimal digit.
    NotDigit,
    /// The ID is over `usize::MAX`.
    TooLarge,
    /// The range has no dash.
    MissingDash,
}

/// The ID that `s` writes, or why it writes none.
pub open spec fn id_value(s: Seq<u8>) -> Result<usize, IdError> {
    if s.len() == 0 {
        Err(IdError::Empty)
    } else if !all_digits(s) {
        Err(IdError::NotDigit)
    } else {
        match decimal_usize(s) {
            Some(n) => Ok(n),
            None => Err(IdError::TooLarge),
        }
    }
}

/// The range that `s` writes as two IDs around its first dash, or why it
/// writes none.
pub open spec fn range_value(s: Seq<u8>) -> Result<Range, IdError> {
    let i = index_of(s, DASH) as int;
    if i == s.len() {
        Err(IdError::MissingDash)
    } else {
        match id_value(s.subrange(0, i)) {
            Err(e) => Err(e),
            Ok(lo) => match id_value(s.subrange(i + 1, s.len() as int)) {
                Err(e) => Err(e),
                Ok(hi) => Ok(Range(lo, hi)),
            },
        }
    }
}

/// The ranges that pieces `ps` write, or the error of the first that writes
/// none.
pub open spec fn ranges_value(ps: Seq<Seq<u8>>) -> Result<Seq<Range>, IdError>
    decreases ps.len(),
{
    if ps.len() == 0 {
        Ok(seq![])
    } else {
        match range_value(ps[0]) {
            Err(e) => Err(e),
            Ok(r) => match ranges_value(ps.drop_first()) {
                Err(e) => Err(e),
                Ok(rs) => Ok(seq![r] + rs),
            },
        }
    }
}

pub open spec fn ranges_view(r: Result<Vec<Range>, IdError>) -> Result<Seq<Range>, IdError> {
    match r {
        Ok(v) => Ok(v@),
        Err(e) => Err(e),
    }
}

/// Reads an ID: decimal digits.
pub fn parse_id(input: &[u8]) -> (r: Result<usize, IdError>)
    ensures
        r == id_value(input@),
{
    if input.len() == 0 {
        return Err(IdError::Empty);
    }
    let mut i: usize = 0;
    while i < input.len()
        invariant
            i <= input@.len(),
            forall|j: int| 0 <= j < i ==> is_digit(input@[j]),
        decreases input@.len() - i,
    {
        if input[i] < 0x30 || input[i] > 0x39 {
            return Err(IdError::NotDigit);
        }
        i = i + 1;
    }
    match parse_decimal(input) {
        Some(n) => Ok(n),
        None => Err(IdError::TooLarge),
    }
}

/// Reads a range: two IDs around a dash.
pub fn parse_id_range(input: &[u8]) -> (r: Result<Range, IdError>)
    ensures
        r == range_value(input@),
{
    let n = input.len();
    let pos = find_byte(input, 0, DASH);
    assert(input@.subrange(0, n as int) =~= input@);
    if pos == n {
        return Err(IdError::MissingDash);
    }
    let lo = parse_id(&input[0..pos])?;
    let hi = parse_id(&input[pos + 1..n])?;
    Ok(Range(lo, hi))
}

/// Reads the ranges that `input` lists, separated by commas.
pub fn ranges_from_input(input: &[u8]) -> (r: Result<Vec<Range>, IdError>)
    ensures
        ranges_view(r) == ranges_value(pieces(input@, COMMA)),
{
    let ghost s = input@;
    let n = input.len();
    let mut ranges: Vec<Range> = Vec::new();
    let mut pos: usize = 0;
    assert(s.subrange(0, n as int) =~= s);
    while pos < n
        invariant
            s == input@,
            n == s.len(),
            pos <= n,
            match ranges_value(pieces(s.subrange(pos as int, n as int), COMMA)) {
                Ok(rs) => ranges_value(pieces(s, COMMA)) == Ok::<Seq<Range>, IdError>(
                    ranges@ + rs,
                ),
                Err(e) => ranges_value(pieces(s, COMMA)) == Err::<Seq<Range>, IdError>(e),
            },
        decreases n - pos,
    {
        let end = find_byte(input, pos, COMMA);
        let ghost rest = s.subrange(pos as int, n as int);
        proof {
            assert(rest.subrange(0, end - pos) =~= s.subrange(pos as int, end as int));
            let ps = pieces(rest, COMMA);
            if end < n {
                assert(rest.subrange(end - pos + 1, rest.len() as int) =~= s.subrange(
                    end + 1,
                    n as int,
                ));
                assert(ps.drop_first() =~= pieces(s.subrange(end + 1, n as int), COMMA));
            } else {
                assert(ps.drop_first() =~= seq![]);
            }
        }
        let range = parse_id_range(&input[pos..end])?;
        let ghost done = ranges@;
        ranges.push(range);
        proof {
            let tail = ranges_value(pieces(rest, COMMA).drop_first());
            if let Ok(rs) = tail {
                assert(done + (seq![range] + rs) =~= ranges@ + rs);
            }
        }
        pos = if end == n { n } else { end + 1 };
    }
    proof {
        assert(s.subrange(n as int, n as int) =~= Seq::<u8>::empty());
        assert(ranges@ + seq![] =~= ranges@);
    }
    Ok(ranges)
}

/// Number of base-10 digits in `n`.
pub open spec fn digit_count(n: nat) -> nat
    decreases n,
{
    if n < 10 {
        1
    } else {
        1 + digit_count(n / 10)
    }
}

/// The digits of `x`, padded to `h` digits, written twice.
pub open spec fn written_twice(x: nat, h: nat) -> nat {
    x * pow10(h) + x
}

/// `id` is some number of `h` digits, its first not zero, written twice.
pub open spec fn is_doubled(id: nat) -> bool {
    exists|h: nat, x: nat|
        h >= 1 && pow10((h - 1) as nat) <= x < pow10(h) && id == #[trigger] written_twice(x, h)
}

/// `n` has `digit_count(n)` digits, the first of them not zero unless `n` is.
proof fn lemma_digit_count_bounds(n: nat)
    ensures
        digit_count(n) >= 1,
        pow10((digit_count(n) - 1) as nat) <= n || n == 0,
        n < pow10(digit_count(n)),
    decreases n,
{
    reveal_with_fuel(pow10, 2);
    if n >= 10 {
        let m = n / 10;
        lemma_digit_count_bounds(m);
        let d = digit_count(m);
        assert(pow10(d + 1) == 10 * pow10(d));
        assert(pow10(d) == 10 * pow10((d - 1) as nat));
        let (p, q) = (pow10((d - 1) as nat) as int, pow10(d) as int);
        assert(10 * p <= n) by (nonlinear_arith)
            requires
                p <= m,
                m == n / 10,
                n >= 10,
        ;
        assert(n < 10 * q) by (nonlinear_arith)
            requires
                m < q,
                m == n / 10,
                n >= 0,
        ;
    }
}

/// A number between `10^(d-1)` and `10^d` has `d` digits.
proof fn lemma_digit_count_unique(n: nat, d: nat)
    requires
        d >= 1,
        pow10((d - 1) as nat) <= n < pow10(d),
    ensures
        digit_count(n) == d,
{
    lemma_digit_count_bounds(n);
    let c = digit_count(n);
    lemma_pow10_positive((d - 1) as nat);
    if c < d {
        if c < (d - 1) as nat {
            lemma_pow10_strict(c, (d - 1) as nat);
        }
    } else if c > d {
        if d < (c - 1) as nat {
            lemma_pow10_strict(d, (c - 1) as nat);
        }
    }
}

/// A number written twice has twice as many digits.
proof fn lemma_doubled_digits(h: nat, x: nat)
    requires
        h >= 1,
        pow10((h - 1) as nat) <= x < pow10(h),
    ensures
        digit_count(x * pow10(h) + x) == 2 * h,
{
    let (q, p) = (pow10((h - 1) as nat), pow10(h));
    assert(p == 10 * q);
    lemma_pow10_add((h - 1) as nat, h);
    lemma_pow10_add(h, h);
    assert((h - 1) as nat + h == (2 * h - 1) as nat);
    let id = x * p + x;
    assert(q * p <= id) by (nonlinear_arith)
        requires
            q <= x,
            id == x * p + x,
            p >= 0,
    ;
    assert(id < p * p) by (nonlinear_arith)
        requires
            x < p,
            id == x * p + x,
    ;
    lemma_digit_count_unique(id, 2 * h);
}

/// Returns number of base-10 digits in `n`.
pub fn nb_digits(n: usize) -> (r: u32)
    ensures
        r == digit_count(n as nat),
{
    let mut count: u32 = 1;
    let mut m: usize = n;
    proof {
        reveal_with_fuel(pow10, 21);
        assert(pow10(20) > usize::MAX);
        assert(pow10(0) == 1);
        assert((count - 1) as nat == 0);
        assert(m * pow10(0) == n);
    }
    while m >= 10
        invariant
            1 <= count,
            digit_count(n as nat) == count - 1 + digit_count(m as nat),
            m >= 1 || n == 0,
            m * pow10((count - 1) as nat) <= n,
            pow10(20) > usize::MAX,
        decreases m,
    {
        let ghost old_m = m as int;
        let ghost p = pow10((count - 1) as nat) as int;
        m = m / 10;
        assert(pow10(count as nat) == 10 * p);
        assert(m * (10 * p) <= old_m * p) by (nonlinear_arith)
            requires
                m == old_m / 10,
                old_m >= 10,
                p >= 0,
        ;
        proof {
            lemma_pow10_positive(count as nat);
            assert(pow10(count as nat) <= n) by (nonlinear_arith)
                requires
                    m * pow10(count as nat) <= n,
                    m >= 1,
            ;
            if count >= 20 {
                if 20 < count {
                    lemma_pow10_strict(20, count as nat);
                }
            }
        }
        count = count + 1;
    }
    count
}

/// Returns ten to the power `e`.
fn pow10_usize(e: u32) -> (r: usize)
    requires
        pow10(e as nat) <= usize::MAX,
    ensures
        r == pow10(e as nat),
{
    let mut r: usize = 1;
    let mut i: u32 = 0;
    while i < e
        invariant
            i <= e,
            r == pow10(i as nat),
            pow10(e as nat) <= usize::MAX,
        decreases e - i,
    {
        proof {
            if i + 1 < e {
                lemma_pow10_strict((i + 1) as nat, e as nat);
            }
        }
        r = r * 10;
        i = i + 1;
    }
    r
}

/// Tells whether `id` is some digits written twice.
pub fn is_invalid_id(id: usize) -> (r: bool)
    ensures
        r == is_doubled(id as nat),
{
    let nb_digits = nb_digits(id);
    proof {
        lemma_digit_count_bounds(id as nat);
        if is_doubled(id as nat) {
            let (h, x) = choose|h: nat, x: nat|
                h >= 1 && pow10((h - 1) as nat) <= x < pow10(h) && id == #[trigger] written_twice(
                    x,
                    h,
                );
            lemma_doubled_digits(h, x);
        }
    }
    if nb_digits == 1 || nb_digits % 2 != 0 {
        false
    } else {
        let ghost h = (nb_digits / 2) as nat;
        proof {
            if h < (nb_digits - 1) as nat {
                lemma_pow10_strict(h, (nb_digits - 1) as nat);
            }
            lemma_pow10_positive(h);
        }
        let power = pow10_usize(nb_digits / 2);
        let left = id / power;
        let right = id % power;
        proof {
            let (q, p) = (pow10((h - 1) as nat) as int, power as int);
            assert(p == 10 * q);
            lemma_pow10_add((h - 1) as nat, h);
            assert((h - 1) as nat + h == (nb_digits - 1) as nat);
            lemma_fundamental_div_mod(id as int, p);
            lemma_mod_pos_bound(id as int, p);
            assert(p * left == left * p) by (nonlinear_arith);
            if left == right {
                assert(q <= right) by (nonlinear_arith)
                    requires
                        q * p <= id,
                        id == right * p + right,
                        q < p,
                        right >= 0,
                ;
                assert(pow10((h - 1) as nat) <= right < pow10(h) && id == written_twice(
                    right as nat,
                    h,
                ));
            } else if is_doubled(id as nat) {
                let (h2, x) = choose|h2: nat, x: nat|
                    h2 >= 1 && pow10((h2 - 1) as nat) <= x < pow10(h2) && id
                        == #[trigger] written_twice(x, h2);
                lemma_doubled_digits(h2, x);
                lemma_fundamental_div_mod_converse(id as int, p, x as int, x as int);
            }
        }
        left == right
    }
}

/// Sum of the doubled IDs from `lo` to `hi` inclusive.
pub open spec fn invalid_sum(lo: int, hi: int) -> nat
    decreases hi - lo + 1,
{
    if hi < lo {
        0
    } else {
        invalid_sum(lo, hi - 1) + if is_doubled(hi as nat) {
            hi as nat
        } else {
            0
        }
    }
}

proof fn lemma_invalid_sum_grows(lo: int, k: int, hi: int)
    requires
        k <= hi,
    ensures
        invalid_sum(lo, k) <= invalid_sum(lo, hi),
    decreases hi - k,
{
    if k < hi {
        lemma_invalid_sum_grows(lo, k, hi - 1);
    }
}

/// Returns the sum of the doubled IDs in `range`, or `None` when it exceeds
/// `usize::MAX`.
pub fn sum_invalid_ids_in_range(range: Range) -> (r: Option<usize>)
    ensures
        r == if invalid_sum(range.0 as int, range.1 as int) <= usize::MAX {
            Some(invalid_sum(range.0 as int, range.1 as int) as usize)
        } else {
            None::<usize>
        },
{
    let Range(lo, hi) = range;
    if lo > hi {
        return Some(0);
    }
    let mut acc: usize = 0;
    let mut id: usize = lo;
    loop
        invariant_except_break
            lo == range.0,
            hi == range.1,
            lo <= id <= hi,
            acc == invalid_sum(lo as int, id - 1),
        ensures
            acc == invalid_sum(lo as int, hi as int),
        decreases hi - id,
    {
        if is_invalid_id(id) {
            match acc.checked_add(id) {
                Some(v) => {
                    acc = v;
                },
                None => {
                    proof {
                        lemma_invalid_sum_grows(lo as int, id as int, hi as int);
                    }
                    return None;
                },
            }
        }
        if id == hi {
            break ;
        }
        id = id + 1;
    }
    Some(acc)
}

/// Sum of the doubled IDs of every range of `rs`.
pub open spec fn total_invalid(rs: Seq<Range>) -> nat
    decreases rs.len(),
{
    if rs.len() == 0 {
        0
    } else {
        total_invalid(rs.drop_last()) + invalid_sum(rs.last().0 as int, rs.last().1 as int)
    }
}

proof fn lemma_total_invalid_grows(rs: Seq<Range>, i: int)
    requires
        0 <= i <= rs.len(),
    ensures
        total_invalid(rs.subrange(0, i)) <= total_invalid(rs),
        i < rs.len() ==> total_invalid(rs.subrange(0, i)) + invalid_sum(
            rs[i].0 as int,
            rs[i].1 as int,
        ) <= total_invalid(rs),
    decreases rs.len(),
{
    if i < rs.len() {
        let d = rs.drop_last();
        if i < d.len() {
            assert(d.subrange(0, i) =~= rs.subrange(0, i));
            lemma_total_invalid_grows(d, i);
        } else {
            assert(d =~= rs.subrange(0, i));
        }
    } else {
        assert(rs.subrange(0, i) =~= rs);
    }
}

/// Why no sum came out of a text of ranges.
#[derive(Debug, Clone, Copy, PartialEq, Eq, Structural)]
pub enum SumError {
    /// A piece of the text is not a range.
    Range(IdError),
    /// The sum of the doubled IDs is over `usize::MAX`.
    TooLarge,
}

/// Sum of the doubled IDs of the ranges that text `s` lists, separated by
/// commas, or why there is none.
pub open spec fn invalid_ids_total(s: Seq<u8>) -> Result<usize, SumError> {
    match ranges_value(pieces(s, COMMA)) {
        Err(e) => Err(SumError::Range(e)),
        Ok(rs) => if total_invalid(rs) <= usize::MAX {
            Ok(total_invalid(rs) as usize)
        } else {
            Err(SumError::TooLarge)
        },
    }
}

/// Reads ranges from `input` and returns the sum of the doubled IDs in them.
pub fn solve_for(input: &[u8]) -> (r: Result<usize, SumError>)
    ensures
        r == invalid_ids_total(input@),
{
    let ranges = match ranges_from_input(input) {
        Ok(v) => v,
        Err(e) => {
            return Err(SumError::Range(e));
        },
    };
    let ghost rs = ranges@;
    let mut acc: usize = 0;
    let mut i: usize = 0;
    assert(rs.subrange(0, 0) =~= Seq::<Range>::empty());
    while i < ranges.len()
        invariant
            rs == ranges@,
            ranges_value(pieces(input@, COMMA)) == Ok::<Seq<Range>, IdError>(rs),
            i <= rs.len(),
            acc == total_invalid(rs.subrange(0, i as int)),
        decreases rs.len() - i,
    {
        proof {
            lemma_total_invalid_grows(rs, i as int);
            assert(rs.subrange(0, i + 1).drop_last() =~= rs.subrange(0, i as int));
        }
        let range = ranges[i];
        assert(range == rs[i as int]);
        match sum_invalid_ids_in_range(range) {
            Some(n) => match acc.checked_add(n) {
                Some(v) => {
                    acc = v;
                },
                None => {
                    return Err(SumError::TooLarge);
                },
            },
            None => {
                return Err(SumError::TooLarge);
            },
        }
        i = i + 1;
    }
    assert(rs.subrange(0, i as int) =~= rs);
    Ok(acc)
}

} // verus!
