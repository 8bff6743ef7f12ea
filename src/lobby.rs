//! Battery banks: the largest joltage that a fixed number of batteries of
//! a bank, taken in order, can give.
use crate::text::{all_digits, decimal_value, is_digit, pieces, pow10, split_pieces};
use vstd::prelude::*;

verus! {

/// Number of batteries to turn on per bank.
pub const NB_BATTERIES_ON: usize = 12;

pub trait IteratorExt {
    /// The items that the method looks at, in order.
    spec fn items(&self) -> Seq<u8>;

    /// Returns the index of the maximum item.
    ///
    /// If several items are equally maximum, the index of the first one is
    /// returned. If there is no item, `None` is returned.
    fn first_max_position(&self) -> (r: Option<usize>)
        ensures
            r is None <==> self.items().len() == 0,
            r matches Some(i) ==> {
                &&& i < self.items().len()
                &&& forall|j: int| 0 <= j < self.items().len() ==> self.items()[j] <= self.items()[i as int]
                &&& forall|j: int| 0 <= j < i ==> self.items()[j] < self.items()[i as int]
            },
    ;
}

impl IteratorExt for [u8] {
    open spec fn items(&self) -> Seq<u8> {
        self@
    }

    fn first_max_position(&self) -> (r: Option<usize>) {
        if self.len() == 0 {
            return None;
        }
        let mut imax: usize = 0;
        let mut i: usize = 1;
        while i < self.len()
            invariant
                1 <= i <= self@.len(),
                imax < i,
                forall|j: int| 0 <= j < i ==> self@[j] <= self@[imax as int],
                forall|j: int| 0 <= j < imax ==> self@[j] < self@[imax as int],
            decreases self@.len() - i,
        {
            if self[i] > self[imax] {
                imax = i;
            }
            i = i + 1;
        }
        Some(imax)
    }
}

/// Returns the value of the decimal digit `b`.
pub fn from_digit(b: u8) -> (r: usize)
    requires
        is_digit(b),
    ensures
        r == b - 0x30,
{
    (b - 0x30) as usize
}

/// A bank is long enough and holds only digits.
pub open spec fn valid_bank(bank: Seq<u8>) -> bool {
    bank.len() >= NB_BATTERIES_ON && all_digits(bank)
}

/// Checks that `bank` contains only digits and is long enough.
pub fn is_bank_valid(bank: &[u8]) -> (r: bool)
    ensures
        r == valid_bank(bank@),
{
    if bank.len() < NB_BATTERIES_ON {
        return false;
    }
    let mut i: usize = 0;
    while i < bank.len()
        invariant
            i <= bank@.len(),
            forall|j: int| 0 <= j < i ==> is_digit(bank@[j]),
        decreases bank@.len() - i,
    {
        if bank[i] < 0x30 || bank[i] > 0x39 {
            assert(!is_digit(bank@[i as int]));
            return false;
        }
        i = i + 1;
    }
    true
}

/// `idx` picks `NB_BATTERIES_ON` batteries of `bank`, in increasing order.
pub open spec fn is_choice(bank: Seq<u8>, idx: Seq<int>) -> bool {
    &&& idx.len() == NB_BATTERIES_ON
    &&& forall|k: int| 0 <= k < idx.len() ==> 0 <= #[trigger] idx[k] < bank.len()
    &&& forall|k: int| 0 < k < idx.len() ==> idx[k - 1] < #[trigger] idx[k]
}

/// The digits of the batteries that `idx` picks.
pub open spec fn picked(bank: Seq<u8>, idx: Seq<int>) -> Seq<u8> {
    idx.map_values(|i: int| bank[i])
}

/// The joltage of the batteries that `idx` picks: their digits, in order.
pub open spec fn choice_joltage(bank: Seq<u8>, idx: Seq<int>) -> nat {
    decimal_value(picked(bank, idx))
}

/// `v` is the largest joltage that a choice of batteries of `bank` gives.
pub open spec fn is_max_joltage(bank: Seq<u8>, v: nat) -> bool {
    &&& exists|idx: Seq<int>| is_choice(bank, idx) && choice_joltage(bank, idx) == v
    &&& forall|idx: Seq<int>| is_choice(bank, idx) ==> choice_joltage(bank, idx) <= v
}

/// The largest joltage that a choice of batteries of `bank` gives.
pub open spec fn max_joltage(bank: Seq<u8>) -> nat {
    choose|v: nat| is_max_joltage(bank, v)
}

/// Batteries picked in increasing order leave room for those still to come.
proof fn lemma_choice_spread(bank: Seq<u8>, idx: Seq<int>, t: int, k: int)
    requires
        is_choice(bank, idx),
        0 <= t <= k < idx.len(),
    ensures
        idx[k] >= idx[t] + (k - t),
    decreases k - t,
{
    if k > t {
        lemma_choice_spread(bank, idx, t, k - 1);
        assert(idx[k - 1] < idx[k]);
    }
}

proof fn lemma_decimal_push(s: Seq<u8>, b: u8)
    ensures
        decimal_value(s.push(b)) == decimal_value(s) * 10 + (b - 0x30) as nat,
{
    assert(s.push(b).drop_last() =~= s);
}

proof fn lemma_picked_take(bank: Seq<u8>, idx: Seq<int>, t: int)
    requires
        0 <= t < idx.len(),
    ensures
        picked(bank, idx.take(t + 1)) == picked(bank, idx.take(t)).push(bank[idx[t]]),
{
    assert(picked(bank, idx.take(t + 1)) =~= picked(bank, idx.take(t)).push(bank[idx[t]]));
}

/// Among the choices whose first `t` batteries give at most `v`, those that
/// give `v` exactly pick their `t`-th battery at `last` or after it.
pub open spec fn greedy_bound(bank: Seq<u8>, t: int, v: nat, last: int) -> bool {
    forall|idx: Seq<int>|
        #[trigger] is_choice(bank, idx) ==> {
            &&& decimal_value(picked(bank, idx.take(t))) <= v
            &&& (t > 0 && decimal_value(picked(bank, idx.take(t))) == v) ==> idx[t - 1] >= last
        }
}

/// Returns the largest joltage that `NB_BATTERIES_ON` batteries of `bank`,
/// taken in order, give: each digit is the first largest one that still
/// leaves enough batteries for the digits after it.
pub fn max_joltage_for_bank(bank: &[u8]) -> (r: u64)
    requires
        valid_bank(bank@),
    ensures
        is_max_joltage(bank@, r as nat),
        r == max_joltage(bank@),
{
    let ghost b = bank@;
    let n = bank.len();
    let mut joltage: u64 = 0;
    // Indices of window in bank where to search for next battery to turn on.
    let mut i_first: usize = 0;
    let mut i_last: usize = n - NB_BATTERIES_ON;
    let ghost mut c: Seq<int> = seq![];
    let mut t: usize = 0;
    proof {
        reveal_with_fuel(pow10, 13);
        assert forall|idx: Seq<int>| #[trigger] is_choice(b, idx) implies decimal_value(
            picked(b, idx.take(0)),
        ) <= 0 by {
            assert(picked(b, idx.take(0)) =~= Seq::<u8>::empty());
        }
        assert(picked(b, c) =~= Seq::<u8>::empty());
    }
    while t < NB_BATTERIES_ON
        invariant
            b == bank@,
            n == b.len(),
            valid_bank(b),
            t <= NB_BATTERIES_ON,
            c.len() == t,
            i_first == if t == 0 { 0 } else { c[t - 1] + 1 },
            i_last == n - NB_BATTERIES_ON + t,
            forall|k: int| 0 <= k < t ==> 0 <= #[trigger] c[k] <= n - NB_BATTERIES_ON + k,
            forall|k: int| 0 < k < t ==> c[k - 1] < #[trigger] c[k],
            joltage == decimal_value(picked(b, c)),
            joltage < pow10(t as nat),
            pow10(NB_BATTERIES_ON as nat) == 1_000_000_000_000,
            greedy_bound(b, t as int, joltage as nat, if t == 0 { 0 } else { c[t - 1] }),
        decreases NB_BATTERIES_ON - t,
    {
        let window = &bank[i_first..i_last + 1];
        let i = window.first_max_position().unwrap();
        let m = i_first + i;
        let digit = bank[m];
        assert(window@[i as int] == b[m as int]);
        assert(is_digit(b[m as int]));
        let ghost v = joltage as nat;
        let ghost last = if t == 0 { 0 } else { c[t - 1] };
        proof {
            lemma_decimal_push(picked(b, c), digit);
            assert(picked(b, c.push(m as int)) =~= picked(b, c).push(digit));
            assert(pow10((t + 1) as nat) == 10 * pow10(t as nat));
            if t + 1 < NB_BATTERIES_ON {
                crate::text::lemma_pow10_strict((t + 1) as nat, NB_BATTERIES_ON as nat);
            }
            let v2 = v * 10 + (digit - 0x30) as nat;
            assert forall|idx: Seq<int>| #[trigger] is_choice(b, idx) implies {
                &&& decimal_value(picked(b, idx.take(t + 1))) <= v2
                &&& decimal_value(picked(b, idx.take(t + 1))) == v2 ==> idx[t as int] >= m
            } by {
                let p = picked(b, idx.take(t as int));
                let a = b[idx[t as int]];
                lemma_picked_take(b, idx, t as int);
                lemma_decimal_push(p, a);
                assert(0 <= idx[t as int] < n);
                assert(is_digit(a));
                if decimal_value(p) == v {
                    if t > 0 {
                        assert(idx[t - 1] < idx[t as int]);
                    }
                    lemma_choice_spread(b, idx, t as int, NB_BATTERIES_ON - 1);
                    assert(0 <= idx[NB_BATTERIES_ON - 1] < n);
                    let j = idx[t as int] - i_first;
                    assert(window@[j] == a);
                }
            }
        }
        joltage = joltage * 10 + from_digit(digit) as u64;
        proof {
            c = c.push(m as int);
        }
        i_first = m + 1;
        i_last = i_last + 1;
        t = t + 1;
    }
    proof {
        assert(c.take(NB_BATTERIES_ON as int) =~= c);
        assert(is_choice(b, c));
        assert forall|idx: Seq<int>| is_choice(b, idx) implies choice_joltage(b, idx) <= joltage by {
            assert(idx.take(NB_BATTERIES_ON as int) =~= idx);
        }
        assert(is_max_joltage(b, joltage as nat));
        let w = max_joltage(b);
        let idx = choose|idx: Seq<int>| is_choice(b, idx) && choice_joltage(b, idx) == w;
    }
    joltage
}

/// Byte between two banks.
pub const NEWLINE: u8 = 0x0a;

/// Why no total came out of a text of banks.
#[derive(Debug, Clone, Copy, PartialEq, Eq, Structural)]
pub enum BankError {
    /// A line is shorter than `NB_BATTERIES_ON` or holds a byte that is not
    /// a digit.
    IllFormed,
    /// The total is over `u64::MAX`.
    TooLarge,
}

/// Sum of the largest joltages of banks `bs`.
pub open spec fn total_joltage(bs: Seq<Seq<u8>>) -> nat
    decreases bs.len(),
{
    if bs.len() == 0 {
        0
    } else {
        total_joltage(bs.drop_last()) + max_joltage(bs.last())
    }
}

proof fn lemma_total_joltage_grows(bs: Seq<Seq<u8>>, i: int)
    requires
        0 <= i <= bs.len(),
    ensures
        total_joltage(bs.take(i)) <= total_joltage(bs),
    decreases bs.len(),
{
    if i < bs.len() {
        assert(bs.drop_last().take(i) =~= bs.take(i));
        lemma_total_joltage_grows(bs.drop_last(), i);
    } else {
        assert(bs.take(i) =~= bs);
    }
}

/// Sum of the largest joltages of the banks that text `s` lists, one per
/// line, or why there is none.
pub open spec fn joltage_total(s: Seq<u8>) -> Result<u64, BankError> {
    let bs = pieces(s, NEWLINE);
    if exists|k: int| 0 <= k < bs.len() && !valid_bank(#[trigger] bs[k]) {
        Err(BankError::IllFormed)
    } else if total_joltage(bs) > u64::MAX {
        Err(BankError::TooLarge)
    } else {
        Ok(total_joltage(bs) as u64)
    }
}

/// Reads banks from `input`, one per line, and returns the sum of their
/// largest joltages.
pub fn solve_for(input: &[u8]) -> (r: Result<u64, BankError>)
    ensures
        r == joltage_total(input@),
{
    let ghost bs = pieces(input@, NEWLINE);
    let bounds = split_pieces(input, NEWLINE);
    let mut k: usize = 0;
    while k < bounds.len()
        invariant
            bs == pieces(input@, NEWLINE),
            bounds@.len() == bs.len(),
            forall|j: int|
                0 <= j < bounds@.len() ==> {
                    &&& (#[trigger] bounds@[j]).0 <= bounds@[j].1 <= input@.len()
                    &&& input@.subrange(bounds@[j].0 as int, bounds@[j].1 as int) == bs[j]
                },
            k <= bs.len(),
            forall|j: int| 0 <= j < k ==> valid_bank(#[trigger] bs[j]),
        decreases bs.len() - k,
    {
        let (start, end) = bounds[k];
        assert(bounds@[k as int] == (start, end));
        if !is_bank_valid(&input[start..end]) {
            return Err(BankError::IllFormed);
        }
        k = k + 1;
    }
    let mut total: u64 = 0;
    let mut k: usize = 0;
    while k < bounds.len()
        invariant
            bs == pieces(input@, NEWLINE),
            bounds@.len() == bs.len(),
            forall|j: int|
                0 <= j < bounds@.len() ==> {
                    &&& (#[trigger] bounds@[j]).0 <= bounds@[j].1 <= input@.len()
                    &&& input@.subrange(bounds@[j].0 as int, bounds@[j].1 as int) == bs[j]
                },
            k <= bs.len(),
            forall|j: int| 0 <= j < bs.len() ==> valid_bank(#[trigger] bs[j]),
            total == total_joltage(bs.take(k as int)),
        decreases bs.len() - k,
    {
        let (start, end) = bounds[k];
        assert(bounds@[k as int] == (start, end));
        let bank_joltage = max_joltage_for_bank(&input[start..end]);
        proof {
            assert(bs.take(k + 1).drop_last() =~= bs.take(k as int));
            lemma_total_joltage_grows(bs, k + 1);
        }
        match total.checked_add(bank_joltage) {
            Some(v) => {
                total = v;
            },
            None => {
                return Err(BankError::TooLarge);
            },
        }
        k = k + 1;
    }
    assert(bs.take(k as int) =~= bs);
    Ok(total)
}

} // verus!
