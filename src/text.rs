//! Byte-text helpers shared by the parsers: finding a byte, cutting a text
//! into pieces, trimming spaces and reading decimal numbers.
use vstd::prelude::*;

verus! {

/// Index of the first `b` in `s`, or the length of `s` when it holds none.
pub open spec fn index_of(s: Seq<u8>, b: u8) -> nat
    decreases s.len(),
{
    if s.len() == 0 {
        0
    } else if s[0] == b {
        0
    } else {
        1 + index_of(s.drop_first(), b)
    }
}

pub proof fn lemma_index_of_bound(s: Seq<u8>, b: u8)
    ensures
        index_of(s, b) <= s.len(),
        index_of(s, b) < s.len() ==> s[index_of(s, b) as int] == b,
        forall|i: int| 0 <= i < index_of(s, b) ==> s[i] != b,
    decreases s.len(),
{
    if s.len() > 0 && s[0] != b {
        lemma_index_of_bound(s.drop_first(), b);
        assert forall|i: int| 0 <= i < index_of(s, b) implies s[i] != b by {
            if i > 0 {
                assert(s[i] == s.drop_first()[i - 1]);
            }
        }
    }
}

/// `w` is the index of the first `b` in `s`, or its length.
pub proof fn lemma_index_of(s: Seq<u8>, b: u8, w: int)
    requires
        0 <= w <= s.len(),
        forall|i: int| 0 <= i < w ==> s[i] != b,
        w == s.len() || s[w] == b,
    ensures
        index_of(s, b) == w,
    decreases w,
{
    if w > 0 {
        assert(forall|i: int| 0 <= i < w - 1 ==> s.drop_first()[i] == s[i + 1]);
        lemma_index_of(s.drop_first(), b, w - 1);
    }
}

#[via_fn]
proof fn lemma_pieces_decreases(s: Seq<u8>, sep: u8) {
    lemma_index_of_bound(s, sep);
}

/// The pieces of `s` between occurrences of `sep`. A piece ends at each `sep`
/// or at the end of `s`; a final `sep` starts no further piece, so an empty
/// text has no piece.
pub open spec fn pieces(s: Seq<u8>, sep: u8) -> Seq<Seq<u8>>
    decreases s.len(),
    via lemma_pieces_decreases
{
    if s.len() == 0 {
        seq![]
    } else {
        let i = index_of(s, sep) as int;
        if i < s.len() {
            seq![s.subrange(0, i)] + pieces(s.subrange(i + 1, s.len() as int), sep)
        } else {
            seq![s]
        }
    }
}

/// Returns the index of the first `b` in `s` at or after `from`, or the length
/// of `s` when there is none.
pub fn find_byte(s: &[u8], from: usize, b: u8) -> (r: usize)
    requires
        from <= s@.len(),
    ensures
        from <= r <= s@.len(),
        r == from + index_of(s@.subrange(from as int, s@.len() as int), b),
{
    let mut i: usize = from;
    while i < s.len() && s[i] != b
        invariant
            from <= i <= s@.len(),
            forall|j: int| from <= j < i ==> s@[j] != b,
        decreases s@.len() - i,
    {
        i = i + 1;
    }
    proof {
        lemma_index_of(s@.subrange(from as int, s@.len() as int), b, i - from);
    }
    i
}

/// Returns where each piece of `s` between occurrences of `sep` starts and
/// ends.
pub fn split_pieces(s: &[u8], sep: u8) -> (r: Vec<(usize, usize)>)
    ensures
        r@.len() == pieces(s@, sep).len(),
        forall|k: int|
            0 <= k < r@.len() ==> {
                &&& (#[trigger] r@[k]).0 <= r@[k].1 <= s@.len()
                &&& s@.subrange(r@[k].0 as int, r@[k].1 as int) == pieces(s@, sep)[k]
            },
{
    let ghost t = s@;
    let n = s.len();
    let mut bounds: Vec<(usize, usize)> = Vec::new();
    let ghost mut done: Seq<Seq<u8>> = seq![];
    let mut pos: usize = 0;
    assert(t.subrange(0, n as int) =~= t);
    while pos < n
        invariant
            t == s@,
            n == t.len(),
            pos <= n,
            bounds@.len() == done.len(),
            forall|k: int|
                0 <= k < bounds@.len() ==> {
                    &&& (#[trigger] bounds@[k]).0 <= bounds@[k].1 <= n
                    &&& t.subrange(bounds@[k].0 as int, bounds@[k].1 as int) == done[k]
                },
            pieces(t, sep) == done + pieces(t.subrange(pos as int, n as int), sep),
        decreases n - pos,
    {
        let end = find_byte(s, pos, sep);
        let ghost rest = t.subrange(pos as int, n as int);
        proof {
            lemma_index_of_bound(rest, sep);
            let ps = pieces(rest, sep);
            assert(rest.subrange(0, end - pos) =~= t.subrange(pos as int, end as int));
            if end < n {
                assert(rest.subrange(end - pos + 1, rest.len() as int) =~= t.subrange(
                    end + 1,
                    n as int,
                ));
                assert(done + ps =~= done.push(t.subrange(pos as int, end as int)) + pieces(
                    t.subrange(end + 1, n as int),
                    sep,
                ));
            } else {
                assert(t.subrange(n as int, n as int) =~= Seq::<u8>::empty());
                assert(done + ps =~= done.push(t.subrange(pos as int, end as int)) + pieces(
                    t.subrange(n as int, n as int),
                    sep,
                ));
            }
            done = done.push(t.subrange(pos as int, end as int));
        }
        bounds.push((pos, end));
        pos = if end == n { n } else { end + 1 };
    }
    proof {
        assert(t.subrange(n as int, n as int) =~= Seq::<u8>::empty());
        assert(done + seq![] =~= done);
    }
    bounds
}

/// Space, tab, line feed, vertical tab, form feed and carriage return.
pub open spec fn is_space(b: u8) -> bool {
    b == 0x20 || (0x09 <= b && b <= 0x0d)
}

/// `s` without its leading spaces.
pub open spec fn trim_start(s: Seq<u8>) -> Seq<u8>
    decreases s.len(),
{
    if s.len() > 0 && is_space(s[0]) {
        trim_start(s.drop_first())
    } else {
        s
    }
}

/// `s` without its trailing spaces.
pub open spec fn trim_end(s: Seq<u8>) -> Seq<u8>
    decreases s.len(),
{
    if s.len() > 0 && is_space(s.last()) {
        trim_end(s.drop_last())
    } else {
        s
    }
}

/// `s` without its leading and trailing spaces.
pub open spec fn trim(s: Seq<u8>) -> Seq<u8> {
    trim_end(trim_start(s))
}

proof fn lemma_trim_start(s: Seq<u8>, a: int)
    requires
        0 <= a <= s.len(),
        forall|i: int| 0 <= i < a ==> is_space(s[i]),
        a == s.len() || !is_space(s[a]),
    ensures
        trim_start(s) == s.subrange(a, s.len() as int),
    decreases a,
{
    if a > 0 {
        assert(forall|i: int| 0 <= i < a - 1 ==> s.drop_first()[i] == s[i + 1]);
        lemma_trim_start(s.drop_first(), a - 1);
        assert(s.drop_first().subrange(a - 1, s.len() - 1) =~= s.subrange(a, s.len() as int));
    } else {
        assert(s.subrange(0, s.len() as int) =~= s);
    }
}

proof fn lemma_trim_end(s: Seq<u8>, e: int)
    requires
        0 <= e <= s.len(),
        forall|i: int| e <= i < s.len() ==> is_space(s[i]),
        e == 0 || !is_space(s[e - 1]),
    ensures
        trim_end(s) == s.subrange(0, e),
    decreases s.len() - e,
{
    if e < s.len() {
        lemma_trim_end(s.drop_last(), e);
        assert(s.drop_last().subrange(0, e) =~= s.subrange(0, e));
    } else {
        assert(s.subrange(0, e) =~= s);
    }
}

/// Returns `s` without its leading and trailing spaces.
pub fn trim_spaces(s: &[u8]) -> (r: &[u8])
    ensures
        r@ == trim(s@),
{
    let n = s.len();
    let mut a: usize = 0;
    while a < n && (s[a] == 0x20 || (0x09 <= s[a] && s[a] <= 0x0d))
        invariant
            n == s@.len(),
            a <= n,
            forall|i: int| 0 <= i < a ==> is_space(s@[i]),
        decreases n - a,
    {
        a = a + 1;
    }
    let mut e: usize = n;
    while e > a && (s[e - 1] == 0x20 || (0x09 <= s[e - 1] && s[e - 1] <= 0x0d))
        invariant
            n == s@.len(),
            a <= e <= n,
            forall|i: int| e <= i < n ==> is_space(s@[i]),
        decreases e - a,
    {
        e = e - 1;
    }
    proof {
        lemma_trim_start(s@, a as int);
        let t = s@.subrange(a as int, n as int);
        lemma_trim_end(t, e - a);
        assert(t.subrange(0, e - a) =~= s@.subrange(a as int, e as int));
    }
    &s[a..e]
}

/// The byte is an ASCII decimal digit.
pub open spec fn is_digit(b: u8) -> bool {
    0x30 <= b && b <= 0x39
}

/// Every byte of `s` is a decimal digit.
pub open spec fn all_digits(s: Seq<u8>) -> bool {
    forall|i: int| 0 <= i < s.len() ==> is_digit(#[trigger] s[i])
}

/// The number that the decimal digits `s` write, most significant first.
pub open spec fn decimal_value(s: Seq<u8>) -> nat
    decreases s.len(),
{
    if s.len() == 0 {
        0
    } else {
        decimal_value(s.drop_last()) * 10 + (s.last() - 0x30) as nat
    }
}

/// The number that the digits `s` write, when they are digits and the number
/// fits a `usize`.
pub open spec fn decimal_usize(s: Seq<u8>) -> Option<usize> {
    if s.len() > 0 && all_digits(s) && decimal_value(s) <= usize::MAX {
        Some(decimal_value(s) as usize)
    } else {
        None
    }
}

/// A prefix of digits writes no more than the whole.
proof fn lemma_decimal_prefix(s: Seq<u8>, i: int)
    requires
        0 <= i <= s.len(),
        all_digits(s),
    ensures
        decimal_value(s.subrange(0, i)) <= decimal_value(s),
    decreases s.len(),
{
    if i < s.len() {
        let d = s.drop_last();
        assert(d.subrange(0, i) =~= s.subrange(0, i));
        assert(all_digits(d));
        lemma_decimal_prefix(d, i);
    } else {
        assert(s.subrange(0, i) =~= s);
    }
}

/// Reads the decimal number that `s` writes: `None` when `s` is empty, holds a
/// byte that is not a digit, or writes a number over `usize::MAX`.
pub fn parse_decimal(s: &[u8]) -> (r: Option<usize>)
    ensures
        r == decimal_usize(s@),
{
    let n = s.len();
    if n == 0 {
        return None;
    }
    let mut value: usize = 0;
    let mut i: usize = 0;
    while i < n
        invariant
            n == s@.len(),
            i <= n,
            all_digits(s@.subrange(0, i as int)),
            value == decimal_value(s@.subrange(0, i as int)),
        decreases n - i,
    {
        let b = s[i];
        proof {
            assert(s@.subrange(0, i + 1).drop_last() =~= s@.subrange(0, i as int));
        }
        if b < 0x30 || b > 0x39 {
            assert(!is_digit(s@[i as int]));
            return None;
        }
        match value.checked_mul(10) {
            Some(m) => match m.checked_add((b - 0x30) as usize) {
                Some(v) => {
                    value = v;
                },
                None => {
                    proof {
                        if all_digits(s@) {
                            lemma_decimal_prefix(s@, i + 1);
                        }
                    }
                    return None;
                },
            },
            None => {
                proof {
                    if all_digits(s@) {
                        lemma_decimal_prefix(s@, i + 1);
                    }
                }
                return None;
            },
        }
        i = i + 1;
    }
    assert(s@.subrange(0, n as int) =~= s@);
    Some(value)
}

/// Ten to the power `e`.
pub open spec fn pow10(e: nat) -> nat
    decreases e,
{
    if e == 0 {
        1
    } else {
        10 * pow10((e - 1) as nat)
    }
}

pub proof fn lemma_pow10_positive(e: nat)
    ensures
        pow10(e) >= 1,
    decreases e,
{
    if e > 0 {
        lemma_pow10_positive((e - 1) as nat);
    }
}

pub proof fn lemma_pow10_add(a: nat, b: nat)
    ensures
        pow10(a + b) == pow10(a) * pow10(b),
    decreases b,
{
    if b > 0 {
        let b1 = (b - 1) as nat;
        lemma_pow10_add(a, b1);
        let (pa, pb) = (pow10(a) as int, pow10(b1) as int);
        assert(pow10(a + b1) == pa * pb);
        assert(a + b == (a + b1) + 1);
        assert(pow10(a + b) == 10 * pow10(a + b1));
        assert(pow10(b) == 10 * pb);
        assert(10 * (pa * pb) == pa * (10 * pb)) by (nonlinear_arith);
    } else {
        assert(pow10(0) == 1);
        assert(a + b == a);
    }
}

pub proof fn lemma_pow10_strict(a: nat, b: nat)
    requires
        a < b,
    ensures
        pow10(a) < pow10(b),
    decreases b,
{
    lemma_pow10_positive(a);
    if a < (b - 1) as nat {
        lemma_pow10_strict(a, (b - 1) as nat);
    }
}

} // verus!
