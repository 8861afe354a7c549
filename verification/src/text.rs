//! Numbers as decimal text, the way they stand in a chunk's backing file.

use vstd::prelude::*;

verus! {

/// The byte of the decimal digit `d`.
pub open spec fn digit(d: int) -> u8
    recommends
        0 <= d < 10,
{
    ('0' as u8 + d) as u8
}

/// Whether `b` is the byte of a decimal digit.
pub open spec fn is_digit(b: u8) -> bool {
    '0' as u8 <= b <= '9' as u8
}

/// The decimal text of `n`: no sign, and no leading zero but for zero itself.
pub open spec fn nat_text(n: nat) -> Seq<u8>
    decreases n,
{
    if n < 10 {
        seq![digit(n as int)]
    } else {
        nat_text(n / 10).push(digit((n % 10) as int))
    }
}

/// The decimal text of `v`: a minus sign before the digits of a negative number.
pub open spec fn int_text(v: int) -> Seq<u8> {
    if v < 0 {
        seq!['-' as u8] + nat_text((-v) as nat)
    } else {
        nat_text(v as nat)
    }
}

/// The number that the digits `s` spell, the first digit counting most.
pub open spec fn digits_value(s: Seq<u8>) -> nat
    decreases s.len(),
{
    if s.len() == 0 {
        0
    } else {
        (digits_value(s.drop_last()) * 10 + (s.last() - '0' as u8)) as nat
    }
}

/// Whether every byte of `s` is a digit.
pub open spec fn all_digits(s: Seq<u8>) -> bool {
    forall|i: int| 0 <= i < s.len() ==> is_digit(#[trigger] s[i])
}

/// The text of a number is made of digits, at least one, and spells the number.
pub proof fn lemma_nat_text(n: nat)
    ensures
        nat_text(n).len() >= 1,
        all_digits(nat_text(n)),
        digits_value(nat_text(n)) == n,
    decreases n,
{
    if n < 10 {
        let s = nat_text(n);
        assert(s.drop_last() =~= Seq::<u8>::empty());
        assert(digits_value(s.drop_last()) == 0);
    } else {
        lemma_nat_text(n / 10);
        let head = nat_text(n / 10);
        let s = head.push(digit((n % 10) as int));
        assert(s.drop_last() =~= head);
        assert forall|i: int| 0 <= i < s.len() implies is_digit(#[trigger] s[i]) by {
            if i < head.len() {
                assert(s[i] == head[i]);
            }
        }
    }
}

/// The text of a whole number starts with a digit or with the minus sign,
/// and all that follows the sign are digits.
pub proof fn lemma_int_text(v: int)
    ensures
        int_text(v).len() >= 1,
        v >= 0 ==> int_text(v) == nat_text(v as nat),
        v < 0 ==> int_text(v)[0] == '-' as u8 && int_text(v).subrange(1, int_text(v).len() as int)
            == nat_text((-v) as nat),
{
    if v < 0 {
        lemma_nat_text((-v) as nat);
        assert(int_text(v).subrange(1, int_text(v).len() as int) =~= nat_text((-v) as nat));
    } else {
        lemma_nat_text(v as nat);
    }
}

/// Writes the decimal text of `n` at the end of `out`.
pub fn push_nat(out: &mut Vec<u8>, n: u64)
    ensures
        final(out)@ == old(out)@ + nat_text(n as nat),
    decreases n,
{
    if n >= 10 {
        push_nat(out, n / 10);
    }
    let d: u8 = (n % 10) as u8;
    out.push('0' as u8 + d);
    assert(final(out)@ =~= old(out)@ + nat_text(n as nat));
}

/// Writes the decimal text of `v` at the end of `out`.
pub fn push_int(out: &mut Vec<u8>, v: i32)
    ensures
        final(out)@ == old(out)@ + int_text(v as int),
{
    if v < 0 {
        out.push('-' as u8);
        let n: u64 = (-(v as i64)) as u64;
        push_nat(out, n);
        assert(final(out)@ =~= old(out)@ + int_text(v as int));
    } else {
        push_nat(out, v as u64);
    }
}

/// The end of the digits that start at `start`: the first place from there
/// on that holds no digit, or the end of `bytes`.
pub open spec fn digits_end(bytes: Seq<u8>, start: int) -> int
    decreases bytes.len() - start,
{
    if 0 <= start < bytes.len() && is_digit(bytes[start]) {
        digits_end(bytes, start + 1)
    } else {
        start
    }
}

/// `digits_end` stops at the first byte that is no digit.
pub proof fn lemma_digits_end(bytes: Seq<u8>, start: int)
    requires
        0 <= start <= bytes.len(),
    ensures
        start <= digits_end(bytes, start) <= bytes.len(),
        all_digits(bytes.subrange(start, digits_end(bytes, start))),
        digits_end(bytes, start) < bytes.len() ==> !is_digit(bytes[digits_end(bytes, start)]),
    decreases bytes.len() - start,
{
    if start < bytes.len() && is_digit(bytes[start]) {
        lemma_digits_end(bytes, start + 1);
        let end = digits_end(bytes, start);
        let run = bytes.subrange(start, end);
        let tail = bytes.subrange(start + 1, end);
        assert forall|i: int| 0 <= i < run.len() implies is_digit(#[trigger] run[i]) by {
            if i > 0 {
                assert(run[i] == tail[i - 1]);
            }
        }
    }
}

/// Where digits are followed by something that is no digit, `digits_end`
/// is the end of those digits.
pub proof fn lemma_digits_end_of_text(bytes: Seq<u8>, start: int, digits: Seq<u8>, rest: Seq<u8>)
    requires
        0 <= start <= bytes.len(),
        bytes.subrange(start, bytes.len() as int) == digits + rest,
        all_digits(digits),
        rest.len() == 0 || !is_digit(rest[0]),
    ensures
        digits_end(bytes, start) == start + digits.len(),
        bytes.subrange(start, start + digits.len()) == digits,
        bytes.subrange(start + digits.len(), bytes.len() as int) == rest,
    decreases digits.len(),
{
    let tail = bytes.subrange(start, bytes.len() as int);
    assert(tail.len() == digits.len() + rest.len());
    assert(bytes.subrange(start, start + digits.len()) =~= digits) by {
        assert forall|i: int| 0 <= i < digits.len() implies bytes[start + i] == digits[i] by {
            assert(tail[i] == digits[i]);
        }
    }
    assert(bytes.subrange(start + digits.len(), bytes.len() as int) =~= rest) by {
        assert forall|i: int| 0 <= i < rest.len() implies bytes[start + digits.len() + i]
            == rest[i] by {
            assert(tail[digits.len() + i] == rest[i]);
        }
    }
    if digits.len() == 0 {
        if rest.len() > 0 {
            assert(tail[0] == rest[0]);
        }
    } else {
        assert(tail[0] == digits[0]);
        assert(is_digit(digits[0]));
        let less = digits.subrange(1, digits.len() as int);
        assert(bytes.subrange(start + 1, bytes.len() as int) =~= less + rest) by {
            assert forall|i: int| 0 <= i < less.len() + rest.len() implies bytes[start + 1 + i] == (
            less + rest)[i] by {
                assert(tail[1 + i] == (digits + rest)[1 + i]);
            }
        }
        assert forall|i: int| 0 <= i < less.len() implies is_digit(#[trigger] less[i]) by {
            assert(less[i] == digits[i + 1]);
        }
        lemma_digits_end_of_text(bytes, start + 1, less, rest);
    }
}

/// A number's text followed by something that is no digit can be read in
/// one way only.
pub proof fn lemma_nat_text_unique(n1: nat, rest1: Seq<u8>, n2: nat, rest2: Seq<u8>)
    requires
        nat_text(n1) + rest1 == nat_text(n2) + rest2,
        rest1.len() == 0 || !is_digit(rest1[0]),
        rest2.len() == 0 || !is_digit(rest2[0]),
    ensures
        n1 == n2,
        rest1 == rest2,
{
    let bytes = nat_text(n1) + rest1;
    lemma_nat_text(n1);
    lemma_nat_text(n2);
    assert(bytes.subrange(0, bytes.len() as int) =~= bytes);
    lemma_digits_end_of_text(bytes, 0, nat_text(n1), rest1);
    lemma_digits_end_of_text(bytes, 0, nat_text(n2), rest2);
}

/// The text of a whole number followed by something that is no digit can be
/// read in one way only.
pub proof fn lemma_int_text_unique(v1: int, rest1: Seq<u8>, v2: int, rest2: Seq<u8>)
    requires
        int_text(v1) + rest1 == int_text(v2) + rest2,
        rest1.len() == 0 || !is_digit(rest1[0]),
        rest2.len() == 0 || !is_digit(rest2[0]),
    ensures
        v1 == v2,
        rest1 == rest2,
{
    let bytes = int_text(v1) + rest1;
    lemma_int_text(v1);
    lemma_int_text(v2);
    assert(bytes[0] == int_text(v1)[0]);
    assert(bytes[0] == int_text(v2)[0]);
    if v1 < 0 {
        lemma_nat_text((-v1) as nat);
        if v2 >= 0 {
            lemma_nat_text(v2 as nat);
            assert(is_digit(nat_text(v2 as nat)[0]));
        } else {
            lemma_nat_text((-v2) as nat);
            let less = bytes.subrange(1, bytes.len() as int);
            assert(less =~= nat_text((-v1) as nat) + rest1);
            assert(less =~= nat_text((-v2) as nat) + rest2);
            lemma_nat_text_unique((-v1) as nat, rest1, (-v2) as nat, rest2);
        }
    } else {
        lemma_nat_text(v1 as nat);
        assert(is_digit(nat_text(v1 as nat)[0]));
        if v2 >= 0 {
            lemma_nat_text_unique(v1 as nat, rest1, v2 as nat, rest2);
        }
    }
}

/// Reads the digits that start at `start` and hands back their end and the
/// number they spell, or no number where it is more than `u32::MAX`. Where
/// no digit stands at `start`, the end is `start` and the number is 0.
pub fn read_digits(bytes: &[u8], start: usize) -> (out: (usize, Option<u32>))
    requires
        start <= bytes@.len(),
    ensures
        out.0 == digits_end(bytes@, start as int),
        start <= out.0 <= bytes@.len(),
        out.1 == if digits_value(bytes@.subrange(start as int, out.0 as int)) <= u32::MAX {
            Some(digits_value(bytes@.subrange(start as int, out.0 as int)) as u32)
        } else {
            None
        },
{
    let n: usize = bytes.len();
    let mut i: usize = start;
    let mut value: u64 = 0;
    let mut fits: bool = true;
    proof {
        assert(bytes@.subrange(start as int, start as int) =~= Seq::<u8>::empty());
    }
    while i < n && bytes[i] >= '0' as u8 && bytes[i] <= '9' as u8
        invariant
            n == bytes@.len(),
            start <= i <= n,
            digits_end(bytes@, start as int) == digits_end(bytes@, i as int),
            all_digits(bytes@.subrange(start as int, i as int)),
            fits ==> value == digits_value(bytes@.subrange(start as int, i as int)) && value
                <= u32::MAX,
            !fits ==> digits_value(bytes@.subrange(start as int, i as int)) > u32::MAX,
        decreases n - i,
    {
        let d: u64 = (bytes[i] - '0' as u8) as u64;
        proof {
            let run = bytes@.subrange(start as int, i as int);
            let more = bytes@.subrange(start as int, i as int + 1);
            assert(more.drop_last() =~= run);
            assert(more.last() == bytes@[i as int]);
            assert forall|k: int| 0 <= k < more.len() implies is_digit(#[trigger] more[k]) by {
                if k < run.len() {
                    assert(more[k] == run[k]);
                }
            }
        }
        if fits {
            value = value * 10 + d;
            if value > u32::MAX as u64 {
                fits = false;
            }
        }
        i += 1;
    }
    if fits {
        (i, Some(value as u32))
    } else {
        (i, None)
    }
}

} // verus!
