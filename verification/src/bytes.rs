//! Integers as bytes.
use vstd::arithmetic::div_mod::lemma_div_denominator;
use vstd::arithmetic::power::{lemma_pow0, lemma_pow_positive, pow};
use vstd::prelude::*;

verus! {

/// The `count` low bytes of `value`, least significant first.
pub open spec fn le_bytes(value: nat, count: nat) -> Seq<u8>
    decreases count,
{
    if count == 0 {
        Seq::empty()
    } else {
        seq![(value % 256) as u8] + le_bytes(value / 256, (count - 1) as nat)
    }
}

/// The number that `bytes` are, least significant first.
pub open spec fn from_le(bytes: Seq<u8>) -> nat
    decreases bytes.len(),
{
    if bytes.len() == 0 {
        0
    } else {
        bytes[0] as nat + 256 * from_le(bytes.drop_first())
    }
}

/// The `count` low bytes of `value`, most significant first.
pub open spec fn be_bytes(value: nat, count: nat) -> Seq<u8> {
    le_bytes(value, count).reverse()
}

/// 256 to the power of `count`.
pub open spec fn span(count: nat) -> nat
    decreases count,
{
    if count == 0 {
        1
    } else {
        256 * span((count - 1) as nat)
    }
}

/// The widths in use.
pub proof fn lemma_spans()
    ensures
        span(2) == 0x1_0000,
        span(4) == 0x1_0000_0000,
        span(8) == 0x1_0000_0000_0000_0000,
        span(16) == 0x1_0000_0000_0000_0000_0000_0000_0000_0000,
{
    reveal_with_fuel(span, 17);
}

pub proof fn lemma_le_len(value: nat, count: nat)
    ensures
        le_bytes(value, count).len() == count,
    decreases count,
{
    if count > 0 {
        lemma_le_len(value / 256, (count - 1) as nat);
    }
}

/// What is written is what is read.
pub proof fn lemma_le_round_trip(value: nat, count: nat)
    requires
        value < span(count),
    ensures
        from_le(le_bytes(value, count)) == value,
        le_bytes(value, count).len() == count,
    decreases count,
{
    lemma_le_len(value, count);
    if count > 0 {
        let rest = le_bytes(value / 256, (count - 1) as nat);
        assert(value / 256 < span((count - 1) as nat));
        lemma_le_round_trip(value / 256, (count - 1) as nat);
        assert(le_bytes(value, count).drop_first() =~= rest);
    }
}

/// What is read is what was written.
/// Byte `i` of a number is its digit of that place, to the base of 256.
pub proof fn law_le_digit(value: nat, count: nat, i: nat)
    requires
        i < count,
    ensures
        le_bytes(value, count).len() == count,
        le_bytes(value, count)[i as int] as int == (value as int / pow(256, i)) % 256,
    decreases count,
{
    reveal(pow);
    lemma_le_len(value, count);
    lemma_pow0(256);
    if i > 0 {
        let rest = (count - 1) as nat;
        let j = (i - 1) as nat;
        lemma_le_len(value / 256, rest);
        law_le_digit(value / 256, rest, j);
        lemma_pow_positive(256, j);
        assert(pow(256, i) == 256 * pow(256, j));
        lemma_div_denominator(value as int, 256, pow(256, j));
        assert(le_bytes(value, count)[i as int] == le_bytes(value / 256, rest)[j as int]);
    }
}

/// The number that bytes are is the sum of its digits: one more byte adds its digit at its
/// place.
pub proof fn law_from_le_digit(bytes: Seq<u8>, last: u8)
    ensures
        from_le(Seq::empty()) == 0,
        from_le(bytes.push(last)) == from_le(bytes) + last as nat * pow(256, bytes.len()),
    decreases bytes.len(),
{
    reveal(pow);
    lemma_pow0(256);
    let longer = bytes.push(last);
    if bytes.len() == 0 {
        assert(longer.drop_first() =~= Seq::empty());
        assert(from_le(longer.drop_first()) == 0);
        assert(longer[0] == last);
    } else {
        let rest = bytes.drop_first();
        law_from_le_digit(rest, last);
        assert(longer.drop_first() =~= rest.push(last));
        let place = pow(256, rest.len());
        assert(pow(256, bytes.len()) == 256 * place);
        assert(256 * (from_le(rest) + last as nat * place) == 256 * from_le(rest) + last as nat * (
        256 * place)) by (nonlinear_arith);
    }
}

pub proof fn lemma_le_unique(bytes: Seq<u8>)
    ensures
        from_le(bytes) < span(bytes.len()),
        le_bytes(from_le(bytes), bytes.len()) == bytes,
    decreases bytes.len(),
{
    if bytes.len() > 0 {
        let rest = bytes.drop_first();
        lemma_le_unique(rest);
        let value = from_le(bytes);
        assert(value % 256 == bytes[0] as nat);
        assert(value / 256 == from_le(rest));
        assert(le_bytes(value, bytes.len()) =~= bytes);
    } else {
        assert(le_bytes(from_le(bytes), bytes.len()) =~= bytes);
    }
}

/// Writes the `count` low bytes of `value` at `at`, least significant first.
pub fn put_le(output: &mut [u8], at: usize, value: u128, count: usize)
    requires
        at + count <= old(output)@.len(),
    ensures
        final(output)@ == old(output)@.subrange(0, at as int) + le_bytes(value as nat, count as nat)
            + old(output)@.subrange(at + count, old(output)@.len() as int),
{
    let ghost before = output@;
    let total = output.len();
    let ghost all = le_bytes(value as nat, count as nat);
    let mut rest: u128 = value;
    let mut index: usize = 0;
    proof {
        lemma_le_len(value as nat, count as nat);
    }
    while index < count
        invariant
            at + count <= before.len(),
            before.len() == total,
            output@.len() == before.len(),
            index <= count,
            all == le_bytes(value as nat, count as nat),
            all.len() == count,
            all.subrange(index as int, count as int) == le_bytes(
                rest as nat,
                (count - index) as nat,
            ),
            forall|i: int| 0 <= i < before.len() && !(at <= i < at + index) ==> output@[i] == before[i],
            forall|i: int| 0 <= i < index ==> output@[at + i] == all[i],
        decreases count - index,
    {
        let byte = (rest % 256) as u8;
        proof {
            let tail = all.subrange(index as int, count as int);
            assert(tail[0] == byte);
            assert(all[index as int] == byte);
            assert(all.subrange(index + 1, count as int) =~= tail.drop_first());
            assert(tail.drop_first() =~= le_bytes((rest / 256) as nat, (count - index - 1) as nat));
        }
        output[at + index] = byte;
        rest = rest / 256;
        index += 1;
    }
    assert(output@ =~= before.subrange(0, at as int) + all + before.subrange(
        at + count,
        before.len() as int,
    ));
}

/// Reads `count` bytes at `at`, least significant first.
pub fn get_le(input: &[u8], at: usize, count: usize) -> (value: u128)
    requires
        at + count <= input@.len(),
        count <= 16,
    ensures
        value == from_le(input@.subrange(at as int, at + count)),
{
    let ghost part = input@.subrange(at as int, at + count);
    let total = input.len();
    let mut value: u128 = 0;
    let mut left: usize = count;
    proof {
        assert(part.subrange(count as int, count as int) =~= Seq::empty());
    }
    while left > 0
        invariant
            at + count <= input@.len(),
            input@.len() == total,
            count <= 16,
            part == input@.subrange(at as int, at + count),
            left <= count,
            value == from_le(part.subrange(left as int, count as int)),
        decreases left,
    {
        left -= 1;
        proof {
            let tail = part.subrange(left as int, count as int);
            assert(tail.drop_first() =~= part.subrange(left + 1, count as int));
            assert(tail[0] == input@[at + left]);
            lemma_le_unique(tail);
            lemma_span_mono(tail.len(), 16);
            lemma_spans();
        }
        value = input[at + left] as u128 + 256 * value;
    }
    assert(part.subrange(0, count as int) =~= part);
    value
}

pub proof fn lemma_span_mono(a: nat, b: nat)
    requires
        a <= b,
    ensures
        1 <= span(a) <= span(b),
    decreases b,
{
    if a < b {
        lemma_span_mono(a, (b - 1) as nat);
    } else if a > 0 {
        lemma_span_mono((a - 1) as nat, (a - 1) as nat);
    }
}

/// Copies `source` to `at`.
pub fn put_bytes(output: &mut [u8], at: usize, source: &[u8])
    requires
        at + source@.len() <= old(output)@.len(),
    ensures
        final(output)@ == old(output)@.subrange(0, at as int) + source@ + old(output)@.subrange(
            at + source@.len(),
            old(output)@.len() as int,
        ),
{
    let ghost before = output@;
    let total = output.len();
    let mut index: usize = 0;
    while index < source.len()
        invariant
            at + source@.len() <= before.len(),
            before.len() == total,
            output@.len() == before.len(),
            index <= source@.len(),
            forall|i: int| 0 <= i < before.len() && !(at <= i < at + index) ==> output@[i] == before[i],
            forall|i: int| 0 <= i < index ==> output@[at + i] == source@[i],
        decreases source@.len() - index,
    {
        output[at + index] = source[index];
        index += 1;
    }
    assert(output@ =~= before.subrange(0, at as int) + source@ + before.subrange(
        at + source@.len(),
        before.len() as int,
    ));
}

/// Bytes that are written one part after the other line up.
pub proof fn lemma_next_part(
    before: Seq<u8>,
    written: Seq<u8>,
    part: Seq<u8>,
    now: Seq<u8>,
    after: Seq<u8>,
)
    requires
        now == written + before.subrange(written.len() as int, before.len() as int),
        written.len() + part.len() <= before.len(),
        after == now.subrange(0, written.len() as int) + part + now.subrange(
            (written.len() + part.len()) as int,
            now.len() as int,
        ),
    ensures
        after == (written + part) + before.subrange(
            (written + part).len() as int,
            before.len() as int,
        ),
        after.len() == before.len(),
{
    assert(after =~= (written + part) + before.subrange(
        (written + part).len() as int,
        before.len() as int,
    ));
}

} // verus!
