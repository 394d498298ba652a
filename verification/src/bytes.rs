//! Numbers as bytes, the most significant one first.
use vstd::prelude::*;

verus! {

/// The lowest `len` bytes of the number.
pub open spec fn to_be(value: nat, len: nat) -> Seq<u8>
    decreases len,
{
    if len == 0 {
        Seq::empty()
    } else {
        to_be(value / 256, (len - 1) as nat).push((value % 256) as u8)
    }
}

/// The number that the bytes stand for.
pub open spec fn be_value(bytes: Seq<u8>) -> nat
    decreases bytes.len(),
{
    if bytes.len() == 0 {
        0
    } else {
        be_value(bytes.drop_last()) * 256 + bytes.last() as nat
    }
}

/// How many numbers `len` bytes can stand for.
pub open spec fn pow256(len: nat) -> nat
    decreases len,
{
    if len == 0 {
        1
    } else {
        pow256((len - 1) as nat) * 256
    }
}

/// The values of `pow256` that the machine's integers need.
pub proof fn lemma_pow256()
    ensures
        pow256(4) == 0x1_0000_0000,
        pow256(8) == 0x1_0000_0000_0000_0000,
        pow256(16) == 0x1_0000_0000_0000_0000_0000_0000_0000_0000,
        pow256(32) > u128::MAX,
{
    reveal_with_fuel(pow256, 33);
}

/// More bytes stand for more numbers.
pub proof fn lemma_pow256_monotone(a: nat, b: nat)
    requires
        a <= b,
    ensures
        pow256(a) <= pow256(b),
    decreases b,
{
    if a < b {
        lemma_pow256_monotone(a, (b - 1) as nat);
    }
}

/// Writing a number as bytes and reading it back gives the number.
pub proof fn lemma_to_be(value: nat, len: nat)
    ensures
        to_be(value, len).len() == len,
        value < pow256(len) ==> be_value(to_be(value, len)) == value,
    decreases len,
{
    if len > 0 {
        lemma_to_be(value / 256, (len - 1) as nat);
        assert(to_be(value, len).drop_last() =~= to_be(value / 256, (len - 1) as nat));
    }
}

/// Reading bytes as a number and writing it back gives the bytes.
pub proof fn lemma_be_value(bytes: Seq<u8>)
    ensures
        be_value(bytes) < pow256(bytes.len()),
        to_be(be_value(bytes), bytes.len()) == bytes,
    decreases bytes.len(),
{
    if bytes.len() > 0 {
        lemma_be_value(bytes.drop_last());
        assert(to_be(be_value(bytes), bytes.len()) =~= bytes);
    } else {
        assert(to_be(be_value(bytes), 0) =~= bytes);
    }
}

/// The last bytes of a number.
pub proof fn lemma_to_be_suffix(value: nat, n: nat, m: nat)
    ensures
        to_be(value, n + m).skip(n as int) == to_be(value, m),
    decreases m,
{
    lemma_to_be(value, n + m);
    lemma_to_be(value, m);
    if m > 0 {
        lemma_to_be_suffix(value / 256, n, (m - 1) as nat);
        lemma_to_be(value / 256, (n + m - 1) as nat);
        assert(to_be(value, n + m).skip(n as int) =~= to_be(value / 256, (n + m - 1) as nat).skip(
            n as int,
        ).push((value % 256) as u8));
    } else {
        assert(to_be(value, n).skip(n as int) =~= Seq::empty());
    }
}

/// Bytes that are put together stand for the numbers put together.
pub proof fn lemma_be_value_join(a: Seq<u8>, b: Seq<u8>)
    ensures
        be_value(a + b) == be_value(a) * pow256(b.len()) + be_value(b),
    decreases b.len(),
{
    if b.len() == 0 {
        assert(a + b =~= a);
        assert(be_value(a) * 1 == be_value(a));
        assert(pow256(0) == 1);
    } else {
        let shorter = b.drop_last();
        lemma_be_value_join(a, shorter);
        assert((a + b).drop_last() =~= a + shorter);
        let high = be_value(a);
        let unit = pow256(shorter.len());
        assert(high * unit * 256 == high * (unit * 256)) by (nonlinear_arith);
        assert((a + b).last() == b.last());
        assert(pow256(b.len()) == unit * 256);
        assert(be_value(a + b) == (high * unit + be_value(shorter)) * 256 + b.last());
    }
}

/// One more byte behind the others makes their number 256 times as large and is added to it; no
/// bytes stand for zero.
pub proof fn law_value_of_bytes(bytes: Seq<u8>, last: u8)
    ensures
        be_value(Seq::empty()) == 0,
        be_value(bytes.push(last)) == 256 * be_value(bytes) + last,
{
    assert(bytes.push(last).drop_last() =~= bytes);
}

/// Whether the first word stands for a greater number than the second.
pub fn exceeds(a: &[u8; 32], b: &[u8; 32]) -> (r: bool)
    ensures
        r == (be_value(a@) > be_value(b@)),
{
    let (a_high, a_low) = (number_at(a.as_slice(), 0, 16), number_at(a.as_slice(), 16, 32));
    let (b_high, b_low) = (number_at(b.as_slice(), 0, 16), number_at(b.as_slice(), 16, 32));
    proof {
        lemma_pow256();
        lemma_be_value_join(a@.subrange(0, 16), a@.subrange(16, 32));
        lemma_be_value_join(b@.subrange(0, 16), b@.subrange(16, 32));
        assert(a@.subrange(0, 16) + a@.subrange(16, 32) =~= a@);
        assert(b@.subrange(0, 16) + b@.subrange(16, 32) =~= b@);
        assert(be_value(a@) == a_high * 0x1_0000_0000_0000_0000_0000_0000_0000_0000 + a_low);
        assert(be_value(b@) == b_high * 0x1_0000_0000_0000_0000_0000_0000_0000_0000 + b_low);
    }
    a_high > b_high || (a_high == b_high && a_low > b_low)
}

/// The number as a word.
pub fn word_of(value: u128) -> (r: [u8; 32])
    ensures
        r@ == to_be(value as nat, 32),
        be_value(r@) == value,
{
    let mut out: [u8; 32] = [0u8;32];
    let mut rest: u128 = value;
    let mut i: usize = 32;
    assert(out@.subrange(32, 32) =~= Seq::empty());
    while i > 0
        invariant
            i <= 32,
            to_be(value as nat, 32) == to_be(rest as nat, i as nat) + out@.subrange(i as int, 32),
        decreases i,
    {
        let ghost before = out@;
        i = i - 1;
        out[i] = (rest % 256) as u8;
        proof {
            lemma_to_be(rest as nat / 256, i as nat);
            assert(out@.subrange(i as int, 32) =~= seq![(rest % 256) as u8] + before.subrange(
                i as int + 1,
                32,
            ));
            assert(to_be(rest as nat, (i + 1) as nat) + before.subrange(i as int + 1, 32)
                =~= to_be(rest as nat / 256, i as nat) + out@.subrange(i as int, 32));
        }
        rest = rest / 256;
    }
    proof {
        assert(out@.subrange(0, 32) =~= out@);
        assert(to_be(rest as nat, 0) + out@ =~= out@);
        lemma_pow256();
        lemma_to_be(value as nat, 32);
    }
    out
}

/// The number that the bytes from `from` up to `to` stand for.
pub fn number_at(bytes: &[u8], from: usize, to: usize) -> (r: u128)
    requires
        from <= to <= bytes@.len(),
        to - from <= 16,
    ensures
        r == be_value(bytes@.subrange(from as int, to as int)),
        r < pow256((to - from) as nat),
{
    let mut value: u128 = 0;
    let mut i: usize = from;
    assert(bytes@.subrange(from as int, from as int) =~= Seq::empty());
    while i < to
        invariant
            from <= i <= to <= bytes@.len(),
            to - from <= 16,
            value == be_value(bytes@.subrange(from as int, i as int)),
        decreases to - i,
    {
        let ghost read = bytes@.subrange(from as int, i as int);
        let ghost more = bytes@.subrange(from as int, i as int + 1);
        proof {
            assert(more.drop_last() =~= read);
            lemma_be_value(more);
            lemma_pow256();
            lemma_pow256_monotone((i + 1 - from) as nat, 16);
        }
        value = value * 256 + bytes[i] as u128;
        i = i + 1;
    }
    proof {
        lemma_be_value(bytes@.subrange(from as int, to as int));
    }
    value
}

} // verus!
