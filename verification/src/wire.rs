use vstd::prelude::*;

verus! {

/// Two hundred and fifty-six to the power of `n`.
pub open spec fn pow256(n: nat) -> nat
    decreases n,
{
    if n == 0 {
        1
    } else {
        256 * pow256((n - 1) as nat)
    }
}

/// The `width` bytes that stand for `value`, the least significant first.
pub open spec fn encode_uint(value: nat, width: nat) -> Seq<u8>
    decreases width,
{
    if width == 0 {
        Seq::empty()
    } else {
        seq![(value % 256) as u8] + encode_uint(value / 256, (width - 1) as nat)
    }
}

/// The number that bytes stand for, the least significant first.
pub open spec fn decode_uint(bytes: Seq<u8>) -> nat
    decreases bytes.len(),
{
    if bytes.len() == 0 {
        0
    } else {
        bytes[0] as nat + 256 * decode_uint(bytes.skip(1))
    }
}

/// The powers of 256 that bound the unsigned integer types.
pub proof fn lemma_pow256_values()
    ensures
        pow256(0) == 1,
        pow256(1) == 0x100,
        pow256(4) == 0x1_0000_0000,
        pow256(8) == 0x1_0000_0000_0000_0000,
        pow256(16) == 0x1_0000_0000_0000_0000_0000_0000_0000_0000,
{
    assert(pow256(0) == 1);
    assert(pow256(1) == 0x100);
    assert(pow256(2) == 0x1_0000);
    assert(pow256(3) == 0x100_0000);
    assert(pow256(4) == 0x1_0000_0000);
    assert(pow256(5) == 0x100_0000_0000);
    assert(pow256(6) == 0x1_0000_0000_0000);
    assert(pow256(7) == 0x100_0000_0000_0000);
    assert(pow256(8) == 0x1_0000_0000_0000_0000);
    assert(pow256(9) == 0x100_0000_0000_0000_0000);
    assert(pow256(10) == 0x1_0000_0000_0000_0000_0000);
    assert(pow256(11) == 0x100_0000_0000_0000_0000_0000);
    assert(pow256(12) == 0x1_0000_0000_0000_0000_0000_0000);
    assert(pow256(13) == 0x100_0000_0000_0000_0000_0000_0000);
    assert(pow256(14) == 0x1_0000_0000_0000_0000_0000_0000_0000);
    assert(pow256(15) == 0x100_0000_0000_0000_0000_0000_0000_0000);
    assert(pow256(16) == 0x1_0000_0000_0000_0000_0000_0000_0000_0000);
}

/// An encoding has as many bytes as its width.
pub proof fn lemma_encode_uint_len(value: nat, width: nat)
    ensures
        encode_uint(value, width).len() == width,
    decreases width,
{
    if width > 0 {
        lemma_encode_uint_len(value / 256, (width - 1) as nat);
    }
}

/// A number that fits the width is decoded from its encoding.
pub proof fn lemma_uint_round_trip(value: nat, width: nat)
    requires
        value < pow256(width),
    ensures
        decode_uint(encode_uint(value, width)) == value,
    decreases width,
{
    if width > 0 {
        let rest = encode_uint(value / 256, (width - 1) as nat);
        let all = encode_uint(value, width);
        assert(all.skip(1) =~= rest);
        assert(all[0] == (value % 256) as u8);
        lemma_uint_round_trip(value / 256, (width - 1) as nat);
    }
}

/// What bytes stand for is less than 256 to the power of their number.
pub proof fn lemma_decode_uint_bound(bytes: Seq<u8>)
    ensures
        decode_uint(bytes) < pow256(bytes.len()),
    decreases bytes.len(),
{
    if bytes.len() > 0 {
        lemma_decode_uint_bound(bytes.skip(1));
    }
}

/// Appends the `width` bytes that stand for `value` to `out`.
pub fn put_uint(out: &mut Vec<u8>, value: u128, width: usize)
    ensures
        final(out)@ == old(out)@ + encode_uint(value as nat, width as nat),
{
    let mut rest: u128 = value;
    let mut i: usize = 0;
    proof {
        assert(old(out)@ + Seq::<u8>::empty() =~= old(out)@);
    }
    while i < width
        invariant
            i <= width,
            out@ + encode_uint(rest as nat, (width - i) as nat) == old(out)@ + encode_uint(
                value as nat,
                width as nat,
            ),
        decreases width - i,
    {
        let ghost before = out@;
        let byte = (rest % 256) as u8;
        out.push(byte);
        proof {
            let tail = encode_uint((rest / 256) as nat, (width - i - 1) as nat);
            assert(before.push(byte) + tail =~= before + (seq![byte] + tail));
        }
        rest = rest / 256;
        i += 1;
    }
    proof {
        assert(out@ + Seq::<u8>::empty() =~= out@);
    }
}

/// Reads the number that the `width` bytes of `bytes` from `at` on stand for.
/// There is none where that many bytes are not there.
pub fn get_uint(bytes: &[u8], at: usize, width: usize) -> (value: Option<u128>)
    requires
        width <= 16,
    ensures
        match value {
            Some(value) => at + width <= bytes@.len() && value == decode_uint(
                bytes@.subrange(at as int, at + width),
            ),
            None => at + width > bytes@.len(),
        },
{
    if at > bytes.len() || width > bytes.len() - at {
        return None;
    }
    let mut value: u128 = 0;
    let mut i: usize = width;
    proof {
        lemma_pow256_values();
        assert(bytes@.subrange(at + width, at + width) =~= Seq::<u8>::empty());
    }
    while i > 0
        invariant
            i <= width <= 16,
            at + width <= bytes.len(),
            value == decode_uint(bytes@.subrange(at + i, at + width)),
            value < pow256((width - i) as nat),
        decreases i,
    {
        let ghost tail = bytes@.subrange(at + i, at + width);
        i -= 1;
        let byte = bytes[at + i];
        proof {
            let next = bytes@.subrange(at + i, at + width);
            assert(next.skip(1) =~= tail);
            assert(next[0] == byte);
            lemma_pow256_bound((width - i - 1) as nat);
            lemma_decode_uint_bound(next);
        }
        value = value * 256 + byte as u128;
    }
    Some(value)
}

/// The powers of 256 up to the fifteenth are at most two to the power of
/// 120.
pub proof fn lemma_pow256_bound(n: nat)
    requires
        n <= 15,
    ensures
        pow256(n) <= 0x100_0000_0000_0000_0000_0000_0000_0000,
    decreases 15 - n,
{
    lemma_pow256_values();
    if n < 15 {
        lemma_pow256_bound(n + 1);
    } else {
        assert(pow256(15) == 0x100_0000_0000_0000_0000_0000_0000_0000) by {
            assert(pow256(16) == 256 * pow256(15));
        }
    }
}

} // verus!
