//! The bit stream layer: bits are packed into bytes least significant bit first.

use vstd::prelude::*;

verus! {

/// Bit `t` (0 = least significant) of the byte `b`.
pub open spec fn byte_bit(b: u8, t: int) -> bool {
    (b >> (t as u8)) & 1u8 == 1u8
}

/// Bit `i` of the stream that `data` carries: bit `i % 8` of byte `i / 8`.
pub open spec fn bit_at(data: Seq<u8>, i: int) -> bool {
    byte_bit(data[i / 8], i % 8)
}

/// The whole bit stream that `data` carries.
pub open spec fn stream_bits(data: Seq<u8>) -> Seq<bool> {
    Seq::new((data.len() * 8) as nat, |i: int| bit_at(data, i))
}

/// `data` holds the bits of `s` in order, the last byte padded with zero bits.
pub open spec fn packs(data: Seq<u8>, s: Seq<bool>) -> bool {
    &&& data.len() == (s.len() + 7) / 8
    &&& forall|i: int| 0 <= i < data.len() * 8 ==> #[trigger] bit_at(data, i) == (i < s.len() && s[i])
}

proof fn lemma_set_bit(v: u8, j: u8, t: u8)
    requires
        j < 8,
        t < 8,
    ensures
        ((v | (1u8 << j)) >> t) & 1u8 == (if t == j { 1u8 } else { (v >> t) & 1u8 }),
{
    assert(((v | (1u8 << j)) >> t) & 1u8 == (if t == j { 1u8 } else { (v >> t) & 1u8 })) by (bit_vector)
        requires j < 8, t < 8;
}

proof fn lemma_zero_bits(t: u8)
    requires
        t < 8,
    ensures
        (0u8 >> t) & 1u8 == 0u8,
{
    assert((0u8 >> t) & 1u8 == 0u8) by (bit_vector);
}

/// Groups a bit sequence into bytes, the first bit of each group in bit 0.
pub fn pack_bits(bits: &Vec<bool>) -> (r: Vec<u8>)
    ensures
        packs(r@, bits@),
{
    let n = bits.len();
    let mut out: Vec<u8> = Vec::new();
    let mut cur: u8 = 0;
    let mut i: usize = 0;
    proof {
        assert forall|t: int| 0 <= t < 8 implies !byte_bit(cur, t) by {
            lemma_zero_bits(t as u8);
        }
    }
    while i < n
        invariant
            n == bits@.len(),
            i <= n,
            out@.len() == i / 8,
            forall|p: int| 0 <= p < out@.len() * 8 ==> #[trigger] bit_at(out@, p) == bits@[p],
            forall|t: int| 0 <= t < i % 8 ==> #[trigger] byte_bit(cur, t) == bits@[8 * (i / 8) + t],
            forall|t: int| i % 8 <= t < 8 ==> !#[trigger] byte_bit(cur, t),
        decreases n - i,
    {
        let j: u8 = (i % 8) as u8;
        let ghost old_cur = cur;
        if bits[i] {
            cur = cur | (1u8 << j);
        }
        proof {
            assert forall|t: int| 0 <= t < 8 implies #[trigger] byte_bit(cur, t) == (if t == j {
                bits@[i as int]
            } else {
                byte_bit(old_cur, t)
            }) by {
                lemma_set_bit(old_cur, j, t as u8);
            }
        }
        if j == 7 {
            let ghost old_out = out@;
            out.push(cur);
            proof {
                assert forall|p: int| 0 <= p < out@.len() * 8 implies #[trigger] bit_at(out@, p)
                    == bits@[p] by {
                    if p < old_out.len() * 8 {
                        assert(bit_at(old_out, p) == bits@[p]);
                        assert(out@[p / 8] == old_out[p / 8]);
                    } else {
                        assert(p / 8 == i / 8);
                        assert(out@[p / 8] == cur);
                    }
                }
            }
            cur = 0;
            proof {
                assert forall|t: int| 0 <= t < 8 implies !byte_bit(cur, t) by {
                    lemma_zero_bits(t as u8);
                }
            }
        }
        i = i + 1;
    }
    if n % 8 != 0 {
        let ghost old_out = out@;
        out.push(cur);
        proof {
            assert forall|p: int| 0 <= p < out@.len() * 8 implies #[trigger] bit_at(out@, p) == (p
                < n && bits@[p]) by {
                if p < old_out.len() * 8 {
                    assert(bit_at(old_out, p) == bits@[p]);
                    assert(out@[p / 8] == old_out[p / 8]);
                } else {
                    assert(p / 8 == n / 8);
                    assert(out@[p / 8] == cur);
                }
            }
        }
    }
    out
}

/// The bit stream of `data`, bit 0 of each byte first.
pub fn unpack_bits(data: &Vec<u8>) -> (r: Vec<bool>)
    ensures
        r@ == stream_bits(data@),
{
    let mut r: Vec<bool> = Vec::new();
    let mut k: usize = 0;
    while k < data.len()
        invariant
            k <= data@.len(),
            r@ == stream_bits(data@).take(8 * k as int),
        decreases data@.len() - k,
    {
        let b = data[k];
        let mut t: u8 = 0;
        while t < 8
            invariant
                t <= 8,
                k < data@.len(),
                b == data@[k as int],
                r@ == stream_bits(data@).take(8 * k + t),
            decreases 8 - t,
        {
            r.push((b >> t) & 1u8 == 1u8);
            proof {
                let i = 8 * k + t;
                assert(i / 8 == k && i % 8 == t);
                assert(stream_bits(data@)[i as int] == byte_bit(b, t as int));
                assert(r@ =~= stream_bits(data@).take(i + 1));
            }
            t = t + 1;
        }
        k = k + 1;
    }
    assert(stream_bits(data@).take(8 * k as int) =~= stream_bits(data@));
    r
}

/// Unpacking what `pack_bits` produced gives back the packed bits, followed only by padding.
pub proof fn lemma_pack_unpack(s: Seq<bool>, data: Seq<u8>)
    requires
        packs(data, s),
    ensures
        stream_bits(data).take(s.len() as int) == s,
        forall|i: int| s.len() <= i < data.len() * 8 ==> !#[trigger] bit_at(data, i),
{
    assert(stream_bits(data).take(s.len() as int) =~= s);
}

} // verus!
