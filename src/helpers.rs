//! Bit sequences as numbers, in both bit orders.

use vstd::prelude::*;

verus! {

/// `2^n`.
pub open spec fn pow2(n: nat) -> nat
    decreases n,
{
    if n == 0 { 1 } else { 2 * pow2((n - 1) as nat) }
}

pub open spec fn bit_val(b: bool) -> nat {
    if b { 1 } else { 0 }
}

/// The number that `s` spells when read most significant bit first.
pub open spec fn msb_val(s: Seq<bool>) -> nat
    decreases s.len(),
{
    if s.len() == 0 { 0 } else { 2 * msb_val(s.drop_last()) + bit_val(s.last()) }
}

/// The number that `s` spells when read least significant bit first.
pub open spec fn lsb_val(s: Seq<bool>) -> nat
    decreases s.len(),
{
    if s.len() == 0 { 0 } else { bit_val(s[0]) + 2 * lsb_val(s.skip(1)) }
}

/// The `n` low bits of `v`, most significant first.
pub open spec fn msb_bits(v: nat, n: nat) -> Seq<bool>
    decreases n,
{
    if n == 0 { Seq::empty() } else { msb_bits(v / 2, (n - 1) as nat).push(v % 2 == 1) }
}

/// The `n` low bits of `v`, least significant first.
pub open spec fn lsb_bits(v: nat, n: nat) -> Seq<bool>
    decreases n,
{
    if n == 0 { Seq::empty() } else { seq![v % 2 == 1] + lsb_bits(v / 2, (n - 1) as nat) }
}

pub proof fn lemma_pow2_pos(n: nat)
    ensures
        pow2(n) >= 1,
    decreases n,
{
    if n > 0 {
        lemma_pow2_pos((n - 1) as nat);
    }
}

pub proof fn lemma_pow2_le(a: nat, b: nat)
    requires
        a <= b,
    ensures
        pow2(a) <= pow2(b),
    decreases b,
{
    if a < b {
        lemma_pow2_le(a, (b - 1) as nat);
        lemma_pow2_pos((b - 1) as nat);
    }
}

pub proof fn lemma_msb_bits_len(v: nat, n: nat)
    ensures
        msb_bits(v, n).len() == n,
    decreases n,
{
    if n > 0 {
        lemma_msb_bits_len(v / 2, (n - 1) as nat);
    }
}

pub proof fn lemma_lsb_bits_len(v: nat, n: nat)
    ensures
        lsb_bits(v, n).len() == n,
    decreases n,
{
    if n > 0 {
        lemma_lsb_bits_len(v / 2, (n - 1) as nat);
    }
}

/// Reading back the most-significant-first bits of a value that fits gives the value.
pub proof fn lemma_msb_round_trip(v: nat, n: nat)
    requires
        v < pow2(n),
    ensures
        msb_val(msb_bits(v, n)) == v,
    decreases n,
{
    if n > 0 {
        lemma_msb_round_trip(v / 2, (n - 1) as nat);
        assert(msb_bits(v, n).drop_last() =~= msb_bits(v / 2, (n - 1) as nat));
    }
}

/// Reading back the least-significant-first bits of a value that fits gives the value.
pub proof fn lemma_lsb_round_trip(v: nat, n: nat)
    requires
        v < pow2(n),
    ensures
        lsb_val(lsb_bits(v, n)) == v,
    decreases n,
{
    if n > 0 {
        lemma_lsb_round_trip(v / 2, (n - 1) as nat);
        assert(lsb_bits(v, n).skip(1) =~= lsb_bits(v / 2, (n - 1) as nat));
    }
}

pub proof fn lemma_msb_val_bound(s: Seq<bool>)
    ensures
        msb_val(s) < pow2(s.len()),
    decreases s.len(),
{
    if s.len() > 0 {
        lemma_msb_val_bound(s.drop_last());
    }
}

pub proof fn lemma_lsb_val_bound(s: Seq<bool>)
    ensures
        lsb_val(s) < pow2(s.len()),
    decreases s.len(),
{
    if s.len() > 0 {
        lemma_lsb_val_bound(s.skip(1));
    }
}

/// Appending a bit to a least-significant-first sequence adds its weight.
pub proof fn lemma_lsb_val_push(s: Seq<bool>, b: bool)
    ensures
        lsb_val(s.push(b)) == lsb_val(s) + bit_val(b) * pow2(s.len()),
    decreases s.len(),
{
    if s.len() > 0 {
        lemma_lsb_val_push(s.skip(1), b);
        assert(s.push(b).skip(1) =~= s.skip(1).push(b));
        let n = s.len();
        assert(s.push(b)[0] == s[0]);
        assert(lsb_val(s.push(b)) == bit_val(s[0]) + 2 * lsb_val(s.skip(1).push(b)));
        assert(s.skip(1).len() == n - 1);
        assert(pow2(n) == 2 * pow2((n - 1) as nat));
        assert(2 * (bit_val(b) * pow2((n - 1) as nat)) == bit_val(b) * pow2(n)) by (nonlinear_arith)
            requires pow2(n) == 2 * pow2((n - 1) as nat);
    } else {
        assert(s.push(b).skip(1) =~= Seq::<bool>::empty());
        assert(lsb_val(s.push(b)) == bit_val(b) + 2 * lsb_val(Seq::<bool>::empty()));
        assert(pow2(0) == 1);
    }
}

/// A prefix never spells more than the whole sequence, read most significant bit first.
pub proof fn lemma_msb_val_prefix(s: Seq<bool>, k: int)
    requires
        0 <= k <= s.len(),
    ensures
        msb_val(s.take(k)) <= msb_val(s),
    decreases s.len() - k,
{
    if k < s.len() {
        assert(s.take(k + 1).drop_last() =~= s.take(k));
        lemma_msb_val_prefix(s, k + 1);
    } else {
        assert(s.take(k) =~= s);
    }
}

/// The number spelled by `bin`, most significant bit first.
pub fn binary_to_dec(bin: &Vec<bool>) -> (r: usize)
    requires
        msb_val(bin@) <= usize::MAX,
    ensures
        r == msb_val(bin@),
{
    let mut dec: usize = 0;
    let mut i: usize = 0;
    while i < bin.len()
        invariant
            i <= bin@.len(),
            dec == msb_val(bin@.take(i as int)),
            msb_val(bin@) <= usize::MAX,
        decreases bin@.len() - i,
    {
        proof {
            assert(bin@.take(i + 1).drop_last() =~= bin@.take(i as int));
            lemma_msb_val_prefix(bin@, i + 1);
        }
        dec = 2 * dec + if bin[i] { 1 } else { 0 };
        i = i + 1;
    }
    assert(bin@.take(i as int) =~= bin@);
    dec
}

/// The `size` low bits of `num`, most significant first.
pub fn usize_to_bits(num: usize, size: u8) -> (r: Vec<bool>)
    ensures
        r@ == msb_bits(num as nat, size as nat),
{
    let n = size as usize;
    let mut r: Vec<bool> = vec![false; n];
    let mut v: usize = num;
    let mut k: usize = 0;
    proof {
        lemma_msb_bits_len(num as nat, n as nat);
        assert(msb_bits(num as nat, n as nat) =~= msb_bits(num as nat, n as nat) + r@.subrange(n as int, n as int));
    }
    while k < n
        invariant
            k <= n,
            n == size,
            r@.len() == n,
            msb_bits(num as nat, n as nat) == msb_bits(v as nat, (n - k) as nat) + r@.subrange(n - k, n as int),
        decreases n - k,
    {
        let ghost old_r = r@;
        let ghost old_v = v;
        r.set(n - k - 1, v % 2 == 1);
        v = v / 2;
        proof {
            let m = (n - k) as nat;
            assert(msb_bits(old_v as nat, m) == msb_bits(v as nat, (m - 1) as nat).push(old_v % 2 == 1));
            assert(r@.subrange(n - k - 1, n as int) =~= seq![old_v % 2 == 1] + old_r.subrange(n - k, n as int));
            assert(msb_bits(old_v as nat, m) + old_r.subrange(n - k, n as int) =~= msb_bits(v as nat, (m - 1) as nat) + r@.subrange(n - k - 1, n as int));
        }
        k = k + 1;
    }
    assert(r@.subrange(0, n as int) =~= r@);
    r
}

} // verus!
