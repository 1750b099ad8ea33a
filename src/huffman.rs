//! Canonical Huffman codes built from a list of code lengths.

use vstd::prelude::*;
use crate::helpers::{pow2, lemma_pow2_le, lemma_pow2_pos};
use crate::tables::lemma_pow2_small;

verus! {

/// Longest code length of the alphabets in a block.
pub const MAX_BITS: usize = 15;

/// The symbols whose code length is `len`, in increasing order.
pub open spec fn syms_with_len(lengths: Seq<u8>, len: nat) -> Seq<usize>
    decreases lengths.len(),
{
    if lengths.len() == 0 {
        Seq::empty()
    } else {
        let prev = syms_with_len(lengths.drop_last(), len);
        if lengths.last() as nat == len {
            prev.push((lengths.len() - 1) as usize)
        } else {
            prev
        }
    }
}

/// How many symbols have code length `len`.
pub open spec fn bl_count(lengths: Seq<u8>, len: nat) -> nat {
    syms_with_len(lengths, len).len()
}

/// The first code of length `len`: 0 for length 1, then each length starts where the
/// previous one ended, shifted left by one.
pub open spec fn first_code(lengths: Seq<u8>, len: nat) -> nat
    decreases len,
{
    if len <= 1 {
        0
    } else {
        2 * (first_code(lengths, (len - 1) as nat) + bl_count(lengths, (len - 1) as nat))
    }
}

/// The symbol whose code has length `len` and value `v`, if any.
pub open spec fn code_lookup(lengths: Seq<u8>, len: nat, v: nat) -> Option<usize> {
    if 1 <= len <= 15 && first_code(lengths, len) <= v < first_code(lengths, len) + bl_count(
        lengths,
        len,
    ) {
        Some(syms_with_len(lengths, len)[v - first_code(lengths, len)])
    } else {
        None
    }
}

/// Some code length `len..=15` has more codes than `len` bits can tell apart.
pub open spec fn oversubscribed_from(lengths: Seq<u8>, len: nat) -> bool
    decreases 16 - len,
{
    if len > 15 {
        false
    } else {
        first_code(lengths, len) + bl_count(lengths, len) > pow2(len) || oversubscribed_from(
            lengths,
            len + 1,
        )
    }
}

/// The code lengths ask for more codes than a prefix code can hold.
pub open spec fn oversubscribed(lengths: Seq<u8>) -> bool {
    oversubscribed_from(lengths, 1)
}

/// The canonical code of `lengths`: for each code length `len` from 1 to 15, the codes
/// `first_code(len) ..` in turn stand for the symbols of that length in increasing order.
pub open spec fn canonical_map(lengths: Seq<u8>) -> Map<(nat, nat), usize> {
    Map::new(
        |lc: (nat, nat)| code_lookup(lengths, lc.0, lc.1) is Some,
        |lc: (nat, nat)| code_lookup(lengths, lc.0, lc.1)->0,
    )
}

proof fn lemma_syms_with_len(lengths: Seq<u8>, len: nat)
    requires
        lengths.len() <= 320,
    ensures
        syms_with_len(lengths, len).len() <= lengths.len(),
        forall|i: int|
            0 <= i < syms_with_len(lengths, len).len() ==> {
                &&& (#[trigger] syms_with_len(lengths, len)[i]) < lengths.len()
                &&& lengths[syms_with_len(lengths, len)[i] as int] as nat == len
            },
    decreases lengths.len(),
{
    if lengths.len() > 0 {
        lemma_syms_with_len(lengths.drop_last(), len);
        let prev = syms_with_len(lengths.drop_last(), len);
        assert forall|i: int| 0 <= i < prev.len() implies lengths[prev[i] as int] == lengths.drop_last()[prev[i] as int] by {}
    }
}

proof fn lemma_first_code_bound(lengths: Seq<u8>, len: nat)
    requires
        1 <= len,
        lengths.len() <= 320,
    ensures
        first_code(lengths, len) <= lengths.len() * (pow2(len) - 2),
    decreases len,
{
    lemma_pow2_pos(len);
    if len > 1 {
        let n = lengths.len();
        lemma_first_code_bound(lengths, (len - 1) as nat);
        lemma_syms_with_len(lengths, (len - 1) as nat);
        let f = first_code(lengths, (len - 1) as nat);
        let c = bl_count(lengths, (len - 1) as nat);
        let p = pow2((len - 1) as nat);
        assert(pow2(len) == 2 * p);
        assert(2 * (f + c) <= n * (pow2(len) - 2)) by (nonlinear_arith)
            requires
                f <= n * (p - 2),
                c <= n,
                pow2(len) == 2 * p,
                p >= 1,
        ;
    } else {
        assert(pow2(1) == 2) by {
            lemma_pow2_small();
        }
    }
}

/// A decoding table of a canonical Huffman code: for each code length, its first code, how
/// many codes it has, and their symbols in order.
pub struct HuffTable {
    counts: Vec<usize>,
    firsts: Vec<usize>,
    symbols: Vec<Vec<usize>>,
    lengths: Ghost<Seq<u8>>,
}

impl HuffTable {
    /// The code lengths the table was built from.
    pub closed spec fn lens(&self) -> Seq<u8> {
        self.lengths@
    }

    /// The table matches its code lengths at every length from 1 to 15.
    pub closed spec fn wf(&self) -> bool {
        &&& self.lengths@.len() <= 320
        &&& self.counts@.len() == 16
        &&& self.firsts@.len() == 16
        &&& self.symbols@.len() == 16
        &&& forall|len: int|
            0 <= len <= 15 ==> {
                &&& #[trigger] self.counts@[len] == bl_count(self.lengths@, len as nat)
                &&& self.firsts@[len] == first_code(self.lengths@, len as nat)
                &&& self.symbols@[len]@ == syms_with_len(self.lengths@, len as nat)
            }
    }

    /// Which symbol each (length, code) pair stands for.
    pub closed spec fn code_map(&self) -> Map<(nat, nat), usize> {
        Map::new(
            |lc: (nat, nat)|
                1 <= lc.0 <= 15 && self.firsts@[lc.0 as int] <= lc.1 < self.firsts@[lc.0 as int]
                    + self.counts@[lc.0 as int],
            |lc: (nat, nat)| self.symbols@[lc.0 as int]@[lc.1 - self.firsts@[lc.0 as int]],
        )
    }

    /// Builds the canonical code of `lengths`: symbols ordered by code length, then by
    /// symbol, each length starting at its first code.
    pub fn build(lengths: &Vec<u8>) -> (r: HuffTable)
        requires
            lengths@.len() <= 320,
        ensures
            r.wf(),
            r.lens() == lengths@,
            r.code_map() == canonical_map(lengths@),
    {
        let ghost ls = lengths@;
        let n = lengths.len();
        let mut symbols: Vec<Vec<usize>> = Vec::new();
        let mut counts: Vec<usize> = Vec::new();
        let mut len: usize = 0;
        while len < 16
            invariant
                ls == lengths@,
                n == ls.len(),
                n <= 320,
                len <= 16,
                symbols@.len() == len,
                counts@.len() == len,
                forall|l: int|
                    0 <= l < len ==> {
                        &&& #[trigger] counts@[l] == bl_count(ls, l as nat)
                        &&& symbols@[l]@ == syms_with_len(ls, l as nat)
                    },
                forall|l: int| 0 <= l < len ==> #[trigger] symbols@[l]@.len() == counts@[l],
            decreases 16 - len,
        {
            let mut syms: Vec<usize> = Vec::new();
            let mut s: usize = 0;
            while s < n
                invariant
                    ls == lengths@,
                    n == ls.len(),
                    s <= n,
                    syms@ == syms_with_len(ls.take(s as int), len as nat),
                decreases n - s,
            {
                proof {
                    assert(ls.take(s + 1).drop_last() =~= ls.take(s as int));
                }
                if lengths[s] as usize == len {
                    syms.push(s);
                }
                s = s + 1;
            }
            assert(ls.take(n as int) =~= ls);
            counts.push(syms.len());
            symbols.push(syms);
            len = len + 1;
        }
        let mut firsts: Vec<usize> = Vec::new();
        assert(first_code(ls, 0) == 0);
        firsts.push(0);
        firsts.push(0);
        let mut code: usize = 0;
        let mut l: usize = 2;
        proof {
            lemma_pow2_small();
        }
        while l < 16
            invariant
                ls == lengths@,
                n == ls.len(),
                n <= 320,
                2 <= l <= 16,
                firsts@.len() == l,
                counts@.len() == 16,
                code == first_code(ls, (l - 1) as nat),
                forall|j: int| 0 <= j < 16 ==> #[trigger] counts@[j] == bl_count(ls, j as nat),
                forall|j: int| 0 <= j < l ==> #[trigger] firsts@[j] == first_code(ls, j as nat),
            decreases 16 - l,
        {
            proof {
                lemma_first_code_bound(ls, (l - 1) as nat);
                lemma_first_code_bound(ls, l as nat);
                lemma_syms_with_len(ls, (l - 1) as nat);
                lemma_pow2_small();
                assert(pow2(l as nat) <= 32768);
                assert(ls.len() * (pow2(l as nat) - 2) <= 320 * 32768) by (nonlinear_arith)
                    requires ls.len() <= 320, pow2(l as nat) <= 32768;
            }
            code = (code + counts[l - 1]) * 2;
            firsts.push(code);
            l = l + 1;
        }
        let r = HuffTable { counts, firsts, symbols, lengths: Ghost(ls) };
        assert(r.lengths@.len() <= 320);
        assert(r.counts@.len() == 16 && r.firsts@.len() == 16 && r.symbols@.len() == 16);
        assert forall|len: int| 0 <= len <= 15 implies {
            &&& #[trigger] r.counts@[len] == bl_count(ls, len as nat)
            &&& r.firsts@[len] == first_code(ls, len as nat)
            &&& r.symbols@[len]@ == syms_with_len(ls, len as nat)
        } by {
            assert(r.counts@[len] == bl_count(ls, len as nat));
            assert(r.firsts@[len] == first_code(ls, len as nat));
        }
        proof {
            r.lemma_code_map();
        }
        r
    }

    /// A well-formed table holds exactly the canonical code of its code lengths.
    pub proof fn lemma_code_map(&self)
        requires
            self.wf(),
        ensures
            self.code_map() == canonical_map(self.lens()),
    {
        let ls = self.lengths@;
        assert forall|lc: (nat, nat)| #![trigger self.code_map().contains_key(lc)]
            #![trigger canonical_map(ls).contains_key(lc)]
            self.code_map().contains_key(lc) == canonical_map(ls).contains_key(lc) by {
            if 1 <= lc.0 <= 15 {
                assert(self.counts@[lc.0 as int] == bl_count(ls, lc.0));
            }
        }
        assert forall|lc: (nat, nat)| #[trigger] self.code_map().contains_key(lc) implies self.code_map()[lc]
            == canonical_map(ls)[lc] by {
            assert(self.counts@[lc.0 as int] == bl_count(ls, lc.0));
        }
        assert(self.code_map() =~= canonical_map(ls));
    }

    /// Whether the code lengths ask for more codes than a prefix code can hold.
    pub fn is_oversubscribed(&self) -> (r: bool)
        requires
            self.wf(),
        ensures
            r == oversubscribed(self.lens()),
    {
        let ghost lens = self.lengths@;
        let mut len: usize = 1;
        let mut limit: usize = 2;
        proof {
            lemma_pow2_small();
        }
        while len <= MAX_BITS
            invariant
                self.wf(),
                lens == self.lengths@,
                1 <= len <= 16,
                limit == pow2(len as nat),
                limit <= 65536,
                oversubscribed(lens) == oversubscribed_from(lens, len as nat),
            decreases 16 - len,
        {
            proof {
                lemma_first_code_bound(lens, len as nat);
                lemma_syms_with_len(lens, len as nat);
                lemma_pow2_le(len as nat, 15);
                lemma_pow2_small();
                assert(lens.len() * (pow2(len as nat) - 2) <= 320 * 32768) by (nonlinear_arith)
                    requires lens.len() <= 320, pow2(len as nat) <= 32768;
            }
            if self.firsts[len] + self.counts[len] > limit {
                return true;
            }
            len = len + 1;
            limit = limit * 2;
        }
        false
    }

    /// The symbol whose code has length `len` and value `v`, if any.
    pub fn lookup(&self, len: usize, v: usize) -> (r: Option<usize>)
        requires
            self.wf(),
            1 <= len <= 15,
        ensures
            r == code_lookup(self.lens(), len as nat, v as nat),
    {
        let first = self.firsts[len];
        let count = self.counts[len];
        if first <= v && v - first < count {
            Some(self.symbols[len][v - first])
        } else {
            None
        }
    }
}

/// Building the table twice from the same code lengths yields the same code-to-symbol map.
pub proof fn lemma_canonical_deterministic(a: &HuffTable, b: &HuffTable)
    requires
        a.wf(),
        b.wf(),
        a.lens() == b.lens(),
    ensures
        a.code_map() == b.code_map(),
{
    assert forall|len: int| 0 <= len <= 15 implies #[trigger] a.symbols@[len]@ == b.symbols@[len]@ && a.counts@[len] == b.counts@[len] && a.firsts@[len] == b.firsts@[len] by {
        assert(a.counts@[len] == bl_count(a.lens(), len as nat));
        assert(b.counts@[len] == bl_count(b.lens(), len as nat));
    }
    assert(a.counts@ =~= b.counts@);
    assert forall|len: int| 0 <= len <= 15 implies #[trigger] a.firsts@[len] == b.firsts@[len] by {
        assert(a.counts@[len] == bl_count(a.lens(), len as nat));
        assert(b.counts@[len] == bl_count(b.lens(), len as nat));
    }
    assert(a.firsts@ =~= b.firsts@);
    assert(a.code_map() =~= b.code_map());
}

} // verus!
