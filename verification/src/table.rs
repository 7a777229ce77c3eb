//! Seeded permutation table.
//!
//! A 64-bit seed drives a pinned Lehmer linear congruential generator, which
//! in turn drives a Fisher-Yates shuffle of the bytes `0..=255`. Both
//! algorithms are fixed here rather than taken from a random-number library,
//! so that the same seed yields the same table on every platform and under
//! every dependency version: the table, and therefore the whole image, is a
//! pure function of the seed.

use vstd::prelude::*;

verus! {

use vstd::pervasive::VecAdditionalExecFns;

/// Modulus of the pinned Lehmer generator: the prime `2^31 - 1`.
pub const LCG_MOD: u64 = 2147483647;

/// Multiplier of the pinned Lehmer generator: the minimal-standard constant.
pub const LCG_MUL: u64 = 48271;

/// One step of the pinned Lehmer generator.
pub open spec fn lcg_next(st: int) -> int {
    (st * (LCG_MUL as int)) % (LCG_MOD as int)
}

/// The generator state a 64-bit seed starts from.
pub open spec fn lcg_seed(seed: u64) -> int {
    (seed as int) % (LCG_MOD as int)
}

/// The sequence with the entries at `i` and `j` exchanged.
pub open spec fn swapped(s: Seq<u8>, i: int, j: int) -> Seq<u8> {
    s.update(i, s[j]).update(j, s[i])
}

/// Fisher-Yates shuffle driven by the Lehmer generator: entries `i` down to
/// `1` are each exchanged with an entry drawn at or below them. Returns the
/// shuffled sequence and the final generator state.
pub open spec fn fy_shuffle(s: Seq<u8>, st: int, i: nat) -> (Seq<u8>, int)
    decreases i,
{
    if i == 0 {
        (s, st)
    } else {
        let st2 = lcg_next(st);
        let j = st2 % ((i + 1) as int);
        fy_shuffle(swapped(s, i as int, j), st2, (i - 1) as nat)
    }
}

/// The unshuffled table: entry `i` holds byte `i`.
pub open spec fn identity_table() -> Seq<u8> {
    Seq::new(256, |i: int| i as u8)
}

/// The 257-entry table derived from a seed: the shuffled 256 bytes with the
/// first entry repeated at the end, so lookups at index `i + 1` never wrap.
pub open spec fn perm_spec(seed: u64) -> Seq<u8> {
    let s = fy_shuffle(identity_table(), lcg_seed(seed), 255).0;
    s.push(s[0])
}

/// Every byte value occurs exactly once among the 256 entries.
pub open spec fn is_byte_permutation(s: Seq<u8>) -> bool {
    s.len() == 256 && forall|v: u8| #[trigger] s.to_multiset().count(v) == 1
}

/// Exchanging two entries leaves the multiset of entries unchanged.
proof fn lemma_swap_preserves_multiset(s: Seq<u8>, i: int, j: int)
    requires
        0 <= i < s.len(),
        0 <= j < s.len(),
    ensures
        swapped(s, i, j).len() == s.len(),
        swapped(s, i, j).to_multiset() == s.to_multiset(),
{
    broadcast use vstd::seq_lib::to_multiset_update;
    broadcast use vstd::multiset::group_multiset_axioms;
    broadcast use vstd::seq_lib::group_to_multiset_ensures;

    let s1 = s.update(i, s[j]);
    assert(s.to_multiset().contains(s[i]));
    assert(s.to_multiset().contains(s[j]));
    assert(s1[j] == s[j]);
    assert(s1.to_multiset() == s.to_multiset().insert(s[j]).remove(s[i]));
    assert(s1.update(j, s[i]).to_multiset() == s1.to_multiset().insert(s[i]).remove(s1[j]));
    assert(swapped(s, i, j).to_multiset() =~= s.to_multiset());
}

/// The shuffle leaves the length and the multiset of entries unchanged.
proof fn lemma_fy_preserves(s: Seq<u8>, st: int, i: nat)
    requires
        i < s.len(),
    ensures
        fy_shuffle(s, st, i).0.len() == s.len(),
        fy_shuffle(s, st, i).0.to_multiset() == s.to_multiset(),
    decreases i,
{
    if i != 0 {
        let st2 = lcg_next(st);
        let j = st2 % ((i + 1) as int);
        assert(0 <= j < i + 1) by {
            vstd::arithmetic::div_mod::lemma_mod_bound(st2, (i + 1) as int);
        }
        lemma_swap_preserves_multiset(s, i as int, j);
        lemma_fy_preserves(swapped(s, i as int, j), st2, (i - 1) as nat);
    }
}

/// The unshuffled table holds every byte value exactly once.
proof fn lemma_identity_is_permutation()
    ensures
        is_byte_permutation(identity_table()),
{
    broadcast use vstd::seq_lib::group_to_multiset_ensures;

    let t = identity_table();
    assert(t.no_duplicates());
    assert forall|v: u8| #[trigger] t.to_multiset().count(v) == 1 by {
        assert(t[v as int] == v);
        assert(t.contains(v));
        assert(t.to_multiset().count(v) > 0);
        t.lemma_multiset_has_no_duplicates();
    }
}

/// For every seed, the derived table is 257 entries long, its first 256
/// entries are a permutation of the byte values, and its last entry repeats
/// its first.
pub proof fn lemma_table_permutation(seed: u64)
    ensures
        perm_spec(seed).len() == 257,
        is_byte_permutation(perm_spec(seed).subrange(0, 256)),
        perm_spec(seed)[256] == perm_spec(seed)[0],
{
    let s = fy_shuffle(identity_table(), lcg_seed(seed), 255).0;
    lemma_identity_is_permutation();
    lemma_fy_preserves(identity_table(), lcg_seed(seed), 255);
    assert(perm_spec(seed).subrange(0, 256) =~= s);
    assert(is_byte_permutation(s));
}

/// A 257-entry lookup table: a seeded permutation of the bytes `0..=255`
/// with the first entry repeated at index 256.
pub struct PermutationTable {
    data: Vec<u8>,
}

impl View for PermutationTable {
    type V = Seq<u8>;

    closed spec fn view(&self) -> Seq<u8> {
        self.data@
    }
}

impl PermutationTable {
    /// The shape every built table has: 257 entries, the first 256 a
    /// permutation of the byte values, the last a copy of the first.
    pub open spec fn wf(&self) -> bool {
        &&& self@.len() == 257
        &&& is_byte_permutation(self@.subrange(0, 256))
        &&& self@[256] == self@[0]
    }

    /// Builds the table for a seed. The result is a pure function of the
    /// seed: the same seed always yields the same table.
    pub fn build(seed: u64) -> (t: Self)
        ensures
            t.wf(),
            t@ == perm_spec(seed),
    {
        let mut data: Vec<u8> = Vec::new();
        let mut k: usize = 0;
        while k < 256
            invariant
                k <= 256,
                data@.len() == k,
                forall|m: int| 0 <= m < k ==> data@[m] == m as u8,
            decreases 256 - k,
        {
            data.push(k as u8);
            k = k + 1;
        }
        assert(data@ =~= identity_table());

        let mut st: u64 = seed % LCG_MOD;
        let mut i: usize = 255;
        while 1 <= i
            invariant
                i <= 255,
                st < LCG_MOD,
                data@.len() == 256,
                fy_shuffle(data@, st as int, i as nat)
                    == fy_shuffle(identity_table(), lcg_seed(seed), 255),
            decreases i,
        {
            let ghost prev = data@;
            let ghost st_prev = st as int;
            st = (st * LCG_MUL) % LCG_MOD;
            let j = (st % ((i as u64) + 1)) as usize;
            assert(st as int == lcg_next(st_prev));
            assert(j as int == lcg_next(st_prev) % ((i + 1) as int));
            let vi = data[i];
            let vj = data[j];
            data.set(i, vj);
            data.set(j, vi);
            proof {
                assert(data@ =~= swapped(prev, i as int, j as int));
                assert(fy_shuffle(data@, st as int, (i - 1) as nat)
                    == fy_shuffle(prev, st_prev, i as nat));
            }
            i = i - 1;
        }
        assert(data@ == fy_shuffle(identity_table(), lcg_seed(seed), 255).0);

        let first = data[0];
        data.push(first);
        proof {
            assert(data@ == perm_spec(seed));
            lemma_table_permutation(seed);
        }
        PermutationTable { data }
    }

    /// Reads the entry at `i`; the table has 257 of them.
    pub fn get(&self, i: usize) -> (b: u8)
        requires
            i < self@.len(),
        ensures
            b == self@[i as int],
    {
        self.data[i]
    }
}

} // verus!
