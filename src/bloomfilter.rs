use crate::utils::{bit_is_set, get_single_bit_mask, lemma_single_bit, listed, set_multi_bitmask};
use crate::ConfigError;
use std::collections::hash_map::{DefaultHasher, RandomState};
use std::hash::{BuildHasher, Hash, Hasher};
use vstd::prelude::*;

verus! {

/// The bit that a digest selects in a bit array of `nbits` bits.
pub open spec fn bit_index(d: u64, nbits: int) -> int {
    d as int % nbits
}

/// Every bit that the digests `ds` select is set in `bytes`.
pub open spec fn covers(bytes: Seq<u8>, ds: Seq<u64>) -> bool {
    forall|k: int| 0 <= k < ds.len() ==> bit_is_set(bytes, bit_index(#[trigger] ds[k], 8 * bytes.len() as int))
}

/// Some digest of `ds` selects the bit `i` of an array of `nbits` bits.
pub open spec fn selected(ds: Seq<u64>, nbits: int, i: int) -> bool {
    exists|k: int| 0 <= k < ds.len() && bit_index(#[trigger] ds[k], nbits) == i
}

/// `after` is `before` with the bits that the digests `ds` select set, and
/// no other change.
pub open spec fn sets_exactly(before: Seq<u8>, after: Seq<u8>, ds: Seq<u64>) -> bool {
    &&& after.len() == before.len()
    &&& forall|i: int|
        0 <= i < 8 * before.len() as int ==> (#[trigger] bit_is_set(after, i) <==> (bit_is_set(before, i)
            || selected(ds, 8 * before.len() as int, i)))
}

/// Every bit set in `a` is set in `b`.
pub open spec fn bits_within(a: Seq<u8>, b: Seq<u8>) -> bool {
    &&& a.len() == b.len()
    &&& forall|i: int| 0 <= i < 8 * a.len() as int && #[trigger] bit_is_set(a, i) ==> bit_is_set(b, i)
}

/// The number of set bits among the first `k` bits of `bytes`.
pub open spec fn ones(bytes: Seq<u8>, k: int) -> nat
    decreases k,
{
    if k <= 0 {
        0
    } else {
        ones(bytes, k - 1) + if bit_is_set(bytes, k - 1) {
            1nat
        } else {
            0nat
        }
    }
}

/// Once the digests `ds` have been added, every bit they select is set: an
/// added element is never reported as absent.
pub proof fn lemma_added_is_covered(before: Seq<u8>, after: Seq<u8>, ds: Seq<u64>)
    requires
        before.len() > 0,
        sets_exactly(before, after, ds),
    ensures
        covers(after, ds),
{
    let nbits = 8 * before.len() as int;
    assert forall|k: int| 0 <= k < ds.len() implies bit_is_set(
        after,
        bit_index(#[trigger] ds[k], 8 * after.len() as int),
    ) by {
        let i = bit_index(ds[k], nbits);
        assert(selected(ds, nbits, i));
    }
}

/// Adding more digests unsets no bit, so digests that were covered stay covered.
pub proof fn lemma_covered_stays(before: Seq<u8>, after: Seq<u8>, ds: Seq<u64>, more: Seq<u64>)
    requires
        before.len() > 0,
        covers(before, ds),
        sets_exactly(before, after, more),
    ensures
        covers(after, ds),
{
    let nbits = 8 * before.len() as int;
    assert forall|k: int| 0 <= k < ds.len() implies bit_is_set(
        after,
        bit_index(#[trigger] ds[k], 8 * after.len() as int),
    ) by {
        assert(bit_is_set(before, bit_index(ds[k], nbits)));
    }
}

proof fn lemma_ones_within(a: Seq<u8>, b: Seq<u8>, k: int)
    requires
        bits_within(a, b),
        k <= 8 * a.len(),
    ensures
        ones(a, k) <= ones(b, k),
    decreases k,
{
    if k > 0 {
        lemma_ones_within(a, b, k - 1);
        if bit_is_set(a, k - 1) {
            assert(bit_is_set(b, k - 1));
        }
    }
}

/// Adding digests never lowers the number of set bits, so the fill ratio,
/// and the false-positive estimate made from it, never drop.
pub proof fn lemma_fill_grows(before: Seq<u8>, after: Seq<u8>, ds: Seq<u64>)
    requires
        sets_exactly(before, after, ds),
    ensures
        ones(before, 8 * before.len() as int) <= ones(after, 8 * after.len() as int),
{
    lemma_ones_within(before, after, 8 * before.len() as int);
}

/// Relies on `RandomState::new`: a hasher builder with fresh random keys.
/// Nothing is stated of the keys.
#[verifier::external_body]
fn new_random_state() -> RandomState {
    RandomState::new()
}

/// Relies on `BuildHasher::build_hasher`: a hasher seeded with the builder's keys.
#[verifier::external_body]
fn build_hasher(s: &RandomState) -> DefaultHasher {
    s.build_hasher()
}

/// Relies on `Hash::hash`: feeds `elmt` into `state`. Nothing is stated of
/// the new state, which depends on the hasher's keys.
#[verifier::external_body]
fn hash_into<E: Hash, H: Hasher>(elmt: &E, state: &mut H) {
    elmt.hash(state)
}

/// Relies on `Hasher::finish`: the digest of what `state` was fed. Nothing is
/// stated of it: it depends on the hasher's random keys.
#[verifier::external_body]
fn finish<H: Hasher>(state: &H) -> u64 {
    state.finish()
}

/// A set-membership filter over a fixed array of bits: each element sets the
/// bits that its digests under the hashers select, and an element with an
/// unset bit among its own was never added.
pub struct BloomFilter<H = DefaultHasher> {
    data: Vec<u8>,
    data_len: usize,
    elmts_added: usize,
    hashers: Vec<H>,
}

impl BloomFilter<DefaultHasher> {
    /// A filter with `n_bytes` zeroed bytes of storage (`8 * n_bytes` bits)
    /// and `m_hashers` randomly seeded hashers; zero of either is refused.
    pub fn default_with_settings(n_bytes: usize, m_hashers: usize) -> (r: Result<Self, ConfigError>)
        requires
            8 * n_bytes <= usize::MAX,
        ensures
            r is Ok <==> (n_bytes > 0 && m_hashers > 0),
            n_bytes == 0 <==> r == Err::<Self, ConfigError>(ConfigError::ZeroBytes),
            (n_bytes > 0 && m_hashers == 0) <==> r == Err::<Self, ConfigError>(ConfigError::ZeroHashers),
            r matches Ok(f) ==> {
                &&& f.wf()
                &&& f.bits() == Seq::new(n_bytes as nat, |i: int| 0u8)
                &&& f.hasher_count() == m_hashers
                &&& f.added() == 0
            },
    {
        if n_bytes == 0 {
            return Err(ConfigError::ZeroBytes);
        }
        if m_hashers == 0 {
            return Err(ConfigError::ZeroHashers);
        }
        let store = vec![0u8; n_bytes];
        let mut hashers: Vec<DefaultHasher> = Vec::new();
        let mut k: usize = 0;
        while k < m_hashers
            invariant
                k <= m_hashers,
                hashers@.len() == k,
            decreases m_hashers - k,
        {
            let state = new_random_state();
            hashers.push(build_hasher(&state));
            k = k + 1;
        }
        let r = BloomFilter::from_initalized(store, hashers);
        assert(r matches Ok(f) ==> f.bits() =~= Seq::new(n_bytes as nat, |i: int| 0u8));
        r
    }
}

impl<H: Hasher + Clone> BloomFilter<H> {
    /// The bytes of the bit array.
    pub closed spec fn bits(&self) -> Seq<u8> {
        self.data@
    }

    /// The number of hashers.
    pub closed spec fn hasher_count(&self) -> nat {
        self.hashers@.len()
    }

    /// The number of calls to `add` so far, saturating at `usize::MAX`.
    pub closed spec fn added(&self) -> nat {
        self.elmts_added as nat
    }

    /// Storage and hashers are both non-empty, and the bit count fits a `usize`.
    pub closed spec fn wf(&self) -> bool {
        &&& self.data_len == self.data@.len()
        &&& self.data_len >= 1
        &&& 8 * self.data_len <= usize::MAX
        &&& self.hashers@.len() >= 1
    }

    /// A filter over the given storage and hashers; empty storage or no
    /// hashers are refused.
    pub fn from_initalized(store: Vec<u8>, hashers: Vec<H>) -> (r: Result<Self, ConfigError>)
        requires
            8 * store@.len() as int <= usize::MAX,
        ensures
            r is Ok <==> (store@.len() > 0 && hashers@.len() > 0),
            store@.len() == 0 <==> r == Err::<Self, ConfigError>(ConfigError::ZeroBytes),
            (store@.len() > 0 && hashers@.len() == 0) <==> r == Err::<Self, ConfigError>(
                ConfigError::ZeroHashers,
            ),
            r matches Ok(f) ==> {
                &&& f.wf()
                &&& f.bits() == store@
                &&& f.hasher_count() == hashers@.len()
                &&& f.added() == 0
            },
    {
        let len = store.len();
        if len == 0 {
            return Err(ConfigError::ZeroBytes);
        }
        if hashers.len() == 0 {
            return Err(ConfigError::ZeroHashers);
        }
        Ok(BloomFilter { data: store, data_len: len, elmts_added: 0, hashers })
    }

    /// The digest of `elmt` under each hasher, in order.
    fn digests<E: Hash>(&self, elmt: &E) -> (r: Vec<u64>)
        ensures
            r@.len() == self.hashers@.len(),
    {
        let mut out: Vec<u64> = Vec::new();
        let mut k: usize = 0;
        while k < self.hashers.len()
            invariant
                k <= self.hashers@.len(),
                out@.len() == k,
            decreases self.hashers@.len() - k,
        {
            let mut state = self.hashers[k].clone();
            hash_into(elmt, &mut state);
            out.push(finish(&state));
            k = k + 1;
        }
        out
    }

    /// The bit of the array that each digest selects.
    fn get_bit_indecies(&self, digests: &[u64]) -> (r: Vec<usize>)
        requires
            self.wf(),
        ensures
            r@.len() == digests@.len(),
            forall|k: int|
                0 <= k < digests@.len() ==> #[trigger] r@[k] as int == bit_index(
                    digests@[k],
                    8 * self.data@.len() as int,
                ),
    {
        let store_len = self.data_len * 8;
        let mut out: Vec<usize> = Vec::new();
        let mut k: usize = 0;
        while k < digests.len()
            invariant
                store_len == 8 * self.data@.len() as int,
                store_len >= 8,
                k <= digests@.len(),
                out@.len() == k,
                forall|j: int|
                    0 <= j < k ==> #[trigger] out@[j] as int == bit_index(digests@[j], store_len as int),
            decreases digests@.len() - k,
        {
            out.push((digests[k] % (store_len as u64)) as usize);
            k = k + 1;
        }
        out
    }

    /// Whether some bit that the digests select is unset: if so, no element
    /// with these digests was ever added.
    pub fn never_occured_digests(&self, digests: &[u64]) -> (r: bool)
        requires
            self.wf(),
        ensures
            r == !covers(self.bits(), digests@),
    {
        let indices = self.get_bit_indecies(digests);
        let mut k: usize = 0;
        while k < indices.len()
            invariant
                self.wf(),
                indices@.len() == digests@.len(),
                forall|j: int|
                    0 <= j < digests@.len() ==> #[trigger] indices@[j] as int == bit_index(
                        digests@[j],
                        8 * self.data@.len() as int,
                    ),
                k <= indices@.len(),
                forall|j: int|
                    0 <= j < k ==> bit_is_set(
                        self.data@,
                        bit_index(#[trigger] digests@[j], 8 * self.data@.len() as int),
                    ),
            decreases indices@.len() - k,
        {
            let (n, mask) = get_single_bit_mask(indices[k]);
            proof {
                lemma_single_bit(self.data@[n as int], (indices@[k as int] % 8) as u8);
                assert(indices@[k as int] as int == bit_index(digests@[k as int], 8 * self.data@.len() as int));
            }
            if self.data[n] & mask != mask {
                return true;
            }
            k = k + 1;
        }
        false
    }

    /// Sets the bits that the digests select, and counts one more addition.
    pub fn add_digests(&mut self, digests: &[u64])
        requires
            old(self).wf(),
        ensures
            final(self).wf(),
            sets_exactly(old(self).bits(), final(self).bits(), digests@),
            final(self).hasher_count() == old(self).hasher_count(),
            final(self).added() == if old(self).added() < usize::MAX {
                old(self).added() + 1
            } else {
                old(self).added()
            },
    {
        self.elmts_added = self.elmts_added.saturating_add(1);
        let indices = self.get_bit_indecies(digests);
        let ghost before = self.data@;
        let ghost nbits = 8 * before.len() as int;
        set_multi_bitmask(self.data.as_mut_slice(), indices.as_slice());
        proof {
            assert forall|i: int| 0 <= i < nbits implies (listed(indices@, indices@.len() as int, i)
                <==> selected(digests@, nbits, i)) by {
                if listed(indices@, indices@.len() as int, i) {
                    let k = choose|k: int| 0 <= k < indices@.len() && indices@[k] as int == i;
                    assert(bit_index(digests@[k], nbits) == i);
                }
                if selected(digests@, nbits, i) {
                    let k = choose|k: int| 0 <= k < digests@.len() && bit_index(#[trigger] digests@[k], nbits) == i;
                    assert(indices@[k] as int == i);
                }
            }
        }
    }

    /// Adds `elmt`: sets the bit that each of its digests selects.
    pub fn add<E: Hash>(&mut self, elmt: &E)
        requires
            old(self).wf(),
        ensures
            final(self).wf(),
            final(self).hasher_count() == old(self).hasher_count(),
            final(self).added() == if old(self).added() < usize::MAX {
                old(self).added() + 1
            } else {
                old(self).added()
            },
            exists|ds: Seq<u64>|
                ds.len() == old(self).hasher_count() && #[trigger] sets_exactly(
                    old(self).bits(),
                    final(self).bits(),
                    ds,
                ),
    {
        let ds = self.digests(elmt);
        self.add_digests(ds.as_slice());
        assert(sets_exactly(old(self).bits(), self.bits(), ds@));
    }

    /// If this returns true, `elmt` was never added, provided that it hashes
    /// the same way on every call.
    pub fn never_occured<E: Hash>(&self, elmt: &E) -> (r: bool)
        requires
            self.wf(),
        ensures
            exists|ds: Seq<u64>|
                ds.len() == self.hasher_count() && r == !#[trigger] covers(self.bits(), ds),
    {
        let ds = self.digests(elmt);
        self.never_occured_digests(ds.as_slice())
    }

    /// The number of bits set in the array.
    pub fn bits_set(&self) -> (r: usize)
        requires
            self.wf(),
        ensures
            r == ones(self.bits(), 8 * self.bits().len() as int),
    {
        let store_len = self.data_len * 8;
        let mut count: usize = 0;
        let mut i: usize = 0;
        while i < store_len
            invariant
                self.wf(),
                store_len == 8 * self.data@.len() as int,
                i <= store_len,
                count <= i,
                count == ones(self.data@, i as int),
            decreases store_len - i,
        {
            let (n, mask) = get_single_bit_mask(i);
            if self.data[n] & mask != 0 {
                count = count + 1;
            }
            i = i + 1;
        }
        count
    }

    /// The bit array as characters, `'1'` for a set bit and `'0'` for an
    /// unset one, most significant bit of each byte first.
    pub fn bit_chars(&self) -> (r: Vec<char>)
        requires
            self.wf(),
        ensures
            r@ == Seq::new(
                (8 * self.bits().len()) as nat,
                |i: int|
                    if bit_is_set(self.bits(), i) {
                        '1'
                    } else {
                        '0'
                    },
            ),
    {
        let store_len = self.data_len * 8;
        let mut out: Vec<char> = Vec::new();
        let mut i: usize = 0;
        while i < store_len
            invariant
                self.wf(),
                store_len == 8 * self.data@.len(),
                i <= store_len,
                out@.len() == i,
                forall|j: int|
                    0 <= j < i ==> #[trigger] out@[j] == if bit_is_set(self.data@, j) {
                        '1'
                    } else {
                        '0'
                    },
            decreases store_len - i,
        {
            let (n, mask) = get_single_bit_mask(i);
            if self.data[n] & mask != 0 {
                out.push('1');
            } else {
                out.push('0');
            }
            i = i + 1;
        }
        assert(out@ =~= Seq::new(
            (8 * self.bits().len()) as nat,
            |i: int|
                if bit_is_set(self.bits(), i) {
                    '1'
                } else {
                    '0'
                },
        ));
        out
    }

    /// How many bytes the bit array uses; it holds `8 * storage_size()` bits.
    pub fn storage_size(&self) -> (r: usize)
        requires
            self.wf(),
        ensures
            r == self.bits().len(),
    {
        self.data_len
    }

    /// How many bits each element selects.
    pub fn num_hashers(&self) -> (r: usize)
        ensures
            r == self.hasher_count(),
    {
        self.hashers.len()
    }
}

} // verus!
