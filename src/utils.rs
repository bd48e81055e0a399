use vstd::prelude::*;

verus! {

/// The mask that selects bit `k` of a byte, counting from the most significant bit.
pub open spec fn mask_of(k: int) -> u8 {
    0x80u8 >> (k as u8)
}

/// Bit `i` of a byte buffer: byte `i / 8`, most significant bit first.
pub open spec fn bit_is_set(bytes: Seq<u8>, i: int) -> bool {
    bytes[i / 8] & mask_of(i % 8) != 0
}

/// Whether `i` is among the first `t` entries of `bits`.
pub open spec fn listed(bits: Seq<usize>, t: int, i: int) -> bool {
    exists|k: int| 0 <= k < t && bits[k] as int == i
}

/// Setting the bit `k` of a byte leaves the others as they were.
proof fn lemma_or_mask(b: u8, k: u8, j: u8)
    requires
        k < 8,
        j < 8,
    ensures
        ((b | (0x80u8 >> k)) & (0x80u8 >> j) != 0) == ((b & (0x80u8 >> j) != 0) || k == j),
{
    assert(((b | (0x80u8 >> k)) & (0x80u8 >> j) != 0) == ((b & (0x80u8 >> j) != 0) || k == j))
        by (bit_vector)
        requires
            k < 8,
            j < 8,
    ;
}

/// Against a one-bit mask, "all of the mask" and "any of the mask" agree.
pub(crate) proof fn lemma_single_bit(b: u8, k: u8)
    requires
        k < 8,
    ensures
        (b & (0x80u8 >> k) != (0x80u8 >> k)) == (b & (0x80u8 >> k) == 0),
{
    assert((b & (0x80u8 >> k) != (0x80u8 >> k)) == (b & (0x80u8 >> k) == 0)) by (bit_vector)
        requires
            k < 8,
    ;
}

/// Returns `(n, mask)`: bit `idx` lies in byte `n`, and `mask` has exactly that bit set.
pub fn get_single_bit_mask(idx: usize) -> (r: (usize, u8))
    ensures
        r.0 == idx / 8,
        r.1 == mask_of(idx as int % 8),
{
    let bits_elmt: usize = 8;
    let n = idx / bits_elmt;
    let idx_in_elmt = idx - n * bits_elmt;
    assert(idx_in_elmt == idx % 8);
    let mask = 0x80u8 >> (idx_in_elmt as u8);
    (n, mask)
}

/// Sets in `mask` every bit whose index is listed in `bits_to_set`.
pub fn set_multi_bitmask(mask: &mut [u8], bits_to_set: &[usize])
    requires
        forall|k: int| 0 <= k < bits_to_set@.len() ==> bits_to_set@[k] / 8 < old(mask)@.len(),
    ensures
        final(mask)@.len() == old(mask)@.len(),
        forall|i: int|
            0 <= i < 8 * old(mask)@.len() ==> (#[trigger] bit_is_set(final(mask)@, i) <==> (
            bit_is_set(old(mask)@, i) || listed(bits_to_set@, bits_to_set@.len() as int, i))),
{
    let ghost start = mask@;
    let mut t: usize = 0;
    while t < bits_to_set.len()
        invariant
            0 <= t <= bits_to_set@.len(),
            mask@.len() == start.len(),
            forall|k: int| 0 <= k < bits_to_set@.len() ==> bits_to_set@[k] / 8 < start.len(),
            forall|i: int|
                0 <= i < 8 * start.len() ==> (#[trigger] bit_is_set(mask@, i) <==> (bit_is_set(
                    start,
                    i,
                ) || listed(bits_to_set@, t as int, i))),
        decreases bits_to_set@.len() - t,
    {
        let idx = bits_to_set[t];
        let (n, b_mask) = get_single_bit_mask(idx);
        let ghost before = mask@;
        mask[n] = mask[n] | b_mask;
        assert forall|i: int| 0 <= i < 8 * start.len() implies (#[trigger] bit_is_set(mask@, i) <==> (
        bit_is_set(start, i) || listed(bits_to_set@, t + 1, i))) by {
            assert(mask@ == before.update(n as int, before[n as int] | b_mask));
            assert(bit_is_set(before, i) <==> (bit_is_set(start, i) || listed(bits_to_set@, t as int, i)));
            if listed(bits_to_set@, t + 1, i) && i != idx as int {
                let k = choose|k: int| 0 <= k < t + 1 && bits_to_set@[k] as int == i;
                assert(listed(bits_to_set@, t as int, i));
            }
            if i == idx as int {
                assert(listed(bits_to_set@, t + 1, i));
            }
            if i / 8 == n as int {
                lemma_or_mask(before[n as int], (idx % 8) as u8, (i % 8) as u8);
                assert(bit_is_set(mask@, i) == ((before[n as int] | b_mask) & mask_of(i % 8) != 0));
                assert(bit_is_set(before, i) == (before[n as int] & mask_of(i % 8) != 0));
                assert((i % 8 == idx as int % 8) <==> (i == idx as int));
            } else {
                assert(i != idx as int);
            }
        }
        t = t + 1;
    }
}

} // verus!
