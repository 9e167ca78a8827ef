use vstd::prelude::*;

verus! {

/// Bit `k` of a word sequence, counting from the low bit of the first word.
pub open spec fn bit(words: Seq<u64>, k: int) -> bool {
    (words[k / 64] >> ((k % 64) as u64)) & 1u64 == 1u64
}

/// How many of the bits below `k` are set.
pub open spec fn set_count(words: Seq<u64>, k: nat) -> nat
    decreases k,
{
    if k == 0 {
        0
    } else {
        set_count(words, (k - 1) as nat) + if bit(words, k - 1) {
            1nat
        } else {
            0nat
        }
    }
}

/// Setting bit `j` of a word sets that bit and keeps the others.
pub proof fn lemma_set_bit(w: u64, j: u64, i: u64)
    requires
        j < 64,
        i < 64,
    ensures
        ((w | (1u64 << j)) >> i) & 1u64 == if i == j {
            1u64
        } else {
            (w >> i) & 1u64
        },
{
    assert(((w | (1u64 << j)) >> i) & 1u64 == if i == j {
        1u64
    } else {
        (w >> i) & 1u64
    }) by (bit_vector)
        requires
            j < 64,
            i < 64,
    ;
}

/// Clearing bit `j` of a word clears that bit and keeps the others.
pub proof fn lemma_clear_bit(w: u64, j: u64, i: u64)
    requires
        j < 64,
        i < 64,
    ensures
        ((w & !(1u64 << j)) >> i) & 1u64 == if i == j {
            0u64
        } else {
            (w >> i) & 1u64
        },
{
    assert(((w & !(1u64 << j)) >> i) & 1u64 == if i == j {
        0u64
    } else {
        (w >> i) & 1u64
    }) by (bit_vector)
        requires
            j < 64,
            i < 64,
    ;
}

/// Masking with bit `j` tests that bit.
pub proof fn lemma_test_bit(w: u64, j: u64)
    requires
        j < 64,
    ensures
        (w & (1u64 << j) != 0u64) == ((w >> j) & 1u64 == 1u64),
        (w >> j) & 1u64 == 0u64 || (w >> j) & 1u64 == 1u64,
{
    assert((w & (1u64 << j) != 0u64) == ((w >> j) & 1u64 == 1u64)) by (bit_vector)
        requires
            j < 64,
    ;
    assert((w >> j) & 1u64 == 0u64 || (w >> j) & 1u64 == 1u64) by (bit_vector);
}

/// No bit of a zero word is set.
pub proof fn lemma_zero_bits(i: u64)
    requires
        i < 64,
    ensures
        (0u64 >> i) & 1u64 == 0u64,
{
    assert((0u64 >> i) & 1u64 == 0u64) by (bit_vector);
}

/// At most `k` of the first `k` bits are set.
pub proof fn lemma_count_bound(words: Seq<u64>, k: nat)
    ensures
        set_count(words, k) <= k,
    decreases k,
{
    if k > 0 {
        lemma_count_bound(words, (k - 1) as nat);
    }
}

/// Changing one bit changes the count below `k` by that bit's change.
pub proof fn lemma_count_change(a: Seq<u64>, b: Seq<u64>, slot: int, k: nat)
    requires
        forall|j: int| 0 <= j < k && j != slot ==> bit(a, j) == bit(b, j),
    ensures
        set_count(b, k) + (if 0 <= slot < k && bit(a, slot) {
            1int
        } else {
            0int
        }) == set_count(a, k) + (if 0 <= slot < k && bit(b, slot) {
            1int
        } else {
            0int
        }),
    decreases k,
{
    if k > 0 {
        lemma_count_change(a, b, slot, (k - 1) as nat);
    }
}

/// With every word zero, no bit below `k` is set.
pub proof fn lemma_count_zero(words: Seq<u64>, k: nat)
    requires
        forall|w: int| 0 <= w < words.len() ==> words[w] == 0u64,
        k <= words.len() * 64,
    ensures
        set_count(words, k) == 0,
    decreases k,
{
    if k > 0 {
        lemma_count_zero(words, (k - 1) as nat);
        let j = k - 1;
        assert(0 <= j / 64 < words.len());
        lemma_zero_bits((j % 64) as u64);
    }
}

} // verus!
