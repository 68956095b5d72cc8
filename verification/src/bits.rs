//! Facts about single bits of machine words.

use vstd::prelude::*;

verus! {

/// Whether bit `i` of the 64-bit word `w` is set.
pub open spec fn bit64(w: u64, i: u64) -> bool {
    (w >> i) & 1 == 1
}

/// Whether bit `i` of the 32-bit word `w` is set.
pub open spec fn bit32(w: u32, i: u32) -> bool {
    (w >> i) & 1 == 1
}

/// The number of set bits among the lowest `n` bits of `w`.
pub open spec fn ones_below(w: u32, n: nat) -> nat
    decreases n,
{
    if n == 0 {
        0
    } else {
        ones_below(w, (n - 1) as nat) + if bit32(w, (n - 1) as u32) {
            1nat
        } else {
            0nat
        }
    }
}

/// The number of set bits of `w`.
pub open spec fn ones(w: u32) -> nat {
    ones_below(w, 32)
}

/// What is counted are the set bits among the lowest `n`, each once. Told are their places, in order.
pub proof fn law_ones_are_set_bits(w: u32, n: nat) -> (places: Seq<u32>)
    requires
        n <= 32,
    ensures
        places.len() == ones_below(w, n),
        forall|i: int, j: int|
            0 <= i < j < places.len() ==> #[trigger] places[i] < #[trigger] places[j],
        forall|k: u32| #[trigger] places.contains(k) <==> k < n && (w >> k) & 1 == 1,
    decreases n,
{
    if n == 0 {
        Seq::empty()
    } else {
        let last = (n - 1) as u32;
        let before = law_ones_are_set_bits(w, (n - 1) as nat);
        if bit32(w, last) {
            let places = before.push(last);
            assert forall|k: u32| #[trigger] places.contains(k) <==> k < n && (w >> k) & 1 == 1 by {
                assert(places[before.len() as int] == last);
                if before.contains(k) {
                    let i = choose|i: int| 0 <= i < before.len() && before[i] == k;
                    assert(places[i] == k);
                }
                if places.contains(k) && k != last {
                    let i = choose|i: int| 0 <= i < places.len() && places[i] == k;
                    assert(before[i] == k);
                }
            }
            assert forall|i: int, j: int| 0 <= i < j < places.len() implies #[trigger] places[i]
                < #[trigger] places[j] by {
                assert(before.contains(before[i]));
            }
            places
        } else {
            before
        }
    }
}

pub proof fn lemma_ones_below_bound(w: u32, n: nat)
    ensures
        ones_below(w, n) <= n,
    decreases n,
{
    if n > 0 {
        lemma_ones_below_bound(w, (n - 1) as nat);
    }
}

/// Counts the set bits of `w`.
pub fn count_ones(w: u32) -> (r: u32)
    ensures
        r == ones(w),
        r <= 32,
{
    let mut n: u32 = 0;
    let mut r: u32 = 0;
    while n < 32
        invariant
            n <= 32,
            r == ones_below(w, n as nat),
            r <= n,
        decreases 32 - n,
    {
        proof {
            lemma_bit32_test(w, n);
        }
        if (w >> n) & 1 != 0 {
            r += 1;
        }
        n += 1;
    }
    r
}

pub proof fn lemma_bit32_test(w: u32, i: u32)
    by (bit_vector)
    ensures
        (w >> i) & 1 == 1 || (w >> i) & 1 == 0,
{
}

pub proof fn lemma_bit64_test(w: u64, i: u64)
    by (bit_vector)
    ensures
        (w >> i) & 1 == 1 || (w >> i) & 1 == 0,
{
}

pub proof fn lemma_bit64_or(w: u64, i: u64, j: u64)
    by (bit_vector)
    requires
        i < 64,
        j < 64,
    ensures
        ((w | (1u64 << i)) >> j) & 1 == 1 <==> (i == j || (w >> j) & 1 == 1),
{
}

pub proof fn lemma_bit64_and_not(w: u64, i: u64, j: u64)
    by (bit_vector)
    requires
        i < 64,
        j < 64,
    ensures
        ((w & !(1u64 << i)) >> j) & 1 == 1 <==> (i != j && (w >> j) & 1 == 1),
{
}

pub proof fn lemma_bit64_zero(j: u64)
    by (bit_vector)
    ensures
        (0u64 >> j) & 1 == 0,
{
}

proof fn lemma_bit64_drop_lowest_at(w: u64, t: u64, j: u64)
    by (bit_vector)
    requires
        t < 64,
        j < 64,
        (w >> t) & 1 == 1,
        t == 0 || w << ((64 - t) as u64) == 0,
    ensures
        ((w & ((w - 1) as u64)) >> j) & 1 == 1 <==> (t != j && (w >> j) & 1 == 1),
{
}

/// Clearing the lowest set bit leaves every other bit as it was.
pub proof fn lemma_bit64_drop_lowest(w: u64, j: u64)
    requires
        w != 0,
        j < 64,
    ensures
        w.trailing_zeros() < 64,
        bit64(w, w.trailing_zeros() as u64),
        bit64(w & ((w - 1) as u64), j) <==> (w.trailing_zeros() != j && bit64(w, j)),
{
    vstd::std_specs::bits::axiom_u64_trailing_zeros(w);
    lemma_bit64_drop_lowest_at(w, w.trailing_zeros() as u64, j);
}

/// A word all of whose bits are set in another word is zero where that word is.
pub proof fn lemma_bit64_subset(a: u64, b: u64)
    requires
        b != 0,
        forall|i: u64| i < 64 && #[trigger] bit64(b, i) ==> bit64(a, i),
    ensures
        a != 0,
{
    lemma_bit64_drop_lowest(b, 0);
    lemma_bit64_zero(b.trailing_zeros() as u64);
}

pub proof fn lemma_bit64_drop_less(w: u64)
    by (bit_vector)
    requires
        w != 0,
    ensures
        w & ((w - 1) as u64) < w,
{
}

pub proof fn lemma_bit32_zero(j: u32)
    by (bit_vector)
    ensures
        (0u32 >> j) & 1 == 0,
{
}

pub proof fn lemma_bit32_and_not(w: u32, i: u32, j: u32)
    by (bit_vector)
    requires
        i < 32,
        j < 32,
    ensures
        ((w & !(1u32 << i)) >> j) & 1 == 1 <==> (i != j && (w >> j) & 1 == 1),
        (w >> i) & 1 == 1 ==> w & !(1u32 << i) < w,
{
}

/// The highest set bit of a non-zero word.
pub proof fn lemma_bit32_highest(w: u32)
    requires
        w != 0,
    ensures
        w.leading_zeros() < 32,
        bit32(w, (31 - w.leading_zeros()) as u32),
        forall|j: u32| 31 - w.leading_zeros() < j < 32 ==> !#[trigger] bit32(w, j),
{
    vstd::std_specs::bits::axiom_u32_leading_zeros(w);
    let t = (31 - w.leading_zeros()) as u32;
    lemma_bit32_test(w, t);
}

pub proof fn lemma_bit32_nonzero(w: u32, j: u32)
    requires
        bit32(w, j),
    ensures
        w != 0,
{
    lemma_bit32_zero(j);
}

pub proof fn lemma_bit32_or_xor(a: u32, b: u32, j: u32)
    by (bit_vector)
    ensures
        ((a | b) >> j) & 1 == 1 <==> ((a >> j) & 1 == 1 || (b >> j) & 1 == 1),
        ((a ^ b) >> j) & 1 == 1 <==> ((a >> j) & 1 == 1) != ((b >> j) & 1 == 1),
        a ^ b == 0 ==> a == b,
{
}

/// Words with the same bits are equal.
pub proof fn lemma_bit32_same(a: u32, b: u32)
    requires
        forall|j: u32| j < 32 ==> (#[trigger] bit32(a, j) <==> bit32(b, j)),
    ensures
        a == b,
{
    lemma_bit32_or_xor(a, b, 0);
    if a ^ b != 0 {
        lemma_bit32_highest(a ^ b);
        let j = (31 - (a ^ b).leading_zeros()) as u32;
        lemma_bit32_or_xor(a, b, j);
        assert(bit32(a ^ b, j));
        assert(bit32(a, j) <==> bit32(b, j));
    }
}

proof fn lemma_bit32_low(w: u32, s: u32, j: u32)
    by (bit_vector)
    requires
        s < 32,
        j < 32,
    ensures
        ((w & !(0xffff_ffffu32 << s)) >> j) & 1 == 1 <==> (j < s && (w >> j) & 1 == 1),
{
}

proof fn lemma_ones_masked_below(w: u32, s: u32, n: nat)
    requires
        s < 32,
        n <= 32,
    ensures
        ones_below(w & !(0xffff_ffffu32 << s), n) == ones_below(
            w,
            if n <= s {
                n
            } else {
                s as nat
            },
        ),
    decreases n,
{
    if n > 0 {
        lemma_ones_masked_below(w, s, (n - 1) as nat);
        lemma_bit32_low(w, s, (n - 1) as u32);
    }
}

/// Masking a word to its lowest `s` bits counts the set bits among them.
pub proof fn lemma_ones_masked(w: u32, s: u32)
    requires
        s < 32,
    ensures
        ones(w & !(0xffff_ffffu32 << s)) == ones_below(w, s as nat),
        ones_below(w, s as nat) <= s,
{
    lemma_ones_masked_below(w, s, 32);
    lemma_ones_below_bound(w, s as nat);
}

} // verus!
