//! Padding of an element list to a power-of-two length.
//!
//! A tree over `n >= 1` elements has `padded_len(n)` leaves, the smallest
//! power of two that is at least `n`; the leaves past the elements hold the
//! empty string.

use vstd::arithmetic::power2::*;
use vstd::prelude::*;

verus! {

/// The number of leaves of a tree over `n` elements: `0` for no element,
/// else the smallest power of two that is at least `n`
/// (see `lemma_padded_len_is_least_power_of_two`).
pub open spec fn padded_len(n: nat) -> nat
    decreases n,
{
    if n <= 1 {
        n
    } else {
        2 * padded_len((n + 1) / 2)
    }
}

/// The leaves of a tree over `elements`: the elements, then empty strings up
/// to `padded_len`.
pub open spec fn pad(elements: Seq<Seq<char>>) -> Seq<Seq<char>> {
    Seq::new(
        padded_len(elements.len()),
        |i: int|
            if i < elements.len() {
                elements[i]
            } else {
                Seq::<char>::empty()
            },
    )
}

/// Padding never shortens.
pub proof fn lemma_padded_len_covers(n: nat)
    ensures
        n <= padded_len(n),
    decreases n,
{
    if n > 1 {
        lemma_padded_len_covers((n + 1) / 2);
    }
}

/// The padded length is a power of two.
pub proof fn lemma_padded_len_is_power_of_two(n: nat) -> (k: nat)
    requires
        n >= 1,
    ensures
        padded_len(n) == pow2(k),
    decreases n,
{
    if n == 1 {
        lemma2_to64();
        0
    } else {
        let k = lemma_padded_len_is_power_of_two((n + 1) / 2);
        lemma_pow2_unfold(k + 1);
        k + 1
    }
}

/// No power of two that covers `n` is smaller than the padded length.
pub proof fn lemma_padded_len_at_most(n: nat, k: nat)
    requires
        1 <= n <= pow2(k),
    ensures
        padded_len(n) <= pow2(k),
    decreases n,
{
    if n > 1 {
        if k == 0 {
            lemma2_to64();
        } else {
            lemma_pow2_unfold(k);
            lemma_padded_len_at_most((n + 1) / 2, (k - 1) as nat);
        }
    }
}

/// A power of two below `n` is at most half the padded length.
pub proof fn lemma_padded_len_above(n: nat, k: nat)
    requires
        pow2(k) < n,
    ensures
        2 * pow2(k) <= padded_len(n),
    decreases n,
{
    lemma_pow2_pos(k);
    if k == 0 {
        lemma2_to64();
        lemma_padded_len_covers((n + 1) / 2);
    } else {
        lemma_pow2_unfold(k);
        lemma_padded_len_above((n + 1) / 2, (k - 1) as nat);
    }
}

/// For `n >= 1`, `padded_len(n)` is the smallest power of two that is at
/// least `n`: it is a power of two, it is at least `n`, and every power of
/// two that is at least `n` is at least `padded_len(n)`.
pub proof fn lemma_padded_len_is_least_power_of_two(n: nat)
    requires
        n >= 1,
    ensures
        exists|k: nat| padded_len(n) == #[trigger] pow2(k),
        n <= padded_len(n),
        forall|j: nat| n <= #[trigger] pow2(j) ==> padded_len(n) <= pow2(j),
{
    let k = lemma_padded_len_is_power_of_two(n);
    lemma_padded_len_covers(n);
    assert forall|j: nat| n <= #[trigger] pow2(j) implies padded_len(n) <= pow2(j) by {
        lemma_padded_len_at_most(n, j);
    }
}

/// A length that is already a power of two gets no padding.
pub proof fn lemma_power_of_two_is_not_padded(k: nat)
    ensures
        padded_len(pow2(k)) == pow2(k),
{
    lemma_pow2_pos(k);
    lemma_padded_len_at_most(pow2(k), k);
    lemma_padded_len_covers(pow2(k));
}

/// Padding keeps the elements where they are and adds only empty strings.
pub proof fn lemma_pad_contents(elements: Seq<Seq<char>>)
    ensures
        pad(elements).len() == padded_len(elements.len()),
        elements.len() <= pad(elements).len(),
        pad(elements).subrange(0, elements.len() as int) == elements,
        forall|i: int|
            elements.len() <= i < pad(elements).len() ==> #[trigger] pad(elements)[i]
                == Seq::<char>::empty(),
{
    lemma_padded_len_covers(elements.len());
    assert(pad(elements).subrange(0, elements.len() as int) =~= elements);
}

/// Replacing an element commutes with padding.
pub proof fn lemma_pad_update(elements: Seq<Seq<char>>, index: int, data: Seq<char>)
    requires
        0 <= index < elements.len(),
    ensures
        pad(elements.update(index, data)) == pad(elements).update(index, data),
{
    lemma_padded_len_covers(elements.len());
    assert(pad(elements.update(index, data)) =~= pad(elements).update(index, data));
}

/// Copies `elements` and appends empty strings until the length is a power
/// of two.
pub fn pad_elements(elements: &Vec<String>) -> (padded: Vec<String>)
    requires
        padded_len(elements@.len()) <= usize::MAX,
    ensures
        padded.deep_view() == pad(elements.deep_view()),
{
    let n = elements.len();
    let mut padded: Vec<String> = Vec::new();
    if n == 0 {
        assert(padded.deep_view() =~= pad(elements.deep_view()));
        return padded;
    }
    let mut target: usize = 1;
    let ghost mut exponent: nat = 0;
    proof {
        lemma2_to64();
    }
    while target < n
        invariant
            n == elements@.len(),
            n >= 1,
            padded_len(n as nat) <= usize::MAX,
            target >= 1,
            target == pow2(exponent),
            exponent == 0 || pow2((exponent - 1) as nat) < n,
        decreases padded_len(n as nat) - target,
    {
        proof {
            lemma_padded_len_above(n as nat, exponent);
            lemma_pow2_unfold(exponent + 1);
        }
        target = target * 2;
        proof {
            exponent = exponent + 1;
        }
    }
    proof {
        lemma_padded_len_at_most(n as nat, exponent);
        if exponent > 0 {
            lemma_padded_len_above(n as nat, (exponent - 1) as nat);
            lemma_pow2_unfold(exponent);
        }
    }
    assert(target == padded_len(n as nat));
    let mut i: usize = 0;
    while i < n
        invariant
            n == elements@.len(),
            i <= n,
            padded@.len() == i,
            forall|j: int| 0 <= j < i ==> (#[trigger] padded@[j])@ == elements@[j]@,
        decreases n - i,
    {
        padded.push(elements[i].clone());
        i = i + 1;
    }
    while i < target
        invariant
            n == elements@.len(),
            n <= i <= target,
            padded@.len() == i,
            forall|j: int| 0 <= j < n ==> (#[trigger] padded@[j])@ == elements@[j]@,
            forall|j: int| n <= j < i ==> (#[trigger] padded@[j])@ == Seq::<char>::empty(),
        decreases target - i,
    {
        padded.push(String::new());
        i = i + 1;
    }
    assert(padded.deep_view() =~= pad(elements.deep_view()));
    padded
}

} // verus!
