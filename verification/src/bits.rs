//! The mathematical model of a bit vector: a `Seq<bool>` indexed by bit
//! position, together with the set-algebra and counting functions that the
//! contracts of the container are stated over, and the laws that relate them.
use vstd::prelude::*;

verus! {

/// Number of positions of `s` that hold `true`.
pub open spec fn count_true(s: Seq<bool>) -> nat
    decreases s.len(),
{
    if s.len() == 0 {
        0
    } else {
        count_true(s.drop_last()) + if s.last() {
            1nat
        } else {
            0nat
        }
    }
}

/// Number of `false` positions at the high end of `s`, above the highest
/// `true` position; the whole length when nothing is set.
pub open spec fn leading_false(s: Seq<bool>) -> nat
    decreases s.len(),
{
    if s.len() == 0 || s.last() {
        0
    } else {
        1 + leading_false(s.drop_last())
    }
}

/// The positions of `s` that hold `true`, in ascending order.
pub open spec fn true_indices(s: Seq<bool>) -> Seq<usize>
    decreases s.len(),
{
    if s.len() == 0 {
        Seq::empty()
    } else if s.last() {
        true_indices(s.drop_last()).push((s.len() - 1) as usize)
    } else {
        true_indices(s.drop_last())
    }
}

/// A sequence of `n` copies of `value`.
pub open spec fn filled(n: nat, value: bool) -> Seq<bool> {
    Seq::new(n, |i: int| value)
}

/// Position-wise conjunction; the result has the length of `a`.
pub open spec fn bits_and(a: Seq<bool>, b: Seq<bool>) -> Seq<bool> {
    Seq::new(a.len(), |i: int| a[i] && b[i])
}

/// Position-wise disjunction; the result has the length of `a`.
pub open spec fn bits_or(a: Seq<bool>, b: Seq<bool>) -> Seq<bool> {
    Seq::new(a.len(), |i: int| a[i] || b[i])
}

/// Position-wise exclusive or; the result has the length of `a`.
pub open spec fn bits_xor(a: Seq<bool>, b: Seq<bool>) -> Seq<bool> {
    Seq::new(a.len(), |i: int| a[i] != b[i])
}

/// Position-wise complement.
pub open spec fn bits_not(a: Seq<bool>) -> Seq<bool> {
    Seq::new(a.len(), |i: int| !a[i])
}

/// The positions set in `a` and not in `b`; the result has the length of `a`.
pub open spec fn bits_difference(a: Seq<bool>, b: Seq<bool>) -> Seq<bool> {
    bits_and(a, bits_not(b))
}

/// Disjunction that keeps the length of `a`: positions of `a` beyond the end
/// of `b` are unchanged, positions of `b` beyond the end of `a` are dropped.
pub open spec fn bits_or_within(a: Seq<bool>, b: Seq<bool>) -> Seq<bool> {
    Seq::new(a.len(), |i: int| a[i] || (i < b.len() && b[i]))
}

/// `s` cut or extended to `n` positions, new positions holding `value`.
pub open spec fn resized(s: Seq<bool>, n: nat, value: bool) -> Seq<bool> {
    if n <= s.len() {
        s.take(n as int)
    } else {
        s + filled((n - s.len()) as nat, value)
    }
}

/// `s` with position `index` holding `value`, extended with `false` first
/// when `index` lies beyond its end.
pub open spec fn with_bit(s: Seq<bool>, index: nat, value: bool) -> Seq<bool> {
    resized(s, if index < s.len() {
        s.len()
    } else {
        index + 1
    }, false).update(index as int, value)
}

/// One more than the largest element of `indices`; zero when there is none.
pub open spec fn index_bound(indices: Seq<usize>) -> nat
    decreases indices.len(),
{
    if indices.len() == 0 {
        0
    } else if indices.last() + 1 > index_bound(indices.drop_last()) {
        (indices.last() + 1) as nat
    } else {
        index_bound(indices.drop_last())
    }
}

/// The bit vector that holds exactly the positions listed in `indices`. It is
/// as long as the list, or reaches just past the largest index listed,
/// whichever is more.
pub open spec fn from_indices(indices: Seq<usize>) -> Seq<bool> {
    Seq::new(
        if indices.len() > index_bound(indices) {
            indices.len()
        } else {
            index_bound(indices)
        },
        |i: int| exists|k: int| 0 <= k < indices.len() && #[trigger] indices[k] == i,
    )
}

/// What a checked read at `index` yields.
pub open spec fn read(s: Seq<bool>, index: int) -> Option<bool> {
    if 0 <= index < s.len() {
        Some(s[index])
    } else {
        None
    }
}

/// A sequence holds no more set positions than positions.
pub proof fn lemma_count_true_bounds(s: Seq<bool>)
    ensures
        count_true(s) <= s.len(),
    decreases s.len(),
{
    if s.len() > 0 {
        lemma_count_true_bounds(s.drop_last());
    }
}

/// The count of a concatenation is the sum of the counts.
pub proof fn lemma_count_true_concat(a: Seq<bool>, b: Seq<bool>)
    ensures
        count_true(a + b) == count_true(a) + count_true(b),
    decreases b.len(),
{
    if b.len() == 0 {
        assert(a + b =~= a);
    } else {
        assert((a + b).drop_last() =~= a + b.drop_last());
        lemma_count_true_concat(a, b.drop_last());
    }
}

/// The count splits at any position into the count below it and the count
/// from it on.
pub proof fn lemma_count_true_take(s: Seq<bool>, n: int)
    requires
        0 <= n <= s.len(),
    ensures
        count_true(s) == count_true(s.take(n)) + count_true(s.skip(n)),
        count_true(s.take(n)) <= count_true(s),
{
    assert(s =~= s.take(n) + s.skip(n));
    lemma_count_true_concat(s.take(n), s.skip(n));
}

/// The count below `b` is the count below `a` plus the count between them.
pub proof fn lemma_count_true_range(s: Seq<bool>, a: int, b: int)
    requires
        0 <= a <= b <= s.len(),
    ensures
        count_true(s.take(b)) == count_true(s.take(a)) + count_true(s.subrange(a, b)),
{
    assert(s.take(b) =~= s.take(a) + s.subrange(a, b));
    lemma_count_true_concat(s.take(a), s.subrange(a, b));
}

/// One more position adds one to the count exactly when it is set.
pub proof fn lemma_count_true_step(s: Seq<bool>, n: int)
    requires
        0 <= n < s.len(),
    ensures
        count_true(s.take(n + 1)) == count_true(s.take(n)) + if s[n] {
            1nat
        } else {
            0nat
        },
{
    assert(s.take(n + 1).drop_last() =~= s.take(n));
}

/// A sequence without a set position counts zero.
pub proof fn lemma_count_true_none(s: Seq<bool>)
    requires
        forall|i: int| 0 <= i < s.len() ==> !s[i],
    ensures
        count_true(s) == 0,
    decreases s.len(),
{
    if s.len() > 0 {
        lemma_count_true_none(s.drop_last());
    }
}

/// A sequence without a set position counts zero, and only such a one.
pub proof fn lemma_count_true_zero_iff(s: Seq<bool>)
    ensures
        count_true(s) == 0 <==> (forall|i: int| 0 <= i < s.len() ==> !s[i]),
    decreases s.len(),
{
    if s.len() > 0 {
        let t = s.drop_last();
        lemma_count_true_zero_iff(t);
        if count_true(s) == 0 {
            assert forall|i: int| 0 <= i < s.len() implies !s[i] by {
                if i < t.len() {
                    assert(t[i] == s[i]);
                }
            }
        }
        if forall|i: int| 0 <= i < s.len() ==> !s[i] {
            assert forall|i: int| 0 <= i < t.len() implies !t[i] by {
                assert(t[i] == s[i]);
            }
        }
    }
}

/// A sequence counts its whole length exactly when every position is set.
pub proof fn lemma_count_true_full_iff(s: Seq<bool>)
    ensures
        count_true(s) == s.len() <==> (forall|i: int| 0 <= i < s.len() ==> s[i]),
    decreases s.len(),
{
    if s.len() > 0 {
        let t = s.drop_last();
        lemma_count_true_full_iff(t);
        lemma_count_true_bounds(t);
        if count_true(s) == s.len() {
            assert forall|i: int| 0 <= i < s.len() implies s[i] by {
                if i < t.len() {
                    assert(t[i] == s[i]);
                }
            }
        }
        if forall|i: int| 0 <= i < s.len() ==> s[i] {
            assert forall|i: int| 0 <= i < t.len() implies t[i] by {
                assert(t[i] == s[i]);
            }
        }
    }
}

/// `leading_false` is the one number `r` such that the top `r` positions are
/// clear and the position just below them, if there is one, is set.
pub proof fn lemma_leading_false_unique(s: Seq<bool>, r: nat)
    requires
        r <= s.len(),
        forall|i: int| s.len() - r <= i < s.len() ==> !s[i],
        r < s.len() ==> s[s.len() - 1 - r],
    ensures
        leading_false(s) == r,
    decreases s.len(),
{
    if s.len() > 0 && r > 0 {
        let t = s.drop_last();
        assert forall|i: int| t.len() - (r - 1) <= i < t.len() implies !t[i] by {
            assert(t[i] == s[i]);
        }
        lemma_leading_false_unique(t, (r - 1) as nat);
    }
}

/// What `leading_false` says of the positions: the top ones are clear, and
/// the one just below them, if there is one, is set.
pub proof fn lemma_leading_false_bounds(s: Seq<bool>)
    ensures
        leading_false(s) <= s.len(),
        forall|i: int| s.len() - leading_false(s) <= i < s.len() ==> !s[i],
        leading_false(s) < s.len() ==> s[s.len() - 1 - leading_false(s)],
    decreases s.len(),
{
    if s.len() > 0 && !s.last() {
        let t = s.drop_last();
        lemma_leading_false_bounds(t);
        assert forall|i: int| s.len() - leading_false(s) <= i < s.len() implies !s[i] by {
            if i < t.len() {
                assert(t[i] == s[i]);
            }
        }
    }
}

/// One more position appends its index to the index list exactly when it is
/// set.
pub proof fn lemma_true_indices_of_take(s: Seq<bool>, n: int)
    requires
        0 <= n < s.len(),
        s.len() <= usize::MAX,
    ensures
        true_indices(s.take(n + 1)) == if s[n] {
            true_indices(s.take(n)).push(n as usize)
        } else {
            true_indices(s.take(n))
        },
{
    assert(s.take(n + 1).drop_last() =~= s.take(n));
}

/// Complementing twice gives the sequence back.
pub proof fn law_inverse_involution(s: Seq<bool>)
    ensures
        bits_not(bits_not(s)) == s,
{
    assert(bits_not(bits_not(s)) =~= s);
}

/// For sequences of one length, what is in `a` and not in `b`, joined with
/// what is in `b` and not in `a`, is the symmetric difference of the two.
pub proof fn law_difference_union_is_xor(a: Seq<bool>, b: Seq<bool>)
    requires
        a.len() == b.len(),
    ensures
        bits_or(bits_difference(a, b), bits_difference(b, a)) == bits_xor(a, b),
{
    assert(bits_or(bits_difference(a, b), bits_difference(b, a)) =~= bits_xor(a, b));
}

/// Inclusion and exclusion: for sequences of one length, the set positions of
/// the union and of the intersection together number as many as those of the
/// two operands.
pub proof fn law_inclusion_exclusion(a: Seq<bool>, b: Seq<bool>)
    requires
        a.len() == b.len(),
    ensures
        count_true(bits_or(a, b)) + count_true(bits_and(a, b)) == count_true(a) + count_true(b),
    decreases a.len(),
{
    if a.len() > 0 {
        let a0 = a.drop_last();
        let b0 = b.drop_last();
        law_inclusion_exclusion(a0, b0);
        assert(bits_or(a, b).drop_last() =~= bits_or(a0, b0));
        assert(bits_and(a, b).drop_last() =~= bits_and(a0, b0));
    }
}

/// Growing a sequence with set bits leaves what was there, sets every new
/// position, and gives exactly the length asked for.
pub proof fn law_resize_grow_fills(s: Seq<bool>, n: nat)
    requires
        n > s.len(),
    ensures
        resized(s, n, true).len() == n,
        forall|i: int| 0 <= i < s.len() ==> resized(s, n, true)[i] == s[i],
        forall|i: int| s.len() <= i < n ==> resized(s, n, true)[i],
{
}

/// Every listed index lies below the bound, and a non-empty list reaches it.
pub proof fn lemma_index_bound(indices: Seq<usize>)
    ensures
        forall|k: int| 0 <= k < indices.len() ==> #[trigger] indices[k] < index_bound(indices),
        indices.len() > 0 ==> exists|k: int|
            0 <= k < indices.len() && #[trigger] indices[k] + 1 == index_bound(indices),
        indices.len() == 0 ==> index_bound(indices) == 0,
    decreases indices.len(),
{
    if indices.len() > 0 {
        let t = indices.drop_last();
        lemma_index_bound(t);
        assert forall|k: int| 0 <= k < indices.len() implies #[trigger] indices[k] < index_bound(
            indices,
        ) by {
            if k < t.len() {
                assert(t[k] == indices[k]);
            }
        }
        if indices.last() + 1 > index_bound(t) {
            assert(indices[indices.len() - 1] + 1 == index_bound(indices));
        } else {
            let k = choose|k: int| 0 <= k < t.len() && #[trigger] t[k] + 1 == index_bound(t);
            assert(indices[k] == t[k]);
        }
    }
}

/// Reading the vector built from a list of indices: a position below the
/// bound of the list reads as set exactly when the list names it, and a
/// position at or beyond the length reads as absent.
pub proof fn law_from_indices_read(indices: Seq<usize>, i: int)
    requires
        0 <= i,
    ensures
        i < index_bound(indices) ==> read(from_indices(indices), i) == Some(
            indices.contains(i as usize),
        ),
        i < from_indices(indices).len() ==> read(from_indices(indices), i) == Some(
            exists|k: int| 0 <= k < indices.len() && #[trigger] indices[k] == i,
        ),
        i >= from_indices(indices).len() ==> read(from_indices(indices), i) is None,
        from_indices(indices).len() >= index_bound(indices),
{
    if i < index_bound(indices) {
        lemma_index_bound(indices);
        let listed = exists|k: int| 0 <= k < indices.len() && #[trigger] indices[k] == i;
        if listed {
            let k = choose|k: int| 0 <= k < indices.len() && #[trigger] indices[k] == i;
            assert(indices[k] == i as usize);
        }
        if indices.contains(i as usize) {
            let k = choose|k: int| 0 <= k < indices.len() && indices[k] == i as usize;
            assert(indices[k] == i);
        }
    }
}

/// The index sequence of a bit sequence lists exactly its set positions, each
/// once and in ascending order.
pub proof fn law_true_indices(s: Seq<bool>)
    requires
        s.len() <= usize::MAX,
    ensures
        true_indices(s).len() == count_true(s),
        forall|k: int|
            0 <= k < true_indices(s).len() ==> (#[trigger] true_indices(s)[k]) < s.len()
                && s[true_indices(s)[k] as int],
        forall|j: int, k: int|
            0 <= j < k < true_indices(s).len() ==> true_indices(s)[j] < true_indices(s)[k],
        forall|i: int| 0 <= i < s.len() && s[i] ==> true_indices(s).contains(i as usize),
    decreases s.len(),
{
    if s.len() > 0 {
        let t = s.drop_last();
        law_true_indices(t);
        let r = true_indices(s);
        let r0 = true_indices(t);
        assert forall|k: int| 0 <= k < r.len() implies (#[trigger] r[k]) < s.len() && s[r[k] as int] by {
            if k < r0.len() {
                assert(r[k] == r0[k]);
                assert(t[r0[k] as int] == s[r0[k] as int]);
            }
        }
        assert forall|j: int, k: int| 0 <= j < k < r.len() implies r[j] < r[k] by {
            assert(r[j] == r0[j]);
            if k < r0.len() {
                assert(r[k] == r0[k]);
            }
        }
        assert forall|i: int| 0 <= i < s.len() && s[i] implies r.contains(i as usize) by {
            if i < t.len() {
                assert(t[i]);
                let k = choose|k: int| 0 <= k < r0.len() && r0[k] == i as usize;
                assert(r[k] == i as usize);
            } else {
                assert(r[r.len() - 1] == i as usize);
            }
        }
    }
}

/// Packing a boolean sequence and listing the set positions of the result
/// gives the positions at which the sequence holds `true`: each of them, and
/// nothing else.
pub proof fn law_round_trip_indices(bs: Seq<bool>, i: int)
    requires
        bs.len() <= usize::MAX,
        0 <= i <= usize::MAX,
    ensures
        true_indices(bs).contains(i as usize) <==> (i < bs.len() && bs[i]),
{
    law_true_indices(bs);
    if true_indices(bs).contains(i as usize) {
        let k = choose|k: int| 0 <= k < true_indices(bs).len() && true_indices(bs)[k] == i as usize;
        assert(bs[true_indices(bs)[k] as int]);
    }
}

} // verus!
