//! Laws that relate several combinators, stated and proved over the
//! spec-level groupings.  Laws about a single strategy — conservation of the
//! value multiset, non-empty groups, and the forced result on inputs of
//! length zero or one — are proof obligations of the `Discriminator` trait
//! itself and are proved by every implementation.

use vstd::prelude::*;

use crate::combinators::{renamed_pairs, Invert, KeyFn, Rename};
use crate::discriminator::{bucket_of, drop_empty_groups, Discriminator, Natural};
use crate::seq_facts::lemma_reverse_reverse;

verus! {

/// No-op law: renaming through the identity yields the same grouping, group
/// order and intra-group order as the inner discriminator alone, for all
/// inputs.
pub proof fn lemma_rename_identity_noop<K, V, F: KeyFn<K, Out = K>, D: Discriminator<K, V>>(
    f: F,
    d: D,
    pairs: Seq<(K, V)>,
)
    requires
        forall|k: K| #[trigger] f.spec_call(k) == k,
    ensures
        (Rename(f, d)).spec_groups(pairs) == d.spec_groups(pairs),
{
    assert(renamed_pairs(&f, pairs) =~= pairs);
}

/// Double-invert law: inverting twice yields the identical group sequence
/// and order, for all inner discriminators and all inputs.
pub proof fn lemma_double_invert<K, V, D: Discriminator<K, V>>(d: D, pairs: Seq<(K, V)>)
    ensures
        (Invert(Invert(d))).spec_groups(pairs) == d.spec_groups(pairs),
{
    lemma_reverse_reverse(d.spec_groups(pairs));
}

/// A group is a stable selection of the input: `idxs` lists, in increasing
/// input order, the positions of exactly the pairs keyed `k`, and the group
/// holds their values in that order.
pub open spec fn is_stable_selection<V>(
    group: Seq<V>,
    pairs: Seq<(usize, V)>,
    k: usize,
    idxs: Seq<int>,
) -> bool {
    &&& idxs.len() == group.len()
    &&& (forall|a: int, b: int| 0 <= a < b < idxs.len() ==> idxs[a] < idxs[b])
    &&& (forall|a: int|
        0 <= a < idxs.len() ==> 0 <= #[trigger] idxs[a] < pairs.len() && pairs[idxs[a]].0 == k
            && pairs[idxs[a]].1 == group[a])
    &&& (forall|i: int| 0 <= i < pairs.len() && (#[trigger] pairs[i]).0 == k ==> idxs.contains(i))
}

/// The bucket of key `k` selects exactly the `k`-keyed pairs, stably.
proof fn lemma_bucket_stable<V>(pairs: Seq<(usize, V)>, k: usize)
    ensures
        exists|idxs: Seq<int>| is_stable_selection(bucket_of(pairs, k), pairs, k, idxs),
    decreases pairs.len(),
{
    if pairs.len() == 0 {
        let idxs = Seq::<int>::empty();
        assert(is_stable_selection(bucket_of(pairs, k), pairs, k, idxs));
    } else {
        let rest = pairs.drop_first();
        lemma_bucket_stable(rest, k);
        let tail = choose|idxs: Seq<int>| is_stable_selection(bucket_of(rest, k), pairs.drop_first(), k, idxs);
        let shifted = tail.map_values(|i: int| i + 1);
        if pairs[0].0 == k {
            let idxs = seq![0int] + shifted;
            assert forall|i: int|
                0 <= i < pairs.len() && (#[trigger] pairs[i]).0 == k implies idxs.contains(i) by {
                if i == 0 {
                    assert(idxs[0] == 0);
                } else {
                    assert(rest[i - 1].0 == k);
                    let a = choose|a: int| 0 <= a < tail.len() && tail[a] == i - 1;
                    assert(idxs[a + 1] == i);
                }
            }
            assert forall|a: int| 0 <= a < idxs.len() implies 0 <= #[trigger] idxs[a] < pairs.len()
                && pairs[idxs[a]].0 == k && pairs[idxs[a]].1 == bucket_of(pairs, k)[a] by {
                if a > 0 {
                    assert(idxs[a] == tail[a - 1] + 1);
                    assert(rest[tail[a - 1]] == pairs[idxs[a]]);
                    assert(bucket_of(pairs, k)[a] == bucket_of(rest, k)[a - 1]);
                }
            }
            assert(is_stable_selection(bucket_of(pairs, k), pairs, k, idxs));
        } else {
            let idxs = shifted;
            assert forall|i: int|
                0 <= i < pairs.len() && (#[trigger] pairs[i]).0 == k implies idxs.contains(i) by {
                assert(i != 0);
                assert(rest[i - 1].0 == k);
                let a = choose|a: int| 0 <= a < tail.len() && tail[a] == i - 1;
                assert(idxs[a] == i);
            }
            assert forall|a: int| 0 <= a < idxs.len() implies 0 <= #[trigger] idxs[a] < pairs.len()
                && pairs[idxs[a]].0 == k && pairs[idxs[a]].1 == bucket_of(pairs, k)[a] by {
                assert(idxs[a] == tail[a] + 1);
                assert(rest[tail[a]] == pairs[idxs[a]]);
                assert(bucket_of(pairs, k)[a] == bucket_of(rest, k)[a]);
            }
            assert(is_stable_selection(bucket_of(pairs, k), pairs, k, idxs));
        }
    }
}

/// Every group that survives the empty-bucket filter is one of the original
/// groups.
proof fn lemma_drop_empty_member<V>(s: Seq<Seq<V>>, g: int)
    requires
        0 <= g < drop_empty_groups(s).len(),
    ensures
        exists|j: int| 0 <= j < s.len() && drop_empty_groups(s)[g] == #[trigger] s[j],
    decreases s.len(),
{
    let rest = s.drop_first();
    if s[0].len() > 0 {
        if g == 0 {
            assert(drop_empty_groups(s)[0] == s[0]);
        } else {
            assert(drop_empty_groups(s)[g] == drop_empty_groups(rest)[g - 1]);
            lemma_drop_empty_member(rest, g - 1);
            let j = choose|j: int| 0 <= j < rest.len() && drop_empty_groups(rest)[g - 1] == rest[j];
            assert(drop_empty_groups(s)[g] == s[j + 1]);
        }
    } else {
        assert(drop_empty_groups(s)[g] == drop_empty_groups(rest)[g]);
        lemma_drop_empty_member(rest, g);
        let j = choose|j: int| 0 <= j < rest.len() && drop_empty_groups(rest)[g] == rest[j];
        assert(drop_empty_groups(s)[g] == s[j + 1]);
    }
}

/// Stability law: for the bounded-integer discriminator, every output group
/// is a stable selection of the input — within a group, the relative order
/// of values equals their relative order in the input, and the group holds
/// exactly the values of one key.
pub proof fn lemma_natural_stability<V>(d: &Natural, pairs: Seq<(usize, V)>, g: int)
    requires
        0 <= g < <Natural as Discriminator<usize, V>>::spec_groups(d, pairs).len(),
    ensures
        exists|k: usize, idxs: Seq<int>|
            is_stable_selection(
                #[trigger] <Natural as Discriminator<usize, V>>::spec_groups(d, pairs)[g],
                pairs,
                k,
                idxs,
            ),
{
    let table = crate::discriminator::natural_buckets(d.spec_limit(), pairs);
    lemma_drop_empty_member(table, g);
    let j = choose|j: int| 0 <= j < table.len() && drop_empty_groups(table)[g] == table[j];
    assert(table[j] == bucket_of(pairs, j as usize));
    lemma_bucket_stable(pairs, j as usize);
    let idxs = choose|idxs: Seq<int>|
        #[trigger] is_stable_selection(bucket_of(pairs, j as usize), pairs, j as usize, idxs);
    assert(is_stable_selection(
        <Natural as Discriminator<usize, V>>::spec_groups(d, pairs)[g],
        pairs,
        j as usize,
        idxs,
    ));
}

} // verus!
