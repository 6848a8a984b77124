//! Small general facts about sequences and multisets that the discriminator
//! proofs share.

use vstd::prelude::*;

verus! {

/// Popping the last element of `s` is the same as dropping the first element
/// of its reversal.
pub proof fn lemma_reverse_pop<A>(s: Seq<A>)
    requires
        s.len() > 0,
    ensures
        s.reverse()[0] == s.last(),
        s.drop_last().reverse() == s.reverse().drop_first(),
{
    assert(s.drop_last().reverse() =~= s.reverse().drop_first());
}

/// Reversing the outer order of a sequence of sequences does not change the
/// multiset of the flattened elements.
pub proof fn lemma_flatten_reverse_multiset<A>(s: Seq<Seq<A>>)
    ensures
        s.reverse().flatten().to_multiset() == s.flatten().to_multiset(),
    decreases s.len(),
{
    broadcast use vstd::seq_lib::group_to_multiset_ensures;
    broadcast use vstd::multiset::group_multiset_axioms;

    if s.len() == 0 {
        assert(s.reverse() =~= s);
    } else {
        let rest = s.drop_first();
        lemma_flatten_reverse_multiset(rest);
        assert(s.reverse() =~= rest.reverse().push(s[0]));
        rest.reverse().lemma_flatten_push(s[0]);
        assert(s.reverse().flatten() == rest.reverse().flatten() + s[0]);
        assert(s.flatten() == s[0] + rest.flatten());
        vstd::seq_lib::lemma_multiset_commutative(rest.reverse().flatten(), s[0]);
        vstd::seq_lib::lemma_multiset_commutative(s[0], rest.flatten());
        assert(s.reverse().flatten().to_multiset() =~= s.flatten().to_multiset());
    }
}

/// An element of any member sequence occurs in the flattening.
pub proof fn lemma_flatten_contains<A>(s: Seq<Seq<A>>, i: int, x: A)
    requires
        0 <= i < s.len(),
        s[i].contains(x),
    ensures
        s.flatten().contains(x),
    decreases s.len(),
{
    if i == 0 {
        assert(s.flatten() == s[0] + s.drop_first().flatten());
        let j = choose|j: int| 0 <= j < s[0].len() && s[0][j] == x;
        assert(s.flatten()[j] == x);
    } else {
        lemma_flatten_contains(s.drop_first(), i - 1, x);
        assert(s.flatten() == s[0] + s.drop_first().flatten());
        let rest = s.drop_first().flatten();
        let j = choose|j: int| 0 <= j < rest.len() && rest[j] == x;
        assert(s.flatten()[s[0].len() + j] == x);
    }
}

/// Mapping a function over multiset-equal sequences gives multiset-equal
/// images.
pub proof fn lemma_map_values_multiset<A, B>(s: Seq<A>, t: Seq<A>, f: spec_fn(A) -> B)
    requires
        s.to_multiset() == t.to_multiset(),
    ensures
        s.map_values(f).to_multiset() == t.map_values(f).to_multiset(),
    decreases s.len(),
{
    broadcast use vstd::seq_lib::group_to_multiset_ensures;
    broadcast use vstd::multiset::group_multiset_axioms;

    if s.len() == 0 {
        assert(s.to_multiset().len() == s.len());
        assert(t.to_multiset().len() == t.len());
        assert(s.map_values(f) =~= t.map_values(f));
    } else {
        let x = s[0];
        assert(s.contains(x));
        assert(t.to_multiset().count(x) > 0);
        assert(t.contains(x));
        let j = choose|j: int| 0 <= j < t.len() && t[j] == x;
        assert(s.remove(0).to_multiset() == s.to_multiset().remove(x));
        assert(s.remove(0) =~= s.drop_first());
        assert(t.remove(j).to_multiset() == t.to_multiset().remove(x));
        lemma_map_values_multiset(s.drop_first(), t.remove(j), f);
        assert(s.map_values(f) =~= s.drop_first().map_values(f).insert(0, f(x)));
        assert(s.drop_first().map_values(f).insert(0, f(x)).to_multiset()
            == s.drop_first().map_values(f).to_multiset().insert(f(x)));
        assert(t.map_values(f).remove(j) =~= t.remove(j).map_values(f));
        assert(t.map_values(f)[j] == f(x));
        assert(t.map_values(f).remove(j).to_multiset() == t.map_values(f).to_multiset().remove(
            f(x),
        ));
        assert(t.map_values(f).contains(f(x)));
        assert(t.map_values(f).to_multiset().count(f(x)) > 0);
        assert(s.map_values(f).to_multiset() =~= t.map_values(f).to_multiset());
    }
}

/// Reversal is an involution.
pub proof fn lemma_reverse_reverse<A>(s: Seq<A>)
    ensures
        s.reverse().reverse() == s,
{
    assert(s.reverse().reverse() =~= s);
}

} // verus!
