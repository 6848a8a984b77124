//! The discriminator contract and the primitive strategies.
//!
//! A discriminator partitions a sequence of key/value pairs into groups of
//! values sharing one discriminated class, in worst-case linear time and
//! without comparing keys pairwise.  Every strategy states its grouping as a
//! spec-level function of the input, and proves three laws about it: groups
//! are never empty, the values are conserved exactly, and inputs of length
//! zero or one come out as the obvious group sequence.

use vstd::multiset::Multiset;
use vstd::prelude::*;

use crate::combinators::{renamed_pairs, Invert, KeyFn, Product, Rename, Sum};
use crate::groups::{reversed, DiscriminateSorted};

verus! {

/// The values of a pair sequence, keys dropped, input order kept.
pub open spec fn values_of<K, V>(pairs: Seq<(K, V)>) -> Seq<V> {
    pairs.map_values(|kv: (K, V)| kv.1)
}

/// The key domain a strategy accepts, independent of the values it carries.
pub trait KeySpace<K> {
    /// Which keys the strategy accepts; feeding it any other key is a caller
    /// error.
    spec fn valid_key(&self, key: K) -> bool;
}

/// Every key of `pairs` is one the strategy `d` accepts.
pub open spec fn keys_valid<K, V, D: KeySpace<K>>(d: &D, pairs: Seq<(K, V)>) -> bool {
    forall|i: int| 0 <= i < pairs.len() ==> d.valid_key(#[trigger] pairs[i].0)
}

/// A grouping strategy over keys of type `K`, with opaque values of type `V`.
pub trait Discriminator<K, V>: Sized + KeySpace<K> {
    /// The groups this strategy yields on the given input.
    spec fn spec_groups(&self, pairs: Seq<(K, V)>) -> Seq<Seq<V>>;

    /// Partitions `pairs` into the strategy's groups, stably: each group
    /// holds its values in input order.
    fn discriminate_sorted(&self, pairs: Vec<(K, V)>) -> (groups: DiscriminateSorted<V>)
        requires
            forall|i: int| 0 <= i < pairs@.len() ==> self.valid_key(#[trigger] pairs@[i].0),
        ensures
            groups@ == self.spec_groups(pairs@),
    ;

    /// A group observed by a consumer is never empty.
    proof fn lemma_groups_nonempty(&self, pairs: Seq<(K, V)>)
        requires
            forall|i: int| 0 <= i < pairs.len() ==> self.valid_key(#[trigger] pairs[i].0),
        ensures
            forall|g: int|
                0 <= g < self.spec_groups(pairs).len() ==> #[trigger] self.spec_groups(
                    pairs,
                )[g].len() > 0,
    ;

    /// Conservation: the values across all groups are exactly the input
    /// values, each delivered once — no drops, no duplicates.
    proof fn lemma_conservation(&self, pairs: Seq<(K, V)>)
        requires
            forall|i: int| 0 <= i < pairs.len() ==> self.valid_key(#[trigger] pairs[i].0),
        ensures
            self.spec_groups(pairs).flatten().to_multiset() == values_of(pairs).to_multiset(),
    ;

    /// Inputs of length zero or one have a forced result: no group at all,
    /// or one group holding the one value.
    proof fn lemma_fast_path(&self, pairs: Seq<(K, V)>)
        requires
            pairs.len() <= 1,
            forall|i: int| 0 <= i < pairs.len() ==> self.valid_key(#[trigger] pairs[i].0),
        ensures
            pairs.len() == 0 ==> self.spec_groups(pairs) == Seq::<Seq<V>>::empty(),
            pairs.len() == 1 ==> self.spec_groups(pairs) == seq![seq![pairs[0].1]],
    ;

    /// Borrows the discriminator, for composing without consuming it.
    fn by_ref(&self) -> (r: &Self)
        ensures
            r == self,
    {
        self
    }

    /// Wraps the discriminator so that group order comes out reversed.
    fn invert(self) -> (r: Invert<Self>)
        ensures
            r == Invert(self),
    {
        Invert(self)
    }

    /// Prefixes the discriminator with a key transformation.
    fn map_key<F>(self, f: F) -> (r: Rename<F, Self>)
        ensures
            r == Rename(f, self),
    {
        Rename(f, self)
    }

    /// Pairs this discriminator with another under a tagged-union key
    /// domain, this side's groups first.
    fn sum_left<D>(self, other: D) -> (r: Sum<Self, D>)
        ensures
            r == (Sum { is_right_biased: false, left: self, right: other }),
    {
        Sum { is_right_biased: false, left: self, right: other }
    }

    /// Pairs this discriminator with another under a tagged-union key
    /// domain, the other side's groups first.
    fn sum_right<D>(self, other: D) -> (r: Sum<Self, D>)
        ensures
            r == (Sum { is_right_biased: true, left: self, right: other }),
    {
        Sum { is_right_biased: true, left: self, right: other }
    }

    /// Nests this discriminator outside another over a paired key domain.
    fn product_left<D>(self, other: D) -> (r: Product<Self, D>)
        ensures
            r == (Product { is_right_biased: false, left: self, right: other }),
    {
        Product { is_right_biased: false, left: self, right: other }
    }

    /// Nests this discriminator inside another over a paired key domain.
    fn product_right<D>(self, other: D) -> (r: Product<Self, D>)
        ensures
            r == (Product { is_right_biased: true, left: self, right: other }),
    {
        Product { is_right_biased: true, left: self, right: other }
    }
}

/// Every value in a yielded group was an input value: conservation rules out
/// inventing values.
pub proof fn lemma_group_value_from_input<K, V, D: Discriminator<K, V>>(
    d: &D,
    pairs: Seq<(K, V)>,
    g: int,
    j: int,
)
    requires
        keys_valid(d, pairs),
        0 <= g < d.spec_groups(pairs).len(),
        0 <= j < d.spec_groups(pairs)[g].len(),
    ensures
        values_of(pairs).contains(d.spec_groups(pairs)[g][j]),
{
    broadcast use vstd::seq_lib::group_to_multiset_ensures;

    d.lemma_conservation(pairs);
    let x = d.spec_groups(pairs)[g][j];
    assert(d.spec_groups(pairs)[g].contains(x));
    crate::seq_facts::lemma_flatten_contains(d.spec_groups(pairs), g, x);
    assert(d.spec_groups(pairs).flatten().to_multiset().count(x) > 0);
    assert(values_of(pairs).to_multiset().count(x) > 0);
}

/// The trivial discriminator: one class for everything.  It never inspects a
/// key and yields all values as a single group in input order.
#[derive(Debug, Copy, Clone, Default)]
pub struct Trivial;

impl Trivial {
    pub fn new() -> (r: Trivial)
        ensures
            r == Trivial,
    {
        Trivial
    }
}

impl<K> KeySpace<K> for Trivial {
    open spec fn valid_key(&self, key: K) -> bool {
        true
    }
}

impl<K, V> Discriminator<K, V> for Trivial {
    open spec fn spec_groups(&self, pairs: Seq<(K, V)>) -> Seq<Seq<V>> {
        if pairs.len() == 0 {
            Seq::empty()
        } else {
            seq![values_of(pairs)]
        }
    }

    fn discriminate_sorted(&self, pairs: Vec<(K, V)>) -> (groups: DiscriminateSorted<V>) {
        if pairs.len() == 0 {
            return DiscriminateSorted::empty();
        }
        let ghost orig = pairs@;
        let mut vals: Vec<V> = Vec::new();
        let mut rest = reversed(pairs);
        while rest.len() > 0
            invariant
                vals@ + values_of(rest@.reverse()) == values_of(orig),
            decreases rest@.len(),
        {
            let ghost before = rest@;
            let kv = rest.pop().unwrap();
            proof {
                crate::seq_facts::lemma_reverse_pop(before);
                assert(values_of(before.reverse()) =~= seq![kv.1] + values_of(rest@.reverse()));
            }
            vals.push(kv.1);
            proof {
                assert(vals@ + values_of(rest@.reverse()) =~= values_of(orig));
            }
        }
        proof {
            assert(vals@ =~= values_of(orig));
        }
        let mut groups = DiscriminateSorted::empty();
        groups.push_group(vals);
        proof {
            assert(groups@ =~= self.spec_groups(orig));
        }
        groups
    }

    proof fn lemma_groups_nonempty(&self, pairs: Seq<(K, V)>) {
        if pairs.len() > 0 {
            assert(self.spec_groups(pairs)[0].len() == pairs.len());
        }
    }

    proof fn lemma_conservation(&self, pairs: Seq<(K, V)>) {
        if pairs.len() == 0 {
            assert(self.spec_groups(pairs).flatten() =~= values_of(pairs));
        } else {
            let gs = self.spec_groups(pairs);
            gs.lemma_flatten_one_element();
            assert(gs.flatten() == values_of(pairs));
        }
    }

    proof fn lemma_fast_path(&self, pairs: Seq<(K, V)>) {
        if pairs.len() == 1 {
            assert(values_of(pairs) =~= seq![pairs[0].1]);
        }
    }
}

/// The views of a sequence of vectors.
pub open spec fn vec_views<V>(s: Seq<Vec<V>>) -> Seq<Seq<V>> {
    s.map_values(|b: Vec<V>| b@)
}

/// The bucket for key `k`: the values of the pairs keyed `k`, in input order.
pub open spec fn bucket_of<V>(pairs: Seq<(usize, V)>, k: usize) -> Seq<V>
    decreases pairs.len(),
{
    if pairs.len() == 0 {
        Seq::empty()
    } else {
        let rest = bucket_of(pairs.drop_first(), k);
        if pairs[0].0 == k {
            seq![pairs[0].1] + rest
        } else {
            rest
        }
    }
}

/// All `limit` buckets, in ascending key order.
pub open spec fn natural_buckets<V>(limit: usize, pairs: Seq<(usize, V)>) -> Seq<Seq<V>> {
    Seq::new(limit as nat, |k: int| bucket_of(pairs, k as usize))
}

/// Drops the empty groups of a group sequence, keeping the order.
pub open spec fn drop_empty_groups<V>(s: Seq<Seq<V>>) -> Seq<Seq<V>>
    decreases s.len(),
{
    if s.len() == 0 {
        Seq::empty()
    } else {
        let rest = drop_empty_groups(s.drop_first());
        if s[0].len() > 0 {
            seq![s[0]] + rest
        } else {
            rest
        }
    }
}

/// Every group kept by `drop_empty_groups` is non-empty.
proof fn lemma_drop_empty_groups_nonempty<V>(s: Seq<Seq<V>>)
    ensures
        forall|g: int|
            0 <= g < drop_empty_groups(s).len() ==> #[trigger] drop_empty_groups(s)[g].len() > 0,
    decreases s.len(),
{
    if s.len() > 0 {
        lemma_drop_empty_groups_nonempty(s.drop_first());
        let rest = drop_empty_groups(s.drop_first());
        if s[0].len() > 0 {
            assert(drop_empty_groups(s) == seq![s[0]] + rest);
            assert forall|g: int| 0 <= g < drop_empty_groups(s).len() implies #[trigger] drop_empty_groups(
                s,
            )[g].len() > 0 by {
                if g > 0 {
                    assert(drop_empty_groups(s)[g] == rest[g - 1]);
                }
            }
        }
    }
}

/// Dropping empty groups does not change the flattened value sequence.
proof fn lemma_drop_empty_groups_flatten<V>(s: Seq<Seq<V>>)
    ensures
        drop_empty_groups(s).flatten() == s.flatten(),
    decreases s.len(),
{
    if s.len() == 0 {
    } else {
        let rest = s.drop_first();
        lemma_drop_empty_groups_flatten(rest);
        if s[0].len() > 0 {
            let de = drop_empty_groups(s);
            assert(de == seq![s[0]] + drop_empty_groups(rest));
            assert(de.len() > 0 && de[0] == s[0]);
            assert(de.drop_first() =~= drop_empty_groups(rest));
            assert(de.flatten() == s[0] + drop_empty_groups(rest).flatten());
            assert(s.flatten() == s[0] + rest.flatten());
        } else {
            assert(s[0] =~= Seq::<V>::empty());
            assert(s.flatten() == s[0] + rest.flatten());
            assert(s[0] + rest.flatten() =~= rest.flatten());
        }
    }
}

/// A group sequence whose members are all empty flattens to nothing and is
/// dropped entirely.
proof fn lemma_all_empty_groups<V>(s: Seq<Seq<V>>)
    requires
        forall|i: int| 0 <= i < s.len() ==> #[trigger] s[i].len() == 0,
    ensures
        drop_empty_groups(s) == Seq::<Seq<V>>::empty(),
        s.flatten() == Seq::<V>::empty(),
    decreases s.len(),
{
    if s.len() > 0 {
        assert(forall|i: int|
            0 <= i < s.drop_first().len() ==> #[trigger] s.drop_first()[i].len() == 0);
        lemma_all_empty_groups(s.drop_first());
        assert(s[0] =~= Seq::<V>::empty());
        assert(s.flatten() == s[0] + s.drop_first().flatten());
        assert(s[0] + Seq::<V>::empty() =~= Seq::<V>::empty());
    }
}

/// A group sequence with exactly one non-empty member, at index `j`, keeps
/// only that member.
proof fn lemma_single_nonempty_group<V>(s: Seq<Seq<V>>, j: int)
    requires
        0 <= j < s.len(),
        s[j].len() > 0,
        forall|i: int| 0 <= i < s.len() && i != j ==> #[trigger] s[i].len() == 0,
    ensures
        drop_empty_groups(s) == seq![s[j]],
    decreases s.len(),
{
    if j == 0 {
        assert(forall|i: int|
            0 <= i < s.drop_first().len() ==> #[trigger] s.drop_first()[i].len() == 0);
        lemma_all_empty_groups(s.drop_first());
        assert(seq![s[0]] + Seq::<Seq<V>>::empty() =~= seq![s[0]]);
    } else {
        assert(s[0].len() == 0);
        lemma_single_nonempty_group(s.drop_first(), j - 1);
        assert(s.drop_first()[j - 1] == s[j]);
    }
}

/// Prepending one value to one group adds exactly that value to the
/// flattened multiset.
proof fn lemma_flatten_prepend_at<V>(s: Seq<Seq<V>>, k: int, v: V)
    requires
        0 <= k < s.len(),
    ensures
        s.update(k, seq![v] + s[k]).flatten().to_multiset() == s.flatten().to_multiset().insert(
            v,
        ),
    decreases s.len(),
{
    broadcast use vstd::seq_lib::group_to_multiset_ensures;
    broadcast use vstd::multiset::group_multiset_axioms;

    let upd = s.update(k, seq![v] + s[k]);
    if k == 0 {
        assert(upd.drop_first() =~= s.drop_first());
        assert(upd.flatten() == (seq![v] + s[0]) + s.drop_first().flatten());
        assert(s.flatten() == s[0] + s.drop_first().flatten());
        assert((seq![v] + s[0]) + s.drop_first().flatten() =~= seq![v] + (s[0]
            + s.drop_first().flatten()));
        assert(seq![v] + s.flatten() =~= (seq![v] + s.flatten()));
        vstd::seq_lib::lemma_multiset_commutative(seq![v], s.flatten());
        assert(seq![v].to_multiset() =~= Multiset::<V>::empty().insert(v)) by {
            assert(seq![v] =~= Seq::<V>::empty().push(v));
            assert(Seq::<V>::empty().push(v).to_multiset() =~= Seq::<V>::empty().to_multiset().insert(v));
        }
        assert(upd.flatten().to_multiset() =~= s.flatten().to_multiset().insert(v));
    } else {
        lemma_flatten_prepend_at(s.drop_first(), k - 1, v);
        assert(upd.drop_first() =~= s.drop_first().update(k - 1, seq![v] + s[k]));
        assert(s.drop_first()[k - 1] == s[k]);
        assert(upd.flatten() == s[0] + upd.drop_first().flatten());
        assert(s.flatten() == s[0] + s.drop_first().flatten());
        vstd::seq_lib::lemma_multiset_commutative(s[0], upd.drop_first().flatten());
        vstd::seq_lib::lemma_multiset_commutative(s[0], s.drop_first().flatten());
        assert(upd.flatten().to_multiset() =~= s.flatten().to_multiset().insert(v));
    }
}

/// Conservation for the bucket table: flattening all buckets gives a
/// permutation of the input values.
proof fn lemma_natural_buckets_conservation<V>(limit: usize, pairs: Seq<(usize, V)>)
    requires
        forall|i: int| 0 <= i < pairs.len() ==> (#[trigger] pairs[i]).0 < limit,
    ensures
        natural_buckets(limit, pairs).flatten().to_multiset() == values_of(pairs).to_multiset(),
    decreases pairs.len(),
{
    broadcast use vstd::seq_lib::group_to_multiset_ensures;
    broadcast use vstd::multiset::group_multiset_axioms;

    if pairs.len() == 0 {
        assert(forall|i: int|
            0 <= i < natural_buckets(limit, pairs).len() ==> #[trigger] natural_buckets(
                limit,
                pairs,
            )[i].len() == 0);
        lemma_all_empty_groups(natural_buckets(limit, pairs));
        assert(values_of(pairs) =~= Seq::<V>::empty());
        assert(natural_buckets(limit, pairs).flatten().to_multiset() =~= values_of(
            pairs,
        ).to_multiset());
    } else {
        let rest = pairs.drop_first();
        let k0 = pairs[0].0;
        let v0 = pairs[0].1;
        assert(forall|i: int| 0 <= i < rest.len() ==> (#[trigger] rest[i]).0 < limit);
        lemma_natural_buckets_conservation(limit, rest);
        let bs = natural_buckets(limit, rest);
        assert(natural_buckets(limit, pairs) =~= bs.update(k0 as int, seq![v0] + bs[k0 as int]));
        lemma_flatten_prepend_at(bs, k0 as int, v0);
        assert(values_of(pairs)[0] == v0);
        assert(values_of(pairs).drop_first() =~= values_of(rest));
        assert(values_of(pairs) =~= values_of(rest).insert(0, v0));
        assert(values_of(rest).insert(0, v0).to_multiset() == values_of(rest).to_multiset().insert(
            v0,
        ));
    }
}

/// The bounded-integer discriminator: `limit` ordered buckets over the key
/// domain `[0, limit)`, filled in one stable pass, non-empty buckets yielded
/// in ascending key order.
#[derive(Debug, Copy, Clone)]
pub struct Natural {
    limit: usize,
}

impl Natural {
    /// The bucket count the discriminator was constructed with.
    pub closed spec fn spec_limit(&self) -> usize {
        self.limit
    }

    /// Builds a bounded-integer discriminator for keys in `[0, limit)`.
    /// Counts below two degenerate to the trivial or single-value paths and
    /// are rejected as a construction error.
    pub fn new(limit: usize) -> (r: Natural)
        requires
            limit >= 2,
        ensures
            r.spec_limit() == limit,
    {
        Natural { limit }
    }

    pub fn limit(&self) -> (r: usize)
        ensures
            r == self.spec_limit(),
    {
        self.limit
    }

    /// One pass of bucket discrimination: routes every value to the bucket
    /// of its key, preserving input order within each bucket.
    fn bdisc<V>(&self, pairs: Vec<(usize, V)>) -> (r: Vec<Vec<V>>)
        requires
            forall|i: int| 0 <= i < pairs@.len() ==> (#[trigger] pairs@[i]).0 < self.spec_limit(),
        ensures
            vec_views(r@) == natural_buckets(self.spec_limit(), pairs@),
    {
        let ghost orig = pairs@;
        let limit = self.limit;

        // initialize buckets
        let mut buckets: Vec<Vec<V>> = Vec::new();
        let mut k: usize = 0;
        while k < limit
            invariant
                k <= limit,
                buckets@.len() == k,
                forall|j: int| 0 <= j < k ==> (#[trigger] buckets@[j])@.len() == 0,
            decreases limit - k,
        {
            buckets.push(Vec::new());
            k = k + 1;
        }

        // fill buckets
        let mut rest = reversed(pairs);
        proof {
            crate::seq_facts::lemma_reverse_reverse(orig);
            assert forall|j: int| 0 <= j < limit implies buckets@[j]@ + bucket_of(
                rest@.reverse(),
                j as usize,
            ) == bucket_of(orig, j as usize) by {
                assert(buckets@[j]@ =~= Seq::<V>::empty());
                assert(buckets@[j]@ + bucket_of(orig, j as usize) =~= bucket_of(orig, j as usize));
            }
            assert forall|i: int| 0 <= i < rest@.len() implies (#[trigger] rest@[i]).0
                < limit by {
                assert(rest@[i] == orig[orig.len() - 1 - i]);
            }
        }
        while rest.len() > 0
            invariant
                buckets@.len() == limit,
                limit == self.spec_limit(),
                forall|j: int|
                    0 <= j < limit ==> (#[trigger] buckets@[j])@ + bucket_of(
                        rest@.reverse(),
                        j as usize,
                    ) == bucket_of(orig, j as usize),
                forall|i: int| 0 <= i < rest@.len() ==> (#[trigger] rest@[i]).0 < limit,
            decreases rest@.len(),
        {
            let ghost before = rest@;
            let kv = rest.pop().unwrap();
            let k0 = kv.0;
            proof {
                crate::seq_facts::lemma_reverse_pop(before);
                assert(before.reverse()[0] == kv);
                assert(rest@.reverse() == before.reverse().drop_first());
            }
            let ghost bold = buckets@;
            buckets[k0].push(kv.1);
            proof {
                assert(buckets@ =~= bold.update(k0 as int, buckets@[k0 as int]));
                assert(buckets@[k0 as int]@ =~= bold[k0 as int]@.push(kv.1));
                assert forall|j: int| 0 <= j < limit implies (#[trigger] buckets@[j])@ + bucket_of(
                    rest@.reverse(),
                    j as usize,
                ) == bucket_of(orig, j as usize) by {
                    if j == k0 as int {
                        assert(bucket_of(before.reverse(), k0) == seq![kv.1] + bucket_of(
                            rest@.reverse(),
                            k0,
                        ));
                        assert(bold[j]@.push(kv.1) + bucket_of(rest@.reverse(), j as usize) =~= bold[j]@
                            + (seq![kv.1] + bucket_of(rest@.reverse(), j as usize)));
                    } else {
                        assert(bucket_of(before.reverse(), j as usize) == bucket_of(
                            rest@.reverse(),
                            j as usize,
                        ));
                    }
                }
            }
        }
        proof {
            assert(rest@.reverse() =~= Seq::<(usize, V)>::empty());
            assert forall|j: int| 0 <= j < limit implies (#[trigger] vec_views(buckets@)[j])
                == natural_buckets(self.spec_limit(), orig)[j] by {
                assert(buckets@[j]@ + bucket_of(rest@.reverse(), j as usize) == bucket_of(
                    orig,
                    j as usize,
                ));
                assert(bucket_of(Seq::<(usize, V)>::empty(), j as usize) == Seq::<V>::empty());
                assert(buckets@[j]@ + Seq::<V>::empty() =~= buckets@[j]@);
            }
            assert(vec_views(buckets@) =~= natural_buckets(self.spec_limit(), orig));
        }
        buckets
    }
}

impl KeySpace<usize> for Natural {
    open spec fn valid_key(&self, key: usize) -> bool {
        key < self.spec_limit()
    }
}

impl<V> Discriminator<usize, V> for Natural {
    open spec fn spec_groups(&self, pairs: Seq<(usize, V)>) -> Seq<Seq<V>> {
        drop_empty_groups(natural_buckets(self.spec_limit(), pairs))
    }

    fn discriminate_sorted(&self, pairs: Vec<(usize, V)>) -> (groups: DiscriminateSorted<V>) {
        let ghost orig = pairs@;
        // single-buffered fast path: no bucket storage for tiny inputs
        if pairs.len() == 0 {
            proof {
                self.lemma_fast_path(orig);
            }
            return DiscriminateSorted::empty();
        }
        if pairs.len() == 1 {
            let mut pairs = pairs;
            let kv = pairs.pop().unwrap();
            let mut one: Vec<V> = Vec::new();
            one.push(kv.1);
            let mut groups = DiscriminateSorted::empty();
            proof {
                assert(one@ =~= seq![kv.1]);
                self.lemma_fast_path(orig);
            }
            groups.push_group(one);
            proof {
                assert(groups@ =~= seq![seq![kv.1]]);
            }
            return groups;
        }

        let buckets = self.bdisc(pairs);
        let ghost table = natural_buckets(self.spec_limit(), orig);
        let mut groups = DiscriminateSorted::empty();
        let mut rest = reversed(buckets);
        proof {
            crate::seq_facts::lemma_reverse_reverse(vec_views(rest@));
            assert(vec_views(rest@).reverse() =~= table);
            assert(groups@ + drop_empty_groups(table) =~= drop_empty_groups(table));
        }
        while rest.len() > 0
            invariant
                groups@ + drop_empty_groups(vec_views(rest@).reverse()) == drop_empty_groups(
                    table,
                ),
            decreases rest@.len(),
        {
            let ghost before = vec_views(rest@);
            let b = rest.pop().unwrap();
            proof {
                crate::seq_facts::lemma_reverse_pop(before);
                assert(vec_views(rest@) =~= before.drop_last());
                assert(before.reverse()[0] == b@);
                assert(vec_views(rest@).reverse() == before.reverse().drop_first());
            }
            let ghost gold = groups@;
            if b.len() > 0 {
                groups.push_group(b);
                proof {
                    assert(drop_empty_groups(before.reverse()) == seq![b@] + drop_empty_groups(
                        vec_views(rest@).reverse(),
                    ));
                    assert(gold.push(b@) + drop_empty_groups(vec_views(rest@).reverse()) =~= gold
                        + (seq![b@] + drop_empty_groups(vec_views(rest@).reverse())));
                }
            } else {
                proof {
                    assert(drop_empty_groups(before.reverse()) == drop_empty_groups(
                        vec_views(rest@).reverse(),
                    ));
                }
            }
        }
        proof {
            assert(vec_views(rest@).reverse() =~= Seq::<Seq<V>>::empty());
            assert(groups@ + Seq::<Seq<V>>::empty() =~= groups@);
        }
        groups
    }

    proof fn lemma_groups_nonempty(&self, pairs: Seq<(usize, V)>) {
        lemma_drop_empty_groups_nonempty(natural_buckets(self.spec_limit(), pairs));
    }

    proof fn lemma_conservation(&self, pairs: Seq<(usize, V)>) {
        let table = natural_buckets(self.spec_limit(), pairs);
        lemma_drop_empty_groups_flatten(table);
        lemma_natural_buckets_conservation(self.spec_limit(), pairs);
    }

    proof fn lemma_fast_path(&self, pairs: Seq<(usize, V)>) {
        lemma_bucket_table_small(self.spec_limit(), pairs);
    }
}

/// A bucket table over at most one pair degenerates to at most one group.
proof fn lemma_bucket_table_small<V>(limit: usize, pairs: Seq<(usize, V)>)
    requires
        pairs.len() <= 1,
        forall|i: int| 0 <= i < pairs.len() ==> (#[trigger] pairs[i]).0 < limit,
    ensures
        pairs.len() == 0 ==> drop_empty_groups(natural_buckets(limit, pairs)) == Seq::<
            Seq<V>,
        >::empty(),
        pairs.len() == 1 ==> drop_empty_groups(natural_buckets(limit, pairs)) == seq![
            seq![pairs[0].1],
        ],
{
    let table = natural_buckets(limit, pairs);
    if pairs.len() == 0 {
        assert(forall|i: int| 0 <= i < table.len() ==> #[trigger] table[i].len() == 0);
        lemma_all_empty_groups(table);
    } else if pairs.len() == 1 {
        let k0 = pairs[0].0;
        let v0 = pairs[0].1;
        assert(pairs[0].0 < limit);
        assert(pairs.drop_first().len() == 0);
        assert forall|i: int| 0 <= i < table.len() && i != k0 as int implies (
        #[trigger] table[i]).len() == 0 by {
            assert(table[i] == bucket_of(pairs, i as usize));
            assert(bucket_of(pairs.drop_first(), i as usize) == Seq::<V>::empty());
            assert(bucket_of(pairs, i as usize) == bucket_of(pairs.drop_first(), i as usize));
        }
        assert((k0 as int) < table.len());
        assert(bucket_of(pairs.drop_first(), k0) == Seq::<V>::empty());
        assert(table[k0 as int] == seq![v0] + Seq::<V>::empty());
        assert(seq![v0] + Seq::<V>::empty() =~= seq![v0]);
        lemma_single_nonempty_group(table, k0 as int);
    }
}

/// The `u8` key cast used to rename byte keys to bucket indices.
#[derive(Debug, Copy, Clone, Default)]
pub struct U8ToIndex;

impl KeyFn<u8> for U8ToIndex {
    type Out = usize;

    open spec fn spec_call(&self, key: u8) -> usize {
        key as usize
    }

    fn call(&self, key: u8) -> usize {
        key as usize
    }
}

/// The `u16` key cast used to rename wide keys to bucket indices.
#[derive(Debug, Copy, Clone, Default)]
pub struct U16ToIndex;

impl KeyFn<u16> for U16ToIndex {
    type Out = usize;

    open spec fn spec_call(&self, key: u16) -> usize {
        key as usize
    }

    fn call(&self, key: u16) -> usize {
        key as usize
    }
}

/// Byte keys renamed to bucket indices.
pub open spec fn u8_index_pairs<V>(pairs: Seq<(u8, V)>) -> Seq<(usize, V)> {
    pairs.map_values(|kv: (u8, V)| (kv.0 as usize, kv.1))
}

/// `u16` keys renamed to bucket indices.
pub open spec fn u16_index_pairs<V>(pairs: Seq<(u16, V)>) -> Seq<(usize, V)> {
    pairs.map_values(|kv: (u16, V)| (kv.0 as usize, kv.1))
}

/// The fixed-width byte discriminator: renaming into a 256-bucket
/// bounded-integer pass.  Every `u8` key is in range, so it accepts all
/// inputs.
#[derive(Debug, Copy, Clone, Default)]
pub struct U8;

impl U8 {
    pub fn new() -> (r: U8)
        ensures
            r == U8,
    {
        U8
    }
}

impl KeySpace<u8> for U8 {
    open spec fn valid_key(&self, key: u8) -> bool {
        true
    }
}

impl<V> Discriminator<u8, V> for U8 {
    open spec fn spec_groups(&self, pairs: Seq<(u8, V)>) -> Seq<Seq<V>> {
        drop_empty_groups(natural_buckets(256, u8_index_pairs(pairs)))
    }

    fn discriminate_sorted(&self, pairs: Vec<(u8, V)>) -> (groups: DiscriminateSorted<V>) {
        let ghost orig = pairs@;
        let d: Rename<U8ToIndex, Natural> = Rename::new(U8ToIndex, Natural::new(256));
        proof {
            assert(renamed_pairs(&d.0, orig) =~= u8_index_pairs(orig));
            assert forall|i: int| 0 <= i < orig.len() implies d.valid_key(#[trigger] orig[i].0) by {
                assert((orig[i].0 as usize) < 256);
            }
        }
        d.discriminate_sorted(pairs)
    }

    proof fn lemma_groups_nonempty(&self, pairs: Seq<(u8, V)>) {
        lemma_drop_empty_groups_nonempty(natural_buckets(256, u8_index_pairs(pairs)));
    }

    proof fn lemma_conservation(&self, pairs: Seq<(u8, V)>) {
        let ren = u8_index_pairs(pairs);
        assert(forall|i: int| 0 <= i < ren.len() ==> (#[trigger] ren[i]).0 < 256);
        lemma_drop_empty_groups_flatten(natural_buckets(256, ren));
        lemma_natural_buckets_conservation(256, ren);
        assert(values_of(ren) =~= values_of(pairs));
    }

    proof fn lemma_fast_path(&self, pairs: Seq<(u8, V)>) {
        let ren = u8_index_pairs(pairs);
        assert(forall|i: int| 0 <= i < ren.len() ==> (#[trigger] ren[i]).0 < 256);
        lemma_bucket_table_small(256, ren);
        if pairs.len() == 1 {
            assert(ren[0].1 == pairs[0].1);
        }
    }
}

/// The fixed-width `u16` discriminator: renaming into a 65536-bucket
/// bounded-integer pass.
#[derive(Debug, Copy, Clone, Default)]
pub struct U16;

impl U16 {
    pub fn new() -> (r: U16)
        ensures
            r == U16,
    {
        U16
    }
}

impl KeySpace<u16> for U16 {
    open spec fn valid_key(&self, key: u16) -> bool {
        true
    }
}

impl<V> Discriminator<u16, V> for U16 {
    open spec fn spec_groups(&self, pairs: Seq<(u16, V)>) -> Seq<Seq<V>> {
        drop_empty_groups(natural_buckets(65536, u16_index_pairs(pairs)))
    }

    fn discriminate_sorted(&self, pairs: Vec<(u16, V)>) -> (groups: DiscriminateSorted<V>) {
        let ghost orig = pairs@;
        let d: Rename<U16ToIndex, Natural> = Rename::new(U16ToIndex, Natural::new(65536));
        proof {
            assert(renamed_pairs(&d.0, orig) =~= u16_index_pairs(orig));
            assert forall|i: int| 0 <= i < orig.len() implies d.valid_key(#[trigger] orig[i].0) by {
                assert((orig[i].0 as usize) < 65536);
            }
        }
        d.discriminate_sorted(pairs)
    }

    proof fn lemma_groups_nonempty(&self, pairs: Seq<(u16, V)>) {
        lemma_drop_empty_groups_nonempty(natural_buckets(65536, u16_index_pairs(pairs)));
    }

    proof fn lemma_conservation(&self, pairs: Seq<(u16, V)>) {
        let ren = u16_index_pairs(pairs);
        assert(forall|i: int| 0 <= i < ren.len() ==> (#[trigger] ren[i]).0 < 65536);
        lemma_drop_empty_groups_flatten(natural_buckets(65536, ren));
        lemma_natural_buckets_conservation(65536, ren);
        assert(values_of(ren) =~= values_of(pairs));
    }

    proof fn lemma_fast_path(&self, pairs: Seq<(u16, V)>) {
        let ren = u16_index_pairs(pairs);
        assert(forall|i: int| 0 <= i < ren.len() ==> (#[trigger] ren[i]).0 < 65536);
        lemma_bucket_table_small(65536, ren);
        if pairs.len() == 1 {
            assert(ren[0].1 == pairs[0].1);
        }
    }
}

} // verus!
