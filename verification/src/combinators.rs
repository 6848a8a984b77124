//! Combinators over discriminators: reversing group order and renaming keys.
//! Each one delegates the actual partitioning to an inner strategy and proves
//! the same three laws the primitives do.

use vstd::prelude::*;

use either::Either;

use crate::discriminator::{
    keys_valid, lemma_group_value_from_input, values_of, Discriminator, KeySpace,
};
use crate::groups::DiscriminateSorted;
use crate::seq_facts::{lemma_reverse_pop, lemma_reverse_reverse};
use crate::split_either::{
    lefts, lemma_lefts_contained, lemma_rights_contained, rights, split_either,
};

verus! {

/// Yields the same groups as the inner discriminator, traversed
/// back-to-front.  Group order is reversed; the value order inside each
/// group is untouched.
#[derive(Debug, Copy, Clone, Default)]
pub struct Invert<D>(pub D);

impl<D> Invert<D> {
    pub fn new(inner: D) -> (r: Invert<D>)
        ensures
            r == Invert(inner),
    {
        Invert(inner)
    }
}

impl<K, D: KeySpace<K>> KeySpace<K> for Invert<D> {
    open spec fn valid_key(&self, key: K) -> bool {
        self.0.valid_key(key)
    }
}

impl<K, V, D: Discriminator<K, V>> Discriminator<K, V> for Invert<D> {
    open spec fn spec_groups(&self, pairs: Seq<(K, V)>) -> Seq<Seq<V>> {
        self.0.spec_groups(pairs).reverse()
    }

    fn discriminate_sorted(&self, pairs: Vec<(K, V)>) -> (groups: DiscriminateSorted<V>) {
        let ghost orig = pairs@;
        // single-buffered fast path; mirroring the traversal order, the one
        // kept element is the last
        if pairs.len() == 0 {
            proof {
                self.0.lemma_fast_path(orig);
                assert(self.spec_groups(orig) =~= Seq::<Seq<V>>::empty());
            }
            return DiscriminateSorted::empty();
        }
        if pairs.len() == 1 {
            let mut pairs = pairs;
            let kv = pairs.pop().unwrap();
            let mut one: Vec<V> = Vec::new();
            one.push(kv.1);
            let mut groups = DiscriminateSorted::empty();
            groups.push_group(one);
            proof {
                self.0.lemma_fast_path(orig);
                assert(one@ =~= seq![kv.1]);
                assert(groups@ =~= seq![seq![kv.1]]);
                assert(self.spec_groups(orig) =~= seq![seq![kv.1]]);
            }
            return groups;
        }
        let inner = self.0.discriminate_sorted(pairs);
        inner.reverse()
    }

    proof fn lemma_groups_nonempty(&self, pairs: Seq<(K, V)>) {
        self.0.lemma_groups_nonempty(pairs);
        let inner = self.0.spec_groups(pairs);
        assert forall|g: int| 0 <= g < self.spec_groups(pairs).len() implies #[trigger] self.spec_groups(
            pairs,
        )[g].len() > 0 by {
            assert(self.spec_groups(pairs)[g] == inner[inner.len() - 1 - g]);
        }
    }

    proof fn lemma_conservation(&self, pairs: Seq<(K, V)>) {
        self.0.lemma_conservation(pairs);
        crate::seq_facts::lemma_flatten_reverse_multiset(self.0.spec_groups(pairs));
    }

    proof fn lemma_fast_path(&self, pairs: Seq<(K, V)>) {
        self.0.lemma_fast_path(pairs);
        if pairs.len() == 0 {
            assert(self.spec_groups(pairs) =~= Seq::<Seq<V>>::empty());
        } else {
            assert(self.spec_groups(pairs) =~= seq![seq![pairs[0].1]]);
        }
    }
}

/// A key transformation used by the renaming combinator: an executable map
/// from `K` to `J` together with its spec-level meaning.
pub trait KeyFn<K>: Sized {
    /// The renamed key domain.
    type Out;

    /// What the transformation computes.
    spec fn spec_call(&self, key: K) -> Self::Out;

    fn call(&self, key: K) -> (r: Self::Out)
        ensures
            r == self.spec_call(key),
    ;
}

/// The identity key transformation.
#[derive(Debug, Copy, Clone, Default)]
pub struct IdentityKey;

impl<K> KeyFn<K> for IdentityKey {
    type Out = K;

    open spec fn spec_call(&self, key: K) -> K {
        key
    }

    fn call(&self, key: K) -> K {
        key
    }
}

/// The input with every key rewritten through `f`, values untouched.
pub open spec fn renamed_pairs<K, V, F: KeyFn<K>>(f: &F, pairs: Seq<(K, V)>) -> Seq<
    (F::Out, V),
> {
    pairs.map_values(|kv: (K, V)| (f.spec_call(kv.0), kv.1))
}

/// Rewrites each pair's key through a transformation, then delegates to the
/// inner discriminator over the renamed key domain.  Groups come back
/// unchanged.
#[derive(Debug, Copy, Clone, Default)]
pub struct Rename<F, D>(pub F, pub D);

impl<F, D> Rename<F, D> {
    pub fn new(f: F, inner: D) -> (r: Rename<F, D>)
        ensures
            r == Rename(f, inner),
    {
        Rename(f, inner)
    }
}

impl<K, F: KeyFn<K>, D: KeySpace<F::Out>> KeySpace<K> for Rename<F, D> {
    open spec fn valid_key(&self, key: K) -> bool {
        self.1.valid_key(self.0.spec_call(key))
    }
}

impl<K, V, F: KeyFn<K>, D: Discriminator<F::Out, V>> Discriminator<K, V> for Rename<F, D> {
    open spec fn spec_groups(&self, pairs: Seq<(K, V)>) -> Seq<Seq<V>> {
        self.1.spec_groups(renamed_pairs(&self.0, pairs))
    }

    fn discriminate_sorted(&self, pairs: Vec<(K, V)>) -> (groups: DiscriminateSorted<V>) {
        let ghost orig = pairs@;
        let ghost renamed = renamed_pairs(&self.0, orig);
        proof {
            assert forall|i: int| 0 <= i < renamed.len() implies self.1.valid_key(
                #[trigger] renamed[i].0,
            ) by {
                assert(renamed[i].0 == self.0.spec_call(orig[i].0));
            }
        }
        // single-buffered fast path: the key never needs renaming at all
        if pairs.len() == 0 {
            proof {
                self.1.lemma_fast_path(renamed);
            }
            return DiscriminateSorted::empty();
        }
        if pairs.len() == 1 {
            let mut pairs = pairs;
            let kv = pairs.pop().unwrap();
            let mut one: Vec<V> = Vec::new();
            one.push(kv.1);
            let mut groups = DiscriminateSorted::empty();
            groups.push_group(one);
            proof {
                self.1.lemma_fast_path(renamed);
                assert(renamed[0].1 == kv.1);
                assert(one@ =~= seq![kv.1]);
                assert(groups@ =~= seq![seq![kv.1]]);
            }
            return groups;
        }
        let mut mapped: Vec<(F::Out, V)> = Vec::new();
        let mut rest = crate::groups::reversed(pairs);
        proof {
            crate::seq_facts::lemma_reverse_reverse(orig);
            assert(mapped@ + renamed_pairs(&self.0, rest@.reverse()) =~= renamed);
        }
        while rest.len() > 0
            invariant
                mapped@ + renamed_pairs(&self.0, rest@.reverse()) == renamed_pairs(&self.0, orig),
            decreases rest@.len(),
        {
            let ghost before = rest@;
            let kv = rest.pop().unwrap();
            proof {
                crate::seq_facts::lemma_reverse_pop(before);
                assert(renamed_pairs(&self.0, before.reverse()) =~= seq![
                    (self.0.spec_call(kv.0), kv.1),
                ] + renamed_pairs(&self.0, rest@.reverse()));
            }
            let j = self.0.call(kv.0);
            mapped.push((j, kv.1));
            proof {
                assert(mapped@ + renamed_pairs(&self.0, rest@.reverse()) =~= renamed_pairs(
                    &self.0,
                    orig,
                ));
            }
        }
        proof {
            assert(renamed_pairs(&self.0, rest@.reverse()) =~= Seq::<(F::Out, V)>::empty());
            assert(mapped@ =~= renamed);
        }
        self.1.discriminate_sorted(mapped)
    }

    proof fn lemma_groups_nonempty(&self, pairs: Seq<(K, V)>) {
        let renamed = renamed_pairs(&self.0, pairs);
        assert forall|i: int| 0 <= i < renamed.len() implies self.1.valid_key(
            #[trigger] renamed[i].0,
        ) by {
            assert(renamed[i].0 == self.0.spec_call(pairs[i].0));
        }
        self.1.lemma_groups_nonempty(renamed);
    }

    proof fn lemma_conservation(&self, pairs: Seq<(K, V)>) {
        let renamed = renamed_pairs(&self.0, pairs);
        assert forall|i: int| 0 <= i < renamed.len() implies self.1.valid_key(
            #[trigger] renamed[i].0,
        ) by {
            assert(renamed[i].0 == self.0.spec_call(pairs[i].0));
        }
        self.1.lemma_conservation(renamed);
        assert(values_of(renamed) =~= values_of(pairs));
    }

    proof fn lemma_fast_path(&self, pairs: Seq<(K, V)>) {
        let renamed = renamed_pairs(&self.0, pairs);
        assert forall|i: int| 0 <= i < renamed.len() implies self.1.valid_key(
            #[trigger] renamed[i].0,
        ) by {
            assert(renamed[i].0 == self.0.spec_call(pairs[i].0));
        }
        self.1.lemma_fast_path(renamed);
        if pairs.len() == 1 {
            assert(renamed[0].1 == pairs[0].1);
        }
    }
}

/// The input stream retagged for the splitter: the value rides along with
/// its payload under the pair's own tag.
pub open spec fn sum_tagged<J, K, V>(pairs: Seq<(Either<J, K>, V)>) -> Seq<
    Either<(J, V), (K, V)>,
> {
    pairs.map_values(
        |kv: (Either<J, K>, V)|
            match kv.0 {
                Either::Left(j) => Either::<(J, V), (K, V)>::Left((j, kv.1)),
                Either::Right(k) => Either::<(J, V), (K, V)>::Right((k, kv.1)),
            },
    )
}

/// Splitting a tagged stream partitions the value multiset exactly.
proof fn lemma_sum_values_partition<J, K, V>(pairs: Seq<(Either<J, K>, V)>)
    ensures
        values_of(lefts(sum_tagged(pairs))).to_multiset().add(
            values_of(rights(sum_tagged(pairs))).to_multiset(),
        ) == values_of(pairs).to_multiset(),
    decreases pairs.len(),
{
    broadcast use vstd::seq_lib::group_to_multiset_ensures;
    broadcast use vstd::multiset::group_multiset_axioms;

    let tag = sum_tagged(pairs);
    if pairs.len() == 0 {
        assert(tag =~= Seq::<Either<(J, V), (K, V)>>::empty());
        assert(values_of(lefts(tag)) =~= Seq::<V>::empty());
        assert(values_of(rights(tag)) =~= Seq::<V>::empty());
        assert(values_of(pairs) =~= Seq::<V>::empty());
        assert(values_of(lefts(tag)).to_multiset().add(values_of(rights(tag)).to_multiset())
            =~= values_of(pairs).to_multiset());
    } else {
        let rest = pairs.drop_first();
        let v0 = pairs[0].1;
        lemma_sum_values_partition(rest);
        assert(tag.drop_first() =~= sum_tagged(rest));
        assert(values_of(pairs) =~= seq![v0] + values_of(rest));
        vstd::seq_lib::lemma_multiset_commutative(seq![v0], values_of(rest));
        match pairs[0].0 {
            Either::Left(j) => {
                assert(tag[0] == Either::<(J, V), (K, V)>::Left((j, v0)));
                assert(lefts(tag) == seq![(j, v0)] + lefts(sum_tagged(rest)));
                assert(rights(tag) == rights(sum_tagged(rest)));
                assert(values_of(lefts(tag)) =~= seq![v0] + values_of(lefts(sum_tagged(rest))));
                vstd::seq_lib::lemma_multiset_commutative(
                    seq![v0],
                    values_of(lefts(sum_tagged(rest))),
                );
                assert(values_of(lefts(tag)).to_multiset().add(
                    values_of(rights(tag)).to_multiset(),
                ) =~= values_of(pairs).to_multiset());
            },
            Either::Right(k) => {
                assert(tag[0] == Either::<(J, V), (K, V)>::Right((k, v0)));
                assert(rights(tag) == seq![(k, v0)] + rights(sum_tagged(rest)));
                assert(lefts(tag) == lefts(sum_tagged(rest)));
                assert(values_of(rights(tag)) =~= seq![v0] + values_of(rights(sum_tagged(rest))));
                vstd::seq_lib::lemma_multiset_commutative(
                    seq![v0],
                    values_of(rights(sum_tagged(rest))),
                );
                assert(values_of(lefts(tag)).to_multiset().add(
                    values_of(rights(tag)).to_multiset(),
                ) =~= values_of(pairs).to_multiset());
            },
        }
    }
}

/// Dispatches each pair by its tag to one of two sub-discriminators and
/// concatenates the two group sequences; the bias picks which side's groups
/// come first.
#[derive(Debug, Copy, Clone, Default)]
pub struct Sum<L, R> {
    pub is_right_biased: bool,
    pub left: L,
    pub right: R,
}

impl<L, R> Sum<L, R> {
    /// A sum discriminator that yields all left-side groups first.
    pub fn left_biased(left: L, right: R) -> (s: Sum<L, R>)
        ensures
            s == (Sum { is_right_biased: false, left, right }),
    {
        Sum { is_right_biased: false, left, right }
    }

    /// A sum discriminator that yields all right-side groups first.
    pub fn right_biased(left: L, right: R) -> (s: Sum<L, R>)
        ensures
            s == (Sum { is_right_biased: true, left, right }),
    {
        Sum { is_right_biased: true, left, right }
    }
}

/// Both halves of a valid-keyed sum input are valid-keyed for their own
/// sub-discriminator.
proof fn lemma_sum_halves_valid<J, K, V, L: KeySpace<J>, R: KeySpace<K>>(
    l: &L,
    r: &R,
    pairs: Seq<(Either<J, K>, V)>,
)
    requires
        forall|i: int|
            0 <= i < pairs.len() ==> (match #[trigger] pairs[i].0 {
                Either::Left(j) => l.valid_key(j),
                Either::Right(k) => r.valid_key(k),
            }),
    ensures
        keys_valid(l, lefts(sum_tagged(pairs))),
        keys_valid(r, rights(sum_tagged(pairs))),
{
    let tag = sum_tagged(pairs);
    lemma_lefts_contained(tag);
    lemma_rights_contained(tag);
    let lseq = lefts(tag);
    let rseq = rights(tag);
    assert forall|i: int| 0 <= i < lseq.len() implies l.valid_key(#[trigger] lseq[i].0) by {
        let x = lseq[i];
        assert(tag.contains(Either::Left(x)));
        let j = choose|j: int| 0 <= j < tag.len() && tag[j] == Either::<(J, V), (K, V)>::Left(x);
        match pairs[j].0 {
            Either::Left(jj) => {
                assert(x == (jj, pairs[j].1));
            },
            Either::Right(_) => {
                assert(false);
            },
        }
    }
    assert forall|i: int| 0 <= i < rseq.len() implies r.valid_key(#[trigger] rseq[i].0) by {
        let x = rseq[i];
        assert(tag.contains(Either::Right(x)));
        let j = choose|j: int| 0 <= j < tag.len() && tag[j] == Either::<(J, V), (K, V)>::Right(x);
        match pairs[j].0 {
            Either::Right(kk) => {
                assert(x == (kk, pairs[j].1));
            },
            Either::Left(_) => {
                assert(false);
            },
        }
    }
}

impl<J, K, L: KeySpace<J>, R: KeySpace<K>> KeySpace<Either<J, K>> for Sum<L, R> {
    open spec fn valid_key(&self, key: Either<J, K>) -> bool {
        match key {
            Either::Left(j) => self.left.valid_key(j),
            Either::Right(k) => self.right.valid_key(k),
        }
    }
}

impl<J, K, V, L: Discriminator<J, V>, R: Discriminator<K, V>> Discriminator<
    Either<J, K>,
    V,
> for Sum<L, R> {
    open spec fn spec_groups(&self, pairs: Seq<(Either<J, K>, V)>) -> Seq<Seq<V>> {
        let lg = self.left.spec_groups(lefts(sum_tagged(pairs)));
        let rg = self.right.spec_groups(rights(sum_tagged(pairs)));
        if self.is_right_biased {
            rg + lg
        } else {
            lg + rg
        }
    }

    fn discriminate_sorted(&self, pairs: Vec<(Either<J, K>, V)>) -> (groups: DiscriminateSorted<
        V,
    >) {
        let ghost orig = pairs@;
        // single-buffered fast path: no tagging, no splitting
        if pairs.len() == 0 {
            proof {
                self.lemma_fast_path(orig);
            }
            return DiscriminateSorted::empty();
        }
        if pairs.len() == 1 {
            let mut pairs = pairs;
            let kv = pairs.pop().unwrap();
            let mut one: Vec<V> = Vec::new();
            one.push(kv.1);
            let mut groups = DiscriminateSorted::empty();
            groups.push_group(one);
            proof {
                self.lemma_fast_path(orig);
                assert(one@ =~= seq![kv.1]);
                assert(groups@ =~= seq![seq![kv.1]]);
            }
            return groups;
        }

        // tag the stream for the splitter
        let mut tagged: Vec<Either<(J, V), (K, V)>> = Vec::new();
        let mut rest = crate::groups::reversed(pairs);
        proof {
            lemma_reverse_reverse(orig);
            assert(tagged@ + sum_tagged(rest@.reverse()) =~= sum_tagged(orig));
        }
        while rest.len() > 0
            invariant
                tagged@ + sum_tagged(rest@.reverse()) == sum_tagged(orig),
            decreases rest@.len(),
        {
            let ghost before = rest@;
            let kv = rest.pop().unwrap();
            proof {
                lemma_reverse_pop(before);
                assert(sum_tagged(before.reverse()).drop_first() =~= sum_tagged(rest@.reverse()));
            }
            let item: Either<(J, V), (K, V)> = match kv.0 {
                Either::Left(j) => Either::Left((j, kv.1)),
                Either::Right(k) => Either::Right((k, kv.1)),
            };
            tagged.push(item);
            proof {
                assert(sum_tagged(before.reverse()) =~= seq![tagged@.last()] + sum_tagged(
                    rest@.reverse(),
                ));
                assert(tagged@ + sum_tagged(rest@.reverse()) =~= sum_tagged(orig));
            }
        }
        proof {
            assert(sum_tagged(rest@.reverse()) =~= Seq::<Either<(J, V), (K, V)>>::empty());
            assert(tagged@ =~= sum_tagged(orig));
        }

        // split the shared stream and drain each logical consumer
        let ghost lseq = lefts(sum_tagged(orig));
        let ghost rseq = rights(sum_tagged(orig));
        let mut split = split_either(tagged);
        let mut lv: Vec<(J, V)> = Vec::new();
        let mut more = true;
        proof {
            assert(lv@ + split.left_view() =~= lseq);
        }
        while more
            invariant
                split.wf(),
                lv@ + split.left_view() == lseq,
                split.right_view() == rseq,
                !more ==> split.left_view().len() == 0,
            decreases split.left_view().len(), (if more {
                1int
            } else {
                0int
            }),
        {
            let pulled = split.next_left();
            match pulled {
                Some(a) => {
                    lv.push(a);
                    proof {
                        assert(lv@ + split.left_view() =~= lseq);
                    }
                },
                None => {
                    more = false;
                },
            }
        }
        let mut rv: Vec<(K, V)> = Vec::new();
        let mut more_r = true;
        proof {
            assert(lv@ =~= lseq);
            assert(rv@ + split.right_view() =~= rseq);
        }
        while more_r
            invariant
                split.wf(),
                rv@ + split.right_view() == rseq,
                !more_r ==> split.right_view().len() == 0,
            decreases split.right_view().len(), (if more_r {
                1int
            } else {
                0int
            }),
        {
            let pulled = split.next_right();
            match pulled {
                Some(b) => {
                    rv.push(b);
                    proof {
                        assert(rv@ + split.right_view() =~= rseq);
                    }
                },
                None => {
                    more_r = false;
                },
            }
        }
        proof {
            assert(rv@ =~= rseq);
            assert forall|i: int|
                0 <= i < orig.len() implies (match #[trigger] orig[i].0 {
                Either::Left(j) => self.left.valid_key(j),
                Either::Right(k) => self.right.valid_key(k),
            }) by {
                assert(0 <= i < orig.len());
            }
            lemma_sum_halves_valid(&self.left, &self.right, orig);
        }

        // discriminate each half independently; concatenate by bias
        let gl = self.left.discriminate_sorted(lv);
        let gr = self.right.discriminate_sorted(rv);
        if self.is_right_biased {
            gr.concat(gl)
        } else {
            gl.concat(gr)
        }
    }

    proof fn lemma_groups_nonempty(&self, pairs: Seq<(Either<J, K>, V)>) {
        assert forall|i: int|
            0 <= i < pairs.len() implies (match #[trigger] pairs[i].0 {
            Either::Left(j) => self.left.valid_key(j),
            Either::Right(k) => self.right.valid_key(k),
        }) by {
            assert(0 <= i < pairs.len());
        }
        lemma_sum_halves_valid(&self.left, &self.right, pairs);
        let lg = self.left.spec_groups(lefts(sum_tagged(pairs)));
        let rg = self.right.spec_groups(rights(sum_tagged(pairs)));
        self.left.lemma_groups_nonempty(lefts(sum_tagged(pairs)));
        self.right.lemma_groups_nonempty(rights(sum_tagged(pairs)));
        assert forall|g: int| 0 <= g < self.spec_groups(pairs).len() implies #[trigger] self.spec_groups(
            pairs,
        )[g].len() > 0 by {
            if self.is_right_biased {
                if g < rg.len() {
                    assert(self.spec_groups(pairs)[g] == rg[g]);
                } else {
                    assert(self.spec_groups(pairs)[g] == lg[g - rg.len()]);
                }
            } else {
                if g < lg.len() {
                    assert(self.spec_groups(pairs)[g] == lg[g]);
                } else {
                    assert(self.spec_groups(pairs)[g] == rg[g - lg.len()]);
                }
            }
        }
    }

    proof fn lemma_conservation(&self, pairs: Seq<(Either<J, K>, V)>) {
        broadcast use vstd::multiset::group_multiset_axioms;

        assert forall|i: int|
            0 <= i < pairs.len() implies (match #[trigger] pairs[i].0 {
            Either::Left(j) => self.left.valid_key(j),
            Either::Right(k) => self.right.valid_key(k),
        }) by {
            assert(0 <= i < pairs.len());
        }
        lemma_sum_halves_valid(&self.left, &self.right, pairs);
        let lseq = lefts(sum_tagged(pairs));
        let rseq = rights(sum_tagged(pairs));
        let lg = self.left.spec_groups(lseq);
        let rg = self.right.spec_groups(rseq);
        self.left.lemma_conservation(lseq);
        self.right.lemma_conservation(rseq);
        lemma_sum_values_partition(pairs);
        vstd::seq_lib::lemma_flatten_concat(lg, rg);
        vstd::seq_lib::lemma_flatten_concat(rg, lg);
        vstd::seq_lib::lemma_multiset_commutative(lg.flatten(), rg.flatten());
        vstd::seq_lib::lemma_multiset_commutative(rg.flatten(), lg.flatten());
        if self.is_right_biased {
            assert((rg + lg).flatten().to_multiset() =~= values_of(pairs).to_multiset());
        } else {
            assert((lg + rg).flatten().to_multiset() =~= values_of(pairs).to_multiset());
        }
    }

    proof fn lemma_fast_path(&self, pairs: Seq<(Either<J, K>, V)>) {
        assert forall|i: int|
            0 <= i < pairs.len() implies (match #[trigger] pairs[i].0 {
            Either::Left(j) => self.left.valid_key(j),
            Either::Right(k) => self.right.valid_key(k),
        }) by {
            assert(0 <= i < pairs.len());
        }
        lemma_sum_halves_valid(&self.left, &self.right, pairs);
        let tag = sum_tagged(pairs);
        let lseq = lefts(tag);
        let rseq = rights(tag);
        if pairs.len() == 0 {
            assert(tag =~= Seq::<Either<(J, V), (K, V)>>::empty());
            assert(lseq =~= Seq::<(J, V)>::empty());
            assert(rseq =~= Seq::<(K, V)>::empty());
            self.left.lemma_fast_path(lseq);
            self.right.lemma_fast_path(rseq);
            assert(self.spec_groups(pairs) =~= Seq::<Seq<V>>::empty());
        } else {
            let v0 = pairs[0].1;
            assert(tag.drop_first() =~= sum_tagged(pairs.drop_first()));
            assert(sum_tagged(pairs.drop_first()) =~= Seq::<Either<(J, V), (K, V)>>::empty());
            match pairs[0].0 {
                Either::Left(j) => {
                    assert(tag[0] == Either::<(J, V), (K, V)>::Left((j, v0)));
                    assert(lseq == seq![(j, v0)] + lefts(tag.drop_first()));
                    assert(lseq =~= seq![(j, v0)]);
                    assert(rseq == rights(tag.drop_first()));
                    assert(rights(tag.drop_first()) == Seq::<(K, V)>::empty());
                },
                Either::Right(k) => {
                    assert(tag[0] == Either::<(J, V), (K, V)>::Right((k, v0)));
                    assert(rseq == seq![(k, v0)] + rights(tag.drop_first()));
                    assert(rseq =~= seq![(k, v0)]);
                    assert(lseq == lefts(tag.drop_first()));
                    assert(lefts(tag.drop_first()) == Seq::<(J, V)>::empty());
                },
            }
            self.left.lemma_fast_path(lseq);
            self.right.lemma_fast_path(rseq);
            assert(self.spec_groups(pairs) =~= seq![seq![v0]]);
        }
    }
}

/// Pairs regrouped for discriminating by the first key component: the second
/// component rides along with the value.
pub open spec fn fst_nested_pairs<J, K, V>(pairs: Seq<((J, K), V)>) -> Seq<(J, (K, V))> {
    pairs.map_values(|kv: ((J, K), V)| (kv.0.0, (kv.0.1, kv.1)))
}

/// Pairs regrouped for discriminating by the second key component.
pub open spec fn snd_nested_pairs<J, K, V>(pairs: Seq<((J, K), V)>) -> Seq<(K, (J, V))> {
    pairs.map_values(|kv: ((J, K), V)| (kv.0.1, (kv.0.0, kv.1)))
}

/// Every key in every part is one the strategy `d` accepts.
pub open spec fn parts_keys_valid<K, V, D: KeySpace<K>>(d: &D, parts: Seq<Seq<(K, V)>>) -> bool {
    forall|g: int, j: int|
        0 <= g < parts.len() && 0 <= j < parts[g].len() ==> d.valid_key(
            (#[trigger] parts[g][j]).0,
        )
}

/// Discriminating each part with `d` and concatenating the group sequences,
/// in part order.
pub open spec fn concat_groups<K, V, D: Discriminator<K, V>>(
    d: &D,
    parts: Seq<Seq<(K, V)>>,
) -> Seq<Seq<V>>
    decreases parts.len(),
{
    if parts.len() == 0 {
        Seq::empty()
    } else {
        d.spec_groups(parts[0]) + concat_groups(d, parts.drop_first())
    }
}

/// Each group of a concatenated discrimination is non-empty.
proof fn lemma_concat_groups_nonempty<K, V, D: Discriminator<K, V>>(
    d: &D,
    parts: Seq<Seq<(K, V)>>,
)
    requires
        parts_keys_valid(d, parts),
    ensures
        forall|g: int|
            0 <= g < concat_groups(d, parts).len() ==> #[trigger] concat_groups(
                d,
                parts,
            )[g].len() > 0,
    decreases parts.len(),
{
    if parts.len() > 0 {
        let head = parts[0];
        let rest = parts.drop_first();
        assert forall|i: int| 0 <= i < head.len() implies d.valid_key(#[trigger] head[i].0) by {
            assert(parts[0][i] == head[i]);
        }
        d.lemma_groups_nonempty(head);
        assert forall|g: int, j: int|
            0 <= g < rest.len() && 0 <= j < rest[g].len() implies d.valid_key(
            (#[trigger] rest[g][j]).0,
        ) by {
            assert(parts[g + 1][j] == rest[g][j]);
        }
        lemma_concat_groups_nonempty(d, rest);
        let hg = d.spec_groups(head);
        assert forall|g: int| 0 <= g < concat_groups(d, parts).len() implies #[trigger] concat_groups(
            d,
            parts,
        )[g].len() > 0 by {
            if g < hg.len() {
                assert(concat_groups(d, parts)[g] == hg[g]);
            } else {
                assert(concat_groups(d, parts)[g] == concat_groups(d, rest)[g - hg.len()]);
            }
        }
    }
}

/// Conservation for the concatenated discrimination: the values of all parts
/// survive exactly.
proof fn lemma_concat_groups_conservation<K, V, D: Discriminator<K, V>>(
    d: &D,
    parts: Seq<Seq<(K, V)>>,
)
    requires
        parts_keys_valid(d, parts),
    ensures
        concat_groups(d, parts).flatten().to_multiset() == values_of(
            parts.flatten(),
        ).to_multiset(),
    decreases parts.len(),
{
    broadcast use vstd::multiset::group_multiset_axioms;

    if parts.len() == 0 {
        assert(concat_groups(d, parts).flatten() =~= Seq::<V>::empty());
        assert(values_of(parts.flatten()) =~= Seq::<V>::empty());
    } else {
        let head = parts[0];
        let rest = parts.drop_first();
        assert forall|i: int| 0 <= i < head.len() implies d.valid_key(#[trigger] head[i].0) by {
            assert(parts[0][i] == head[i]);
        }
        d.lemma_conservation(head);
        assert forall|g: int, j: int|
            0 <= g < rest.len() && 0 <= j < rest[g].len() implies d.valid_key(
            (#[trigger] rest[g][j]).0,
        ) by {
            assert(parts[g + 1][j] == rest[g][j]);
        }
        lemma_concat_groups_conservation(d, rest);
        let hg = d.spec_groups(head);
        vstd::seq_lib::lemma_flatten_concat(hg, concat_groups(d, rest));
        vstd::seq_lib::lemma_multiset_commutative(hg.flatten(), concat_groups(d, rest).flatten());
        assert(parts.flatten() == head + rest.flatten());
        assert(values_of(parts.flatten()) =~= values_of(head) + values_of(rest.flatten()));
        vstd::seq_lib::lemma_multiset_commutative(values_of(head), values_of(rest.flatten()));
        assert(concat_groups(d, parts).flatten().to_multiset() =~= values_of(
            parts.flatten(),
        ).to_multiset());
    }
}

/// The parts an outer discrimination yields carry only inner keys drawn from
/// the input, so they stay valid for the inner strategy.
proof fn lemma_outer_parts_valid<KO, KI, W, OD: Discriminator<KO, (KI, W)>, ID: KeySpace<KI>>(
    od: &OD,
    id: &ID,
    mapped: Seq<(KO, (KI, W))>,
)
    requires
        keys_valid(od, mapped),
        forall|i: int| 0 <= i < mapped.len() ==> id.valid_key((#[trigger] mapped[i]).1.0),
    ensures
        parts_keys_valid(id, od.spec_groups(mapped)),
{
    let parts = od.spec_groups(mapped);
    assert forall|g: int, j: int|
        0 <= g < parts.len() && 0 <= j < parts[g].len() implies id.valid_key(
        (#[trigger] parts[g][j]).0,
    ) by {
        lemma_group_value_from_input(od, mapped, g, j);
        let x = parts[g][j];
        let i = choose|i: int|
            0 <= i < values_of(mapped).len() && values_of(mapped)[i] == x;
        assert(values_of(mapped)[i] == mapped[i].1);
    }
}

/// Nests two discriminators: groups by the first key component, then refines
/// each of those groups by the second, realizing two-dimensional bucketing as
/// nested one-dimensional passes.  The bias picks which component drives the
/// outer pass.
#[derive(Debug, Copy, Clone, Default)]
pub struct Product<L, R> {
    pub is_right_biased: bool,
    pub left: L,
    pub right: R,
}

impl<L, R> Product<L, R> {
    /// A product discriminator whose outer pass goes by the first component.
    pub fn left_biased(left: L, right: R) -> (s: Product<L, R>)
        ensures
            s == (Product { is_right_biased: false, left, right }),
    {
        Product { is_right_biased: false, left, right }
    }

    /// A product discriminator whose outer pass goes by the second component.
    pub fn right_biased(left: L, right: R) -> (s: Product<L, R>)
        ensures
            s == (Product { is_right_biased: true, left, right }),
    {
        Product { is_right_biased: true, left, right }
    }
}

impl<J, K, L: KeySpace<J>, R: KeySpace<K>> KeySpace<(J, K)> for Product<L, R> {
    open spec fn valid_key(&self, key: (J, K)) -> bool {
        self.left.valid_key(key.0) && self.right.valid_key(key.1)
    }
}

impl<J, K, V, L, R> Discriminator<(J, K), V> for Product<L, R> where
    L: Discriminator<J, (K, V)> + Discriminator<J, V>,
    R: Discriminator<K, (J, V)> + Discriminator<K, V>,
 {
    open spec fn spec_groups(&self, pairs: Seq<((J, K), V)>) -> Seq<Seq<V>> {
        if self.is_right_biased {
            concat_groups(&self.left, self.right.spec_groups(snd_nested_pairs(pairs)))
        } else {
            concat_groups(&self.right, self.left.spec_groups(fst_nested_pairs(pairs)))
        }
    }

    fn discriminate_sorted(&self, pairs: Vec<((J, K), V)>) -> (groups: DiscriminateSorted<V>) {
        let ghost orig = pairs@;
        // single-buffered fast path: no nesting at all
        if pairs.len() == 0 {
            proof {
                self.lemma_fast_path(orig);
            }
            return DiscriminateSorted::empty();
        }
        if pairs.len() == 1 {
            let mut pairs = pairs;
            let kv = pairs.pop().unwrap();
            let mut one: Vec<V> = Vec::new();
            one.push(kv.1);
            let mut groups = DiscriminateSorted::empty();
            groups.push_group(one);
            proof {
                self.lemma_fast_path(orig);
                assert(one@ =~= seq![kv.1]);
                assert(groups@ =~= seq![seq![kv.1]]);
            }
            return groups;
        }
        if self.is_right_biased {
            let ghost mapped_spec = snd_nested_pairs(orig);
            let mut mapped: Vec<(K, (J, V))> = Vec::new();
            let mut rest = crate::groups::reversed(pairs);
            proof {
                lemma_reverse_reverse(orig);
                assert(mapped@ + snd_nested_pairs(rest@.reverse()) =~= mapped_spec);
            }
            while rest.len() > 0
                invariant
                    mapped@ + snd_nested_pairs(rest@.reverse()) == snd_nested_pairs(orig),
                decreases rest@.len(),
            {
                let ghost before = rest@;
                let kv = rest.pop().unwrap();
                proof {
                    lemma_reverse_pop(before);
                    assert(snd_nested_pairs(before.reverse()) =~= seq![
                        (kv.0.1, (kv.0.0, kv.1)),
                    ] + snd_nested_pairs(rest@.reverse()));
                }
                let (key, v) = kv;
                mapped.push((key.1, (key.0, v)));
                proof {
                    assert(mapped@ + snd_nested_pairs(rest@.reverse()) =~= snd_nested_pairs(orig));
                }
            }
            proof {
                assert(snd_nested_pairs(rest@.reverse()) =~= Seq::<(K, (J, V))>::empty());
                assert(mapped@ =~= mapped_spec);
                assert forall|i: int| 0 <= i < mapped_spec.len() implies self.right.valid_key(
                    #[trigger] mapped_spec[i].0,
                ) by {
                    assert(mapped_spec[i].0 == orig[i].0.1);
                }
                assert forall|i: int| 0 <= i < mapped_spec.len() implies self.left.valid_key(
                    (#[trigger] mapped_spec[i]).1.0,
                ) by {
                    assert(mapped_spec[i].1.0 == orig[i].0.0);
                }
            }
            let mut outer = self.right.discriminate_sorted(mapped);
            let ghost parts = self.right.spec_groups(mapped_spec);
            proof {
                lemma_outer_parts_valid(&self.right, &self.left, mapped_spec);
            }
            let mut acc = DiscriminateSorted::empty();
            let mut more = true;
            proof {
                assert(acc@ + concat_groups(&self.left, outer@) =~= concat_groups(
                    &self.left,
                    parts,
                ));
            }
            while more
                invariant
                    acc@ + concat_groups(&self.left, outer@) == concat_groups(&self.left, parts),
                    parts_keys_valid(&self.left, outer@),
                    !more ==> outer@.len() == 0,
                decreases outer@.len(), (if more {
                    1int
                } else {
                    0int
                }),
            {
                let ghost outer_before = outer@;
                let g_opt = outer.next();
                match g_opt {
                    Some(g) => {
                        let gv = g.into_values();
                        proof {
                            assert forall|i: int|
                                0 <= i < gv@.len() implies self.left.valid_key(
                                #[trigger] gv@[i].0,
                            ) by {
                                assert(outer_before[0][i] == gv@[i]);
                            }
                        }
                        let inner = self.left.discriminate_sorted(gv);
                        acc = acc.concat(inner);
                        proof {
                            assert(concat_groups(&self.left, outer_before)
                                == self.left.spec_groups(outer_before[0]) + concat_groups(
                                &self.left,
                                outer_before.drop_first(),
                            ));
                            assert(acc@ + concat_groups(&self.left, outer@) =~= concat_groups(
                                &self.left,
                                parts,
                            ));
                            assert forall|g2: int, j: int|
                                0 <= g2 < outer@.len() && 0 <= j < outer@[g2].len() implies self.left.valid_key(
                                (#[trigger] outer@[g2][j]).0,
                            ) by {
                                assert(outer_before[g2 + 1][j] == outer@[g2][j]);
                            }
                        }
                    },
                    None => {
                        more = false;
                    },
                }
            }
            proof {
                assert(concat_groups(&self.left, outer@) =~= Seq::<Seq<V>>::empty());
                assert(acc@ =~= concat_groups(&self.left, parts));
            }
            acc
        } else {
            let ghost mapped_spec = fst_nested_pairs(orig);
            let mut mapped: Vec<(J, (K, V))> = Vec::new();
            let mut rest = crate::groups::reversed(pairs);
            proof {
                lemma_reverse_reverse(orig);
                assert(mapped@ + fst_nested_pairs(rest@.reverse()) =~= mapped_spec);
            }
            while rest.len() > 0
                invariant
                    mapped@ + fst_nested_pairs(rest@.reverse()) == fst_nested_pairs(orig),
                decreases rest@.len(),
            {
                let ghost before = rest@;
                let kv = rest.pop().unwrap();
                proof {
                    lemma_reverse_pop(before);
                    assert(fst_nested_pairs(before.reverse()) =~= seq![
                        (kv.0.0, (kv.0.1, kv.1)),
                    ] + fst_nested_pairs(rest@.reverse()));
                }
                let (key, v) = kv;
                mapped.push((key.0, (key.1, v)));
                proof {
                    assert(mapped@ + fst_nested_pairs(rest@.reverse()) =~= fst_nested_pairs(orig));
                }
            }
            proof {
                assert(fst_nested_pairs(rest@.reverse()) =~= Seq::<(J, (K, V))>::empty());
                assert(mapped@ =~= mapped_spec);
                assert forall|i: int| 0 <= i < mapped_spec.len() implies self.left.valid_key(
                    #[trigger] mapped_spec[i].0,
                ) by {
                    assert(mapped_spec[i].0 == orig[i].0.0);
                }
                assert forall|i: int| 0 <= i < mapped_spec.len() implies self.right.valid_key(
                    (#[trigger] mapped_spec[i]).1.0,
                ) by {
                    assert(mapped_spec[i].1.0 == orig[i].0.1);
                }
            }
            let mut outer = self.left.discriminate_sorted(mapped);
            let ghost parts = self.left.spec_groups(mapped_spec);
            proof {
                lemma_outer_parts_valid(&self.left, &self.right, mapped_spec);
            }
            let mut acc = DiscriminateSorted::empty();
            let mut more = true;
            proof {
                assert(acc@ + concat_groups(&self.right, outer@) =~= concat_groups(
                    &self.right,
                    parts,
                ));
            }
            while more
                invariant
                    acc@ + concat_groups(&self.right, outer@) == concat_groups(&self.right, parts),
                    parts_keys_valid(&self.right, outer@),
                    !more ==> outer@.len() == 0,
                decreases outer@.len(), (if more {
                    1int
                } else {
                    0int
                }),
            {
                let ghost outer_before = outer@;
                let g_opt = outer.next();
                match g_opt {
                    Some(g) => {
                        let gv = g.into_values();
                        proof {
                            assert forall|i: int|
                                0 <= i < gv@.len() implies self.right.valid_key(
                                #[trigger] gv@[i].0,
                            ) by {
                                assert(outer_before[0][i] == gv@[i]);
                            }
                        }
                        let inner = self.right.discriminate_sorted(gv);
                        acc = acc.concat(inner);
                        proof {
                            assert(concat_groups(&self.right, outer_before)
                                == self.right.spec_groups(outer_before[0]) + concat_groups(
                                &self.right,
                                outer_before.drop_first(),
                            ));
                            assert(acc@ + concat_groups(&self.right, outer@) =~= concat_groups(
                                &self.right,
                                parts,
                            ));
                            assert forall|g2: int, j: int|
                                0 <= g2 < outer@.len() && 0 <= j < outer@[g2].len() implies self.right.valid_key(
                                (#[trigger] outer@[g2][j]).0,
                            ) by {
                                assert(outer_before[g2 + 1][j] == outer@[g2][j]);
                            }
                        }
                    },
                    None => {
                        more = false;
                    },
                }
            }
            proof {
                assert(concat_groups(&self.right, outer@) =~= Seq::<Seq<V>>::empty());
                assert(acc@ =~= concat_groups(&self.right, parts));
            }
            acc
        }
    }

    proof fn lemma_groups_nonempty(&self, pairs: Seq<((J, K), V)>) {
        if self.is_right_biased {
            let mapped = snd_nested_pairs(pairs);
            assert forall|i: int| 0 <= i < mapped.len() implies self.right.valid_key(
                #[trigger] mapped[i].0,
            ) by {
                assert(mapped[i].0 == pairs[i].0.1);
            }
            assert forall|i: int| 0 <= i < mapped.len() implies self.left.valid_key(
                (#[trigger] mapped[i]).1.0,
            ) by {
                assert(mapped[i].1.0 == pairs[i].0.0);
            }
            lemma_outer_parts_valid(&self.right, &self.left, mapped);
            lemma_concat_groups_nonempty(&self.left, self.right.spec_groups(mapped));
        } else {
            let mapped = fst_nested_pairs(pairs);
            assert forall|i: int| 0 <= i < mapped.len() implies self.left.valid_key(
                #[trigger] mapped[i].0,
            ) by {
                assert(mapped[i].0 == pairs[i].0.0);
            }
            assert forall|i: int| 0 <= i < mapped.len() implies self.right.valid_key(
                (#[trigger] mapped[i]).1.0,
            ) by {
                assert(mapped[i].1.0 == pairs[i].0.1);
            }
            lemma_outer_parts_valid(&self.left, &self.right, mapped);
            lemma_concat_groups_nonempty(&self.right, self.left.spec_groups(mapped));
        }
    }

    proof fn lemma_conservation(&self, pairs: Seq<((J, K), V)>) {
        broadcast use vstd::multiset::group_multiset_axioms;

        if self.is_right_biased {
            let mapped = snd_nested_pairs(pairs);
            assert forall|i: int| 0 <= i < mapped.len() implies self.right.valid_key(
                #[trigger] mapped[i].0,
            ) by {
                assert(mapped[i].0 == pairs[i].0.1);
            }
            assert forall|i: int| 0 <= i < mapped.len() implies self.left.valid_key(
                (#[trigger] mapped[i]).1.0,
            ) by {
                assert(mapped[i].1.0 == pairs[i].0.0);
            }
            lemma_outer_parts_valid(&self.right, &self.left, mapped);
            let parts = self.right.spec_groups(mapped);
            lemma_concat_groups_conservation(&self.left, parts);
            self.right.lemma_conservation(mapped);
            crate::seq_facts::lemma_map_values_multiset(
                parts.flatten(),
                values_of(mapped),
                |kv: (J, V)| kv.1,
            );
            assert(values_of(parts.flatten()) == parts.flatten().map_values(|kv: (J, V)| kv.1));
            assert(values_of(values_of(mapped)) == values_of(mapped).map_values(
                |kv: (J, V)| kv.1,
            ));
            assert(values_of(values_of(mapped)) =~= values_of(pairs));
        } else {
            let mapped = fst_nested_pairs(pairs);
            assert forall|i: int| 0 <= i < mapped.len() implies self.left.valid_key(
                #[trigger] mapped[i].0,
            ) by {
                assert(mapped[i].0 == pairs[i].0.0);
            }
            assert forall|i: int| 0 <= i < mapped.len() implies self.right.valid_key(
                (#[trigger] mapped[i]).1.0,
            ) by {
                assert(mapped[i].1.0 == pairs[i].0.1);
            }
            lemma_outer_parts_valid(&self.left, &self.right, mapped);
            let parts = self.left.spec_groups(mapped);
            lemma_concat_groups_conservation(&self.right, parts);
            self.left.lemma_conservation(mapped);
            crate::seq_facts::lemma_map_values_multiset(
                parts.flatten(),
                values_of(mapped),
                |kv: (K, V)| kv.1,
            );
            assert(values_of(parts.flatten()) == parts.flatten().map_values(|kv: (K, V)| kv.1));
            assert(values_of(values_of(mapped)) == values_of(mapped).map_values(
                |kv: (K, V)| kv.1,
            ));
            assert(values_of(values_of(mapped)) =~= values_of(pairs));
        }
    }

    proof fn lemma_fast_path(&self, pairs: Seq<((J, K), V)>) {
        if self.is_right_biased {
            let mapped = snd_nested_pairs(pairs);
            assert forall|i: int| 0 <= i < mapped.len() implies self.right.valid_key(
                #[trigger] mapped[i].0,
            ) by {
                assert(mapped[i].0 == pairs[i].0.1);
            }
            if pairs.len() == 0 {
                assert(mapped =~= Seq::<(K, (J, V))>::empty());
                self.right.lemma_fast_path(mapped);
                assert(self.spec_groups(pairs) =~= Seq::<Seq<V>>::empty());
            } else {
                let kv = pairs[0];
                self.right.lemma_fast_path(mapped);
                let part = seq![(kv.0.0, kv.1)];
                assert(mapped[0].1 == (kv.0.0, kv.1));
                assert(self.right.spec_groups(mapped) == seq![part]);
                assert(seq![part].drop_first() =~= Seq::<Seq<(J, V)>>::empty());
                assert(concat_groups(&self.left, seq![part]) == self.left.spec_groups(part)
                    + concat_groups(&self.left, seq![part].drop_first()));
                assert(part[0].0 == pairs[0].0.0);
                self.left.lemma_fast_path(part);
                assert(self.left.spec_groups(part) == seq![seq![kv.1]]);
                assert(self.spec_groups(pairs) =~= seq![seq![kv.1]]);
            }
        } else {
            let mapped = fst_nested_pairs(pairs);
            assert forall|i: int| 0 <= i < mapped.len() implies self.left.valid_key(
                #[trigger] mapped[i].0,
            ) by {
                assert(mapped[i].0 == pairs[i].0.0);
            }
            if pairs.len() == 0 {
                assert(mapped =~= Seq::<(J, (K, V))>::empty());
                self.left.lemma_fast_path(mapped);
                assert(self.spec_groups(pairs) =~= Seq::<Seq<V>>::empty());
            } else {
                let kv = pairs[0];
                self.left.lemma_fast_path(mapped);
                let part = seq![(kv.0.1, kv.1)];
                assert(mapped[0].1 == (kv.0.1, kv.1));
                assert(self.left.spec_groups(mapped) == seq![part]);
                assert(seq![part].drop_first() =~= Seq::<Seq<(K, V)>>::empty());
                assert(concat_groups(&self.right, seq![part]) == self.right.spec_groups(part)
                    + concat_groups(&self.right, seq![part].drop_first()));
                assert(part[0].0 == pairs[0].0.1);
                self.right.lemma_fast_path(part);
                assert(self.right.spec_groups(part) == seq![seq![kv.1]]);
                assert(self.spec_groups(pairs) =~= seq![seq![kv.1]]);
            }
        }
    }
}

} // verus!
