//! The grouped-iteration protocol: a discrimination yields a sequence of
//! groups, each a sequence of values of one discriminated class.  Both levels
//! are consumed one step at a time, from the front or from the back, each
//! step popping one end of a double-ended queue in constant time.

use std::collections::VecDeque;

use vstd::prelude::*;

use crate::seq_facts::{lemma_reverse_pop, lemma_reverse_reverse};

verus! {

/// One discriminated class: the values routed to a single group, in input
/// order.
pub struct DiscriminateSortedGroup<T> {
    values: VecDeque<T>,
}

impl<T> View for DiscriminateSortedGroup<T> {
    type V = Seq<T>;

    closed spec fn view(&self) -> Seq<T> {
        self.values@
    }
}

impl<T> DiscriminateSortedGroup<T> {
    pub(crate) fn from_values(values: Vec<T>) -> (r: Self)
        ensures
            r@ == values@,
    {
        DiscriminateSortedGroup { values: to_deque(values) }
    }

    /// Pulls the next value from the front of the group.
    pub fn next(&mut self) -> (r: Option<T>)
        ensures
            old(self)@.len() == 0 ==> r is None && final(self)@ == old(self)@,
            old(self)@.len() > 0 ==> r == Some(old(self)@[0]) && final(self)@ == old(self)@.drop_first(),
    {
        let r = self.values.pop_front();
        proof {
            if old(self)@.len() > 0 {
                assert(self@ =~= old(self)@.drop_first());
            }
        }
        r
    }

    /// Pulls the next value from the back of the group.
    pub fn next_back(&mut self) -> (r: Option<T>)
        ensures
            old(self)@.len() == 0 ==> r is None && final(self)@ == old(self)@,
            old(self)@.len() > 0 ==> r == Some(old(self)@.last()) && final(self)@ == old(self)@.drop_last(),
    {
        let r = self.values.pop_back();
        proof {
            if old(self)@.len() > 0 {
                assert(self@ =~= old(self)@.drop_last());
            }
        }
        r
    }

    /// The group is materialized, so the reported bounds are exact.
    pub fn size_hint(&self) -> (r: (usize, Option<usize>))
        ensures
            r.0 == self@.len(),
            r.1 == Some(r.0),
    {
        (self.values.len(), Some(self.values.len()))
    }

    /// Consumes the group into the plain vector of its values.
    pub fn into_values(self) -> (r: Vec<T>)
        ensures
            r@ == self@,
    {
        to_vec(self.values)
    }
}

/// The sequence of groups a discrimination yields, in strategy order.
pub struct DiscriminateSorted<T> {
    groups: VecDeque<DiscriminateSortedGroup<T>>,
}

impl<T> View for DiscriminateSorted<T> {
    type V = Seq<Seq<T>>;

    closed spec fn view(&self) -> Seq<Seq<T>> {
        self.groups@.map_values(|g: DiscriminateSortedGroup<T>| g@)
    }
}

impl<T> DiscriminateSorted<T> {
    pub(crate) fn empty() -> (r: Self)
        ensures
            r@ == Seq::<Seq<T>>::empty(),
    {
        let r = DiscriminateSorted { groups: VecDeque::new() };
        proof {
            assert(r@ =~= Seq::<Seq<T>>::empty());
        }
        r
    }

    pub(crate) fn push_group(&mut self, values: Vec<T>)
        ensures
            final(self)@ == old(self)@.push(values@),
    {
        let g = DiscriminateSortedGroup::from_values(values);
        self.groups.push_back(g);
        proof {
            assert(self@ =~= old(self)@.push(values@));
        }
    }

    /// Concatenates two group sequences, this one first.
    pub(crate) fn concat(self, other: Self) -> (r: Self)
        ensures
            r@ == self@ + other@,
    {
        let mut groups = self.groups;
        let mut tail = other.groups;
        let ghost gs = groups@;
        let ghost ts = tail@;
        groups.append(&mut tail);
        let r = DiscriminateSorted { groups };
        proof {
            assert(r@ =~= gs.map_values(|g: DiscriminateSortedGroup<T>| g@) + ts.map_values(
                |g: DiscriminateSortedGroup<T>| g@,
            ));
        }
        r
    }

    /// Reverses the group order, leaving each group itself untouched.
    pub(crate) fn reverse(self) -> (r: Self)
        ensures
            r@ == self@.reverse(),
    {
        let ghost sv = self@;
        let DiscriminateSorted { groups } = self;
        let ghost gorig = groups@;
        let mut src = groups;
        let mut rev: VecDeque<DiscriminateSortedGroup<T>> = VecDeque::new();
        while src.len() > 0
            invariant
                rev@.len() + src@.len() == gorig.len(),
                src@ == gorig.take(src@.len() as int),
                forall|j: int| 0 <= j < rev@.len() ==> rev@[j] == gorig[gorig.len() - 1 - j],
            decreases src@.len(),
        {
            let g = src.pop_back().unwrap();
            proof {
                assert(src@ =~= gorig.take(src@.len() as int));
            }
            rev.push_back(g);
        }
        let r = DiscriminateSorted { groups: rev };
        proof {
            assert(rev@ =~= gorig.reverse());
            assert(r@ =~= sv.reverse());
        }
        r
    }

    /// Pulls the next group from the front.
    pub fn next(&mut self) -> (r: Option<DiscriminateSortedGroup<T>>)
        ensures
            old(self)@.len() == 0 ==> r is None && final(self)@ == old(self)@,
            old(self)@.len() > 0 ==> r is Some && r->Some_0@ == old(self)@[0] && final(self)@
                == old(self)@.drop_first(),
    {
        let r = self.groups.pop_front();
        proof {
            if old(self)@.len() > 0 {
                assert(self@ =~= old(self)@.drop_first());
            } else {
                assert(self@ =~= old(self)@);
            }
        }
        r
    }

    /// Pulls the next group from the back.
    pub fn next_back(&mut self) -> (r: Option<DiscriminateSortedGroup<T>>)
        ensures
            old(self)@.len() == 0 ==> r is None && final(self)@ == old(self)@,
            old(self)@.len() > 0 ==> r is Some && r->Some_0@ == old(self)@.last() && final(self)@
                == old(self)@.drop_last(),
    {
        let r = self.groups.pop_back();
        proof {
            if old(self)@.len() > 0 {
                assert(self@ =~= old(self)@.drop_last());
            } else {
                assert(self@ =~= old(self)@);
            }
        }
        r
    }

    /// The group sequence is materialized, so the reported bounds are exact.
    pub fn size_hint(&self) -> (r: (usize, Option<usize>))
        ensures
            r.0 == self@.len(),
            r.1 == Some(r.0),
    {
        (self.groups.len(), Some(self.groups.len()))
    }

    /// Consumes the whole discrimination into its list of groups.
    pub fn into_groups(self) -> (r: Vec<DiscriminateSortedGroup<T>>)
        ensures
            r@.map_values(|g: DiscriminateSortedGroup<T>| g@) == self@,
    {
        to_vec(self.groups)
    }
}

/// Reverses a vector, moving its elements.
pub(crate) fn reversed<T>(v: Vec<T>) -> (r: Vec<T>)
    ensures
        r@ == v@.reverse(),
{
    let ghost orig = v@;
    let mut src = v;
    let mut out: Vec<T> = Vec::new();
    while src.len() > 0
        invariant
            out@.len() + src@.len() == orig.len(),
            src@ == orig.take(src@.len() as int),
            forall|j: int| 0 <= j < out@.len() ==> out@[j] == orig[orig.len() - 1 - j],
        decreases src@.len(),
    {
        let x = src.pop().unwrap();
        proof {
            assert(src@ =~= orig.take(src@.len() as int));
        }
        out.push(x);
    }
    proof {
        assert(out@ =~= orig.reverse());
    }
    out
}

/// Moves a vector's elements into a double-ended queue, front to front.
pub(crate) fn to_deque<T>(v: Vec<T>) -> (r: VecDeque<T>)
    ensures
        r@ == v@,
{
    let ghost orig = v@;
    let mut rest = reversed(v);
    let mut out: VecDeque<T> = VecDeque::new();
    proof {
        lemma_reverse_reverse(orig);
        assert(out@ + rest@.reverse() =~= orig);
    }
    while rest.len() > 0
        invariant
            out@ + rest@.reverse() == orig,
        decreases rest@.len(),
    {
        let ghost before = rest@;
        let x = rest.pop().unwrap();
        proof {
            lemma_reverse_pop(before);
        }
        out.push_back(x);
        proof {
            assert(out@ + rest@.reverse() =~= orig);
        }
    }
    proof {
        assert(out@ =~= orig);
    }
    out
}

/// Moves a double-ended queue's elements into a vector, front to front.
pub(crate) fn to_vec<T>(dq: VecDeque<T>) -> (r: Vec<T>)
    ensures
        r@ == dq@,
{
    let ghost orig = dq@;
    let mut src = dq;
    let mut out: Vec<T> = Vec::new();
    while src.len() > 0
        invariant
            out@ + src@ == orig,
        decreases src@.len(),
    {
        let x = src.pop_front().unwrap();
        proof {
            assert(out@.push(x) + src@ =~= orig);
        }
        out.push(x);
    }
    proof {
        assert(out@ + src@ =~= out@);
        assert(out@ =~= orig);
    }
    out
}

} // verus!
