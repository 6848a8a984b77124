//! The dual-consumer stream splitter: one tagged source, two logical
//! consumers.  One consumer sees only `Left` payloads, the other only
//! `Right` payloads; items seen while scanning for the other side's tag are
//! buffered in four queues (left/right, front/back) so that nothing is lost
//! or duplicated, and same-tag relative order is preserved.
//!
//! The shared state is a single owner; each pull borrows it mutably, so the
//! calling context guarantees one active pull at a time.  Sharing the state
//! between two independently held handles is interior mutability, which
//! stays outside the verified core.

use std::collections::VecDeque;

use vstd::prelude::*;

use either::Either;

use crate::groups::to_deque;

verus! {

/// The `Left` payloads of a tagged stream, in source order.
pub open spec fn lefts<A, B>(s: Seq<Either<A, B>>) -> Seq<A>
    decreases s.len(),
{
    if s.len() == 0 {
        Seq::empty()
    } else {
        let rest = lefts(s.drop_first());
        match s[0] {
            Either::Left(a) => seq![a] + rest,
            Either::Right(_) => rest,
        }
    }
}

/// The `Right` payloads of a tagged stream, in source order.
pub open spec fn rights<A, B>(s: Seq<Either<A, B>>) -> Seq<B>
    decreases s.len(),
{
    if s.len() == 0 {
        Seq::empty()
    } else {
        let rest = rights(s.drop_first());
        match s[0] {
            Either::Left(_) => rest,
            Either::Right(b) => seq![b] + rest,
        }
    }
}

/// How appending one tagged item extends the two payload streams.
pub proof fn lemma_split_push<A, B>(s: Seq<Either<A, B>>, x: Either<A, B>)
    ensures
        lefts(s.push(x)) == (match x {
            Either::Left(a) => lefts(s).push(a),
            Either::Right(_) => lefts(s),
        }),
        rights(s.push(x)) == (match x {
            Either::Left(_) => rights(s),
            Either::Right(b) => rights(s).push(b),
        }),
    decreases s.len(),
{
    if s.len() == 0 {
        let one = s.push(x);
        assert(one[0] == x);
        assert(one.drop_first() =~= Seq::<Either<A, B>>::empty());
        assert(lefts(one.drop_first()) == Seq::<A>::empty());
        assert(rights(one.drop_first()) == Seq::<B>::empty());
        match x {
            Either::Left(a) => {
                assert(lefts(one) == seq![a] + Seq::<A>::empty());
                assert(seq![a] + Seq::<A>::empty() =~= lefts(s).push(a));
                assert(rights(one) =~= rights(s));
            },
            Either::Right(b) => {
                assert(rights(one) == seq![b] + Seq::<B>::empty());
                assert(seq![b] + Seq::<B>::empty() =~= rights(s).push(b));
                assert(lefts(one) =~= lefts(s));
            },
        }
    } else {
        lemma_split_push(s.drop_first(), x);
        assert(s.push(x).drop_first() =~= s.drop_first().push(x));
        match x {
            Either::Left(a) => {
                match s[0] {
                    Either::Left(_) => {
                        assert(lefts(s.push(x)) =~= lefts(s).push(a));
                    },
                    Either::Right(_) => {},
                }
            },
            Either::Right(b) => {
                match s[0] {
                    Either::Right(_) => {
                        assert(rights(s.push(x)) =~= rights(s).push(b));
                    },
                    Either::Left(_) => {},
                }
            },
        }
    }
}

/// Every source item carries exactly one tag, so the two payload streams
/// partition the source.
pub proof fn lemma_split_len<A, B>(s: Seq<Either<A, B>>)
    ensures
        lefts(s).len() + rights(s).len() == s.len(),
    decreases s.len(),
{
    if s.len() > 0 {
        lemma_split_len(s.drop_first());
    }
}

/// Each `Left` payload comes from a `Left` item of the source.
pub proof fn lemma_lefts_contained<A, B>(s: Seq<Either<A, B>>)
    ensures
        forall|i: int|
            0 <= i < lefts(s).len() ==> s.contains(Either::Left(#[trigger] lefts(s)[i])),
    decreases s.len(),
{
    if s.len() > 0 {
        let rest = s.drop_first();
        lemma_lefts_contained(rest);
        assert forall|i: int| 0 <= i < lefts(s).len() implies s.contains(
            Either::Left(#[trigger] lefts(s)[i]),
        ) by {
            match s[0] {
                Either::Left(a) => {
                    if i == 0 {
                        assert(lefts(s)[0] == a);
                        assert(s[0] == Either::<A, B>::Left(a));
                    } else {
                        assert(lefts(s)[i] == lefts(rest)[i - 1]);
                        let x = lefts(rest)[i - 1];
                        let j = choose|j: int| 0 <= j < rest.len() && rest[j] == Either::<A, B>::Left(x);
                        assert(s[j + 1] == Either::<A, B>::Left(x));
                    }
                },
                Either::Right(_) => {
                    assert(lefts(s)[i] == lefts(rest)[i]);
                    let x = lefts(rest)[i];
                    let j = choose|j: int| 0 <= j < rest.len() && rest[j] == Either::<A, B>::Left(x);
                    assert(s[j + 1] == Either::<A, B>::Left(x));
                },
            }
        }
    }
}

/// Each `Right` payload comes from a `Right` item of the source.
pub proof fn lemma_rights_contained<A, B>(s: Seq<Either<A, B>>)
    ensures
        forall|i: int|
            0 <= i < rights(s).len() ==> s.contains(Either::Right(#[trigger] rights(s)[i])),
    decreases s.len(),
{
    if s.len() > 0 {
        let rest = s.drop_first();
        lemma_rights_contained(rest);
        assert forall|i: int| 0 <= i < rights(s).len() implies s.contains(
            Either::Right(#[trigger] rights(s)[i]),
        ) by {
            match s[0] {
                Either::Right(b) => {
                    if i == 0 {
                        assert(rights(s)[0] == b);
                        assert(s[0] == Either::<A, B>::Right(b));
                    } else {
                        assert(rights(s)[i] == rights(rest)[i - 1]);
                        let x = rights(rest)[i - 1];
                        let j = choose|j: int| 0 <= j < rest.len() && rest[j] == Either::<A, B>::Right(x);
                        assert(s[j + 1] == Either::<A, B>::Right(x));
                    }
                },
                Either::Left(_) => {
                    assert(rights(s)[i] == rights(rest)[i]);
                    let x = rights(rest)[i];
                    let j = choose|j: int| 0 <= j < rest.len() && rest[j] == Either::<A, B>::Right(x);
                    assert(s[j + 1] == Either::<A, B>::Right(x));
                },
            }
        }
    }
}

/// The shared splitter state: four buffers and the unconsumed middle of the
/// source.  Items move between the fields; none is ever dropped or copied.
pub struct SplitEitherImpl<A, B> {
    left: VecDeque<A>,
    right: VecDeque<B>,
    left_back: VecDeque<A>,
    right_back: VecDeque<B>,
    inner: VecDeque<Either<A, B>>,
}

impl<A, B> SplitEitherImpl<A, B> {
    /// What the left consumer has yet to see, in source order.
    pub closed spec fn left_view(&self) -> Seq<A> {
        self.left@ + lefts(self.inner@) + self.left_back@
    }

    /// What the right consumer has yet to see, in source order.
    pub closed spec fn right_view(&self) -> Seq<B> {
        self.right@ + rights(self.inner@) + self.right_back@
    }

    /// The item count never grows past the original source length, so the
    /// size-bound arithmetic cannot overflow.
    pub closed spec fn wf(&self) -> bool {
        self.left@.len() + self.right@.len() + self.left_back@.len() + self.right_back@.len()
            + self.inner@.len() <= usize::MAX
    }

    /// The matching-tag items already buffered for the left consumer.
    pub closed spec fn buffered_left(&self) -> nat {
        self.left@.len() + self.left_back@.len()
    }

    /// The matching-tag items already buffered for the right consumer.
    pub closed spec fn buffered_right(&self) -> nat {
        self.right@.len() + self.right_back@.len()
    }

    /// The shared source items not yet routed to either consumer.
    pub closed spec fn pending(&self) -> nat {
        self.inner@.len()
    }
}

/// Splits one tagged source into the shared state backing the two logical
/// consumers.
pub fn split_either<A, B>(source: Vec<Either<A, B>>) -> (r: SplitEitherImpl<A, B>)
    ensures
        r.wf(),
        r.left_view() == lefts(source@),
        r.right_view() == rights(source@),
{
    let n = source.len();
    let ghost src = source@;
    let inner = to_deque(source);
    let r = SplitEitherImpl {
        left: VecDeque::new(),
        right: VecDeque::new(),
        left_back: VecDeque::new(),
        right_back: VecDeque::new(),
        inner,
    };
    proof {
        assert(r.inner@.len() == n);
        assert(r.inner@ == src);
        assert(r.left_view() =~= lefts(src));
        assert(r.right_view() =~= rights(src));
    }
    r
}

impl<A, B> SplitEitherImpl<A, B> {
    /// Front pull on the left consumer: pop the left-front queue, else scan
    /// the source from the front, buffering `Right` items, else fall back to
    /// the left-back queue.
    pub fn next_left(&mut self) -> (r: Option<A>)
        requires
            old(self).wf(),
        ensures
            final(self).wf(),
            final(self).right_view() == old(self).right_view(),
            old(self).left_view().len() == 0 ==> r is None && final(self).left_view() == old(self).left_view(),
            old(self).left_view().len() > 0 ==> r == Some(old(self).left_view()[0]) && final(self).left_view() == old(self).left_view().drop_first(),
    {
        if self.left.len() > 0 {
            let a = self.left.pop_front().unwrap();
            proof {
                assert(self.left_view() =~= old(self).left_view().drop_first());
                assert(self.right_view() =~= old(self).right_view());
            }
            return Some(a);
        }
        while self.inner.len() > 0
            invariant
                self.wf(),
                self.left@.len() == 0,
                self.left_back@ == old(self).left_back@,
                old(self).left_view() == lefts(self.inner@) + self.left_back@,
                old(self).right_view() == self.right@ + rights(self.inner@) + self.right_back@,
            decreases self.inner@.len(),
        {
            let ghost before = self.inner@;
            let item = self.inner.pop_front().unwrap();
            proof {
                assert(self.inner@ =~= before.drop_first());
            }
            match item {
                Either::Left(a) => {
                    proof {
                        assert(lefts(before) == seq![a] + lefts(self.inner@));
                        assert(old(self).left_view()[0] == a);
                        assert(self.left_view() =~= old(self).left_view().drop_first());
                        assert(self.right_view() =~= old(self).right_view());
                    }
                    return Some(a);
                },
                Either::Right(b) => {
                    self.right.push_back(b);
                    proof {
                        assert(rights(before) == seq![b] + rights(self.inner@));
                        assert(self.right@ + rights(self.inner@) + self.right_back@ =~= old(self).right_view());
                    }
                },
            }
        }
        proof {
            assert(lefts(self.inner@) =~= Seq::<A>::empty());
            assert(old(self).left_view() =~= self.left_back@);
        }
        if self.left_back.len() > 0 {
            let a = self.left_back.pop_front().unwrap();
            proof {
                assert(self.left_view() =~= old(self).left_view().drop_first());
                assert(self.right_view() =~= old(self).right_view());
            }
            Some(a)
        } else {
            proof {
                assert(self.left_view() =~= old(self).left_view());
                assert(self.right_view() =~= old(self).right_view());
            }
            None
        }
    }

    /// Back pull on the left consumer: the mirror image of `next_left`,
    /// scanning the source from the back and buffering into the back queues.
    pub fn next_back_left(&mut self) -> (r: Option<A>)
        requires
            old(self).wf(),
        ensures
            final(self).wf(),
            final(self).right_view() == old(self).right_view(),
            old(self).left_view().len() == 0 ==> r is None && final(self).left_view() == old(self).left_view(),
            old(self).left_view().len() > 0 ==> r == Some(old(self).left_view().last()) && final(self).left_view() == old(self).left_view().drop_last(),
    {
        if self.left_back.len() > 0 {
            let a = self.left_back.pop_back().unwrap();
            proof {
                assert(self.left_view() =~= old(self).left_view().drop_last());
                assert(old(self).left_view().last() == a);
                assert(self.right_view() =~= old(self).right_view());
            }
            return Some(a);
        }
        while self.inner.len() > 0
            invariant
                self.wf(),
                self.left_back@.len() == 0,
                self.left@ == old(self).left@,
                old(self).left_view() == self.left@ + lefts(self.inner@),
                old(self).right_view() == self.right@ + rights(self.inner@) + self.right_back@,
            decreases self.inner@.len(),
        {
            let ghost before = self.inner@;
            let item = self.inner.pop_back().unwrap();
            proof {
                assert(before.drop_last().push(before.last()) =~= before);
                lemma_split_push(before.drop_last(), before.last());
            }
            match item {
                Either::Left(a) => {
                    proof {
                        assert(lefts(before) == lefts(self.inner@).push(a));
                        assert(old(self).left_view().last() == a);
                        assert(self.left_view() =~= old(self).left_view().drop_last());
                        assert(self.right_view() =~= old(self).right_view());
                    }
                    return Some(a);
                },
                Either::Right(b) => {
                    self.right_back.push_front(b);
                    proof {
                        assert(rights(before) == rights(self.inner@).push(b));
                        assert(self.right@ + rights(self.inner@) + self.right_back@ =~= old(self).right_view());
                    }
                },
            }
        }
        proof {
            assert(lefts(self.inner@) =~= Seq::<A>::empty());
            assert(old(self).left_view() =~= self.left@);
        }
        if self.left.len() > 0 {
            let a = self.left.pop_back().unwrap();
            proof {
                assert(self.left_view() =~= old(self).left_view().drop_last());
                assert(self.right_view() =~= old(self).right_view());
            }
            Some(a)
        } else {
            proof {
                assert(self.left_view() =~= old(self).left_view());
                assert(self.right_view() =~= old(self).right_view());
            }
            None
        }
    }

    /// Front pull on the right consumer.
    pub fn next_right(&mut self) -> (r: Option<B>)
        requires
            old(self).wf(),
        ensures
            final(self).wf(),
            final(self).left_view() == old(self).left_view(),
            old(self).right_view().len() == 0 ==> r is None && final(self).right_view() == old(self).right_view(),
            old(self).right_view().len() > 0 ==> r == Some(old(self).right_view()[0]) && final(self).right_view() == old(self).right_view().drop_first(),
    {
        if self.right.len() > 0 {
            let b = self.right.pop_front().unwrap();
            proof {
                assert(self.right_view() =~= old(self).right_view().drop_first());
                assert(self.left_view() =~= old(self).left_view());
            }
            return Some(b);
        }
        while self.inner.len() > 0
            invariant
                self.wf(),
                self.right@.len() == 0,
                self.right_back@ == old(self).right_back@,
                old(self).right_view() == rights(self.inner@) + self.right_back@,
                old(self).left_view() == self.left@ + lefts(self.inner@) + self.left_back@,
            decreases self.inner@.len(),
        {
            let ghost before = self.inner@;
            let item = self.inner.pop_front().unwrap();
            proof {
                assert(self.inner@ =~= before.drop_first());
            }
            match item {
                Either::Right(b) => {
                    proof {
                        assert(rights(before) == seq![b] + rights(self.inner@));
                        assert(old(self).right_view()[0] == b);
                        assert(self.right_view() =~= old(self).right_view().drop_first());
                        assert(self.left_view() =~= old(self).left_view());
                    }
                    return Some(b);
                },
                Either::Left(a) => {
                    self.left.push_back(a);
                    proof {
                        assert(lefts(before) == seq![a] + lefts(self.inner@));
                        assert(self.left@ + lefts(self.inner@) + self.left_back@ =~= old(self).left_view());
                    }
                },
            }
        }
        proof {
            assert(rights(self.inner@) =~= Seq::<B>::empty());
            assert(old(self).right_view() =~= self.right_back@);
        }
        if self.right_back.len() > 0 {
            let b = self.right_back.pop_front().unwrap();
            proof {
                assert(self.right_view() =~= old(self).right_view().drop_first());
                assert(self.left_view() =~= old(self).left_view());
            }
            Some(b)
        } else {
            proof {
                assert(self.right_view() =~= old(self).right_view());
                assert(self.left_view() =~= old(self).left_view());
            }
            None
        }
    }

    /// Back pull on the right consumer.
    pub fn next_back_right(&mut self) -> (r: Option<B>)
        requires
            old(self).wf(),
        ensures
            final(self).wf(),
            final(self).left_view() == old(self).left_view(),
            old(self).right_view().len() == 0 ==> r is None && final(self).right_view() == old(self).right_view(),
            old(self).right_view().len() > 0 ==> r == Some(old(self).right_view().last()) && final(self).right_view() == old(self).right_view().drop_last(),
    {
        if self.right_back.len() > 0 {
            let b = self.right_back.pop_back().unwrap();
            proof {
                assert(self.right_view() =~= old(self).right_view().drop_last());
                assert(old(self).right_view().last() == b);
                assert(self.left_view() =~= old(self).left_view());
            }
            return Some(b);
        }
        while self.inner.len() > 0
            invariant
                self.wf(),
                self.right_back@.len() == 0,
                self.right@ == old(self).right@,
                old(self).right_view() == self.right@ + rights(self.inner@),
                old(self).left_view() == self.left@ + lefts(self.inner@) + self.left_back@,
            decreases self.inner@.len(),
        {
            let ghost before = self.inner@;
            let item = self.inner.pop_back().unwrap();
            proof {
                assert(before.drop_last().push(before.last()) =~= before);
                lemma_split_push(before.drop_last(), before.last());
            }
            match item {
                Either::Right(b) => {
                    proof {
                        assert(rights(before) == rights(self.inner@).push(b));
                        assert(old(self).right_view().last() == b);
                        assert(self.right_view() =~= old(self).right_view().drop_last());
                        assert(self.left_view() =~= old(self).left_view());
                    }
                    return Some(b);
                },
                Either::Left(a) => {
                    self.left_back.push_front(a);
                    proof {
                        assert(lefts(before) == lefts(self.inner@).push(a));
                        assert(self.left@ + lefts(self.inner@) + self.left_back@ =~= old(self).left_view());
                    }
                },
            }
        }
        proof {
            assert(rights(self.inner@) =~= Seq::<B>::empty());
            assert(old(self).right_view() =~= self.right@);
        }
        if self.right.len() > 0 {
            let b = self.right.pop_back().unwrap();
            proof {
                assert(self.right_view() =~= old(self).right_view().drop_last());
                assert(self.left_view() =~= old(self).left_view());
            }
            Some(b)
        } else {
            proof {
                assert(self.right_view() =~= old(self).right_view());
                assert(self.left_view() =~= old(self).left_view());
            }
            None
        }
    }

    /// The left consumer's size bound: the already-buffered left items are
    /// owed for certain, and at most every unconsumed source item joins
    /// them — a bound, not an exact count.
    pub fn size_hint_left(&self) -> (r: (usize, Option<usize>))
        requires
            self.wf(),
        ensures
            r.0 == self.buffered_left(),
            r.1 == Some((self.buffered_left() + self.pending()) as usize),
            r.0 <= self.left_view().len(),
            self.left_view().len() <= r.1->Some_0,
    {
        proof {
            lemma_split_len(self.inner@);
        }
        let lo = self.left.len() + self.left_back.len();
        let hi = lo + self.inner.len();
        (lo, Some(hi))
    }

    /// The right consumer's size bound, the mirror of `size_hint_left`.
    pub fn size_hint_right(&self) -> (r: (usize, Option<usize>))
        requires
            self.wf(),
        ensures
            r.0 == self.buffered_right(),
            r.1 == Some((self.buffered_right() + self.pending()) as usize),
            r.0 <= self.right_view().len(),
            self.right_view().len() <= r.1->Some_0,
    {
        proof {
            lemma_split_len(self.inner@);
        }
        let lo = self.right.len() + self.right_back.len();
        let hi = lo + self.inner.len();
        (lo, Some(hi))
    }
}

/// The left consumer's role.  A handle owns no data: each pull borrows the
/// shared state, so the calling context guarantees at most one active pull
/// at a time — the cooperative, single-owner sharing discipline.
pub struct SplitEitherLeft;

impl SplitEitherLeft {
    /// Front pull: the next `Left` payload the left consumer is owed.
    pub fn next<A, B>(&self, shared: &mut SplitEitherImpl<A, B>) -> (r: Option<A>)
        requires
            old(shared).wf(),
        ensures
            final(shared).wf(),
            final(shared).right_view() == old(shared).right_view(),
            old(shared).left_view().len() == 0 ==> r is None && final(shared).left_view() == old(shared).left_view(),
            old(shared).left_view().len() > 0 ==> r == Some(old(shared).left_view()[0]) && final(shared).left_view() == old(shared).left_view().drop_first(),
    {
        shared.next_left()
    }

    /// Back pull: the last `Left` payload the left consumer is owed.
    pub fn next_back<A, B>(&self, shared: &mut SplitEitherImpl<A, B>) -> (r: Option<A>)
        requires
            old(shared).wf(),
        ensures
            final(shared).wf(),
            final(shared).right_view() == old(shared).right_view(),
            old(shared).left_view().len() == 0 ==> r is None && final(shared).left_view() == old(shared).left_view(),
            old(shared).left_view().len() > 0 ==> r == Some(old(shared).left_view().last())
                && final(shared).left_view() == old(shared).left_view().drop_last(),
    {
        shared.next_back_left()
    }

    /// The left consumer's size bound.
    pub fn size_hint<A, B>(&self, shared: &SplitEitherImpl<A, B>) -> (r: (usize, Option<usize>))
        requires
            shared.wf(),
        ensures
            r.0 == shared.buffered_left(),
            r.1 == Some((shared.buffered_left() + shared.pending()) as usize),
            r.0 <= shared.left_view().len(),
            shared.left_view().len() <= r.1->Some_0,
    {
        shared.size_hint_left()
    }
}

/// The right consumer's role; see `SplitEitherLeft`.
pub struct SplitEitherRight;

impl SplitEitherRight {
    /// Front pull: the next `Right` payload the right consumer is owed.
    pub fn next<A, B>(&self, shared: &mut SplitEitherImpl<A, B>) -> (r: Option<B>)
        requires
            old(shared).wf(),
        ensures
            final(shared).wf(),
            final(shared).left_view() == old(shared).left_view(),
            old(shared).right_view().len() == 0 ==> r is None && final(shared).right_view() == old(shared).right_view(),
            old(shared).right_view().len() > 0 ==> r == Some(old(shared).right_view()[0]) && final(shared).right_view() == old(shared).right_view().drop_first(),
    {
        shared.next_right()
    }

    /// Back pull: the last `Right` payload the right consumer is owed.
    pub fn next_back<A, B>(&self, shared: &mut SplitEitherImpl<A, B>) -> (r: Option<B>)
        requires
            old(shared).wf(),
        ensures
            final(shared).wf(),
            final(shared).left_view() == old(shared).left_view(),
            old(shared).right_view().len() == 0 ==> r is None && final(shared).right_view() == old(shared).right_view(),
            old(shared).right_view().len() > 0 ==> r == Some(old(shared).right_view().last())
                && final(shared).right_view() == old(shared).right_view().drop_last(),
    {
        shared.next_back_right()
    }

    /// The right consumer's size bound.
    pub fn size_hint<A, B>(&self, shared: &SplitEitherImpl<A, B>) -> (r: (usize, Option<usize>))
        requires
            shared.wf(),
        ensures
            r.0 == shared.buffered_right(),
            r.1 == Some((shared.buffered_right() + shared.pending()) as usize),
            r.0 <= shared.right_view().len(),
            shared.right_view().len() <= r.1->Some_0,
    {
        shared.size_hint_right()
    }
}

} // verus!
