//! A pull-based stream of values with push-back. The values are held in
//! memory: a transformation such as `map` or `flatten` is applied to all
//! of them when it is called, and the result is pulled one value at a time.
use vstd::prelude::*;

verus! {

/// A single-consumption sequence of values. Values are pulled one at a
/// time with `next`; `push` puts a value back onto the front.
///
/// The values still to come are kept in reverse order, so that the front
/// of the stream is the end of the vector.
pub struct Stream<A> {
    rev: Vec<A>,
}

impl<A> View for Stream<A> {
    type V = Seq<A>;

    /// The values still to come, front first.
    closed spec fn view(&self) -> Seq<A> {
        self.rev@.reverse()
    }
}

proof fn lemma_reverse_push<A>(s: Seq<A>, a: A)
    ensures
        s.push(a).reverse() == seq![a] + s.reverse(),
{
    assert(s.push(a).reverse() =~= seq![a] + s.reverse());
}

proof fn lemma_reverse_drop_last<A>(s: Seq<A>)
    requires
        s.len() > 0,
    ensures
        s.drop_last().reverse() == s.reverse().drop_first(),
        s.reverse()[0] == s.last(),
{
    assert(s.drop_last().reverse() =~= s.reverse().drop_first());
}

impl<A> Stream<A> {
    /// A stream of the given values, in order.
    pub fn new(items: Vec<A>) -> (r: Stream<A>)
        ensures
            r@ == items@,
    {
        let mut items = items;
        let mut rev: Vec<A> = Vec::new();
        let ghost all = items@;
        while items.len() > 0
            invariant
                all == items@ + rev@.reverse(),
            decreases items.len(),
        {
            let ghost before = items@;
            let x = items.pop().unwrap();
            proof {
                lemma_reverse_push(rev@, x);
                assert(before == items@.push(x));
            }
            rev.push(x);
            assert(all =~= items@ + rev@.reverse());
        }
        assert(all =~= rev@.reverse());
        Stream { rev }
    }

    /// A stream without values.
    pub fn empty() -> (r: Stream<A>)
        ensures
            r@ == Seq::<A>::empty(),
    {
        Stream { rev: Vec::new() }
    }

    /// Takes the front value, or `None` once the stream is exhausted.
    pub fn next(&mut self) -> (r: Option<A>)
        ensures
            old(self)@.len() == 0 ==> r is None && final(self)@ == old(self)@,
            old(self)@.len() > 0 ==> r == Some(old(self)@[0]) && final(self)@
                == old(self)@.drop_first(),
    {
        proof {
            if self.rev@.len() > 0 {
                lemma_reverse_drop_last(self.rev@);
            }
        }
        self.rev.pop()
    }

    /// Puts `head` onto the front: the next `next` returns it.
    pub fn push(&mut self, head: A)
        ensures
            final(self)@ == seq![head] + old(self)@,
    {
        proof {
            lemma_reverse_push(self.rev@, head);
        }
        self.rev.push(head);
    }

    /// A stream holds no more values than fit in memory.
    pub proof fn lemma_len_bound(&self)
        ensures
            self@.len() <= usize::MAX,
    {
        assert(self.rev@.len() == self.rev.len());
    }

    /// Whether a value remains.
    pub fn has_next(&self) -> (r: bool)
        ensures
            r == (self@.len() > 0),
    {
        self.rev.len() > 0
    }

    /// Pulls every remaining value, in order.
    pub fn to_vec(self) -> (r: Vec<A>)
        ensures
            r@ == self@,
    {
        let mut s = self;
        let mut out: Vec<A> = Vec::new();
        let ghost all = s@;
        while s.has_next()
            invariant
                all == out@ + s@,
            decreases s@.len(),
        {
            let x = s.next().unwrap();
            out.push(x);
            assert(all =~= out@ + s@);
        }
        assert(all =~= out@);
        out
    }
}


/// The values of `s` whose flag in `keep` is set, in order.
pub open spec fn select<A>(s: Seq<A>, keep: Seq<bool>) -> Seq<A>
    decreases s.len(),
{
    if s.len() == 0 {
        Seq::empty()
    } else if keep[0] {
        seq![s[0]] + select(s.drop_first(), keep.drop_first())
    } else {
        select(s.drop_first(), keep.drop_first())
    }
}

/// The values of the streams in `parts`, one stream after the other.
pub open spec fn concat_views<A>(parts: Seq<Stream<A>>) -> Seq<A> {
    parts.map_values(|p: Stream<A>| p@).flatten()
}

proof fn lemma_select_push<A>(s: Seq<A>, keep: Seq<bool>, x: A, b: bool)
    requires
        s.len() == keep.len(),
    ensures
        select(s.push(x), keep.push(b)) == select(s, keep) + (if b {
            seq![x]
        } else {
            Seq::empty()
        }),
    decreases s.len(),
{
    if s.len() > 0 {
        lemma_select_push(s.drop_first(), keep.drop_first(), x, b);
        assert(s.push(x).drop_first() =~= s.drop_first().push(x));
        assert(keep.push(b).drop_first() =~= keep.drop_first().push(b));
        if keep[0] {
            assert(select(s.push(x), keep.push(b)) =~= seq![s[0]] + select(s.drop_first().push(x), keep.drop_first().push(b)));
        }
    } else {
        assert(s.push(x).drop_first() =~= s);
        assert(keep.push(b).drop_first() =~= keep);
    }
}

impl<A> Stream<A> {
    /// Applies `function` to each value, in order.
    pub fn map<B, F: Fn(A) -> B>(self, function: F) -> (r: Stream<B>)
        requires
            forall|i: int| 0 <= i < self@.len() ==> function.requires((#[trigger] self@[i],)),
        ensures
            r@.len() == self@.len(),
            forall|i: int| 0 <= i < self@.len() ==> function.ensures((self@[i],), #[trigger] r@[i]),
    {
        let mut s = self;
        let ghost all = s@;
        let mut out: Vec<B> = Vec::new();
        while s.has_next()
            invariant
                all.len() == out@.len() + s@.len(),
                s@ == all.skip(out@.len() as int),
                forall|i: int| 0 <= i < all.len() ==> function.requires((#[trigger] all[i],)),
                forall|i: int| 0 <= i < out@.len() ==> function.ensures((all[i],), #[trigger] out@[i]),
            decreases s@.len(),
        {
            let ghost k = out@.len() as int;
            let x = s.next().unwrap();
            assert(x == all[k]);
            let y = function(x);
            out.push(y);
            assert(s@ =~= all.skip(out@.len() as int));
        }
        Stream::new(out)
    }

    /// Keeps the values for which `predicate` holds, in order.
    pub fn filter<F: Fn(&A) -> bool>(self, predicate: F) -> (r: Stream<A>)
        requires
            forall|i: int| 0 <= i < self@.len() ==> predicate.requires((&#[trigger] self@[i],)),
        ensures
            exists|keep: Seq<bool>|
                {
                    &&& keep.len() == self@.len()
                    &&& forall|i: int|
                        0 <= i < self@.len() ==> predicate.ensures((&self@[i],), #[trigger] keep[i])
                    &&& r@ == select(self@, keep)
                },
    {
        let mut s = self;
        let ghost all = s@;
        let ghost mut keep: Seq<bool> = Seq::empty();
        let mut out: Vec<A> = Vec::new();
        while s.has_next()
            invariant
                all.len() == keep.len() + s@.len(),
                s@ == all.skip(keep.len() as int),
                forall|i: int| 0 <= i < all.len() ==> predicate.requires((&#[trigger] all[i],)),
                forall|i: int|
                    0 <= i < keep.len() ==> predicate.ensures((&all[i],), #[trigger] keep[i]),
                out@ == select(all.take(keep.len() as int), keep),
            decreases s@.len(),
        {
            let ghost k = keep.len() as int;
            let x = s.next().unwrap();
            assert(x == all[k]);
            let b = predicate(&x);
            proof {
                lemma_select_push(all.take(k), keep, x, b);
                assert(all.take(k).push(x) =~= all.take(k + 1));
                keep = keep.push(b);
            }
            if b {
                out.push(x);
            }
            assert(s@ =~= all.skip(keep.len() as int));
        }
        assert(all.take(keep.len() as int) =~= all);
        Stream::new(out)
    }
}


impl<A> Stream<A> {
    /// Combines the values, front first, starting from `initial`.
    pub fn fold<Acc, F: Fn(Acc, A) -> Acc>(self, initial: Acc, function: F) -> (r: Acc)
        requires
            forall|acc: Acc, a: A| function.requires((acc, a)),
        ensures
            exists|accs: Seq<Acc>|
                {
                    &&& accs.len() == self@.len() + 1
                    &&& accs[0] == initial
                    &&& accs.last() == r
                    &&& forall|i: int|
                        0 <= i < self@.len() ==> function.ensures(
                            (#[trigger] accs[i], self@[i]),
                            accs[i + 1],
                        )
                },
    {
        let mut s = self;
        let ghost all = s@;
        let mut accumulator = initial;
        let ghost mut accs: Seq<Acc> = seq![initial];
        while s.has_next()
            invariant
                all.len() + 1 == accs.len() + s@.len(),
                s@ == all.skip(accs.len() - 1),
                accs.len() >= 1,
                accs[0] == initial,
                accs.last() == accumulator,
                forall|acc: Acc, a: A| function.requires((acc, a)),
                forall|i: int|
                    0 <= i < accs.len() - 1 ==> function.ensures(
                        (#[trigger] accs[i], all[i]),
                        accs[i + 1],
                    ),
            decreases s@.len(),
        {
            let ghost k = accs.len() - 1;
            let x = s.next().unwrap();
            assert(x == all[k]);
            accumulator = function(accumulator, x);
            proof {
                accs = accs.push(accumulator);
            }
            assert(s@ =~= all.skip(accs.len() - 1));
        }
        accumulator
    }

    /// Applies `function` to each value and joins the resulting streams,
    /// each one exhausted before the next begins.
    pub fn flat_map<B, F: Fn(A) -> Stream<B>>(self, function: F) -> (r: Stream<B>)
        requires
            forall|i: int| 0 <= i < self@.len() ==> function.requires((#[trigger] self@[i],)),
        ensures
            exists|parts: Seq<Stream<B>>|
                {
                    &&& parts.len() == self@.len()
                    &&& forall|i: int|
                        0 <= i < self@.len() ==> function.ensures((self@[i],), #[trigger] parts[i])
                    &&& r@ == concat_views(parts)
                },
    {
        let mapped = self.map(function);
        let ghost parts = mapped@;
        let r = mapped.flatten();
        assert(forall|i: int|
            0 <= i < self@.len() ==> function.ensures((self@[i],), #[trigger] parts[i]));
        r
    }
}

impl<A> Stream<Stream<A>> {
    /// Joins the inner streams, each one exhausted before the next begins.
    pub fn flatten(self) -> (r: Stream<A>)
        ensures
            r@ == concat_views(self@),
    {
        let mut outer = self;
        let ghost all = outer@;
        let ghost mut k: int = 0;
        let mut out: Vec<A> = Vec::new();
        while outer.has_next()
            invariant
                0 <= k <= all.len(),
                outer@ == all.skip(k),
                out@ == concat_views(all.take(k)),
            decreases outer@.len(),
        {
            let mut current = outer.next().unwrap();
            assert(current == all[k]);
            let ghost before = out@;
            let ghost chunk = current@;
            while current.has_next()
                invariant
                    out@ + current@ == before + chunk,
                decreases current@.len(),
            {
                let x = current.next().unwrap();
                out.push(x);
                assert(out@ + current@ =~= before + chunk);
            }
            proof {
                assert(out@ =~= before + chunk);
                assert(all.take(k + 1) =~= all.take(k).push(all[k]));
                assert(all.take(k + 1).map_values(|p: Stream<A>| p@) =~= all.take(k).map_values(
                    |p: Stream<A>| p@,
                ).push(all[k]@));
                all.take(k).map_values(|p: Stream<A>| p@).lemma_flatten_push(all[k]@);
                k = k + 1;
            }
            assert(outer@ =~= all.skip(k));
        }
        assert(all.take(k) =~= all);
        Stream::new(out)
    }
}

impl<A: Clone> Stream<A> {
    /// The front value, left in place: the stream is unchanged.
    pub fn peek(&mut self) -> (r: Option<A>)
        ensures
            final(self)@ == old(self)@,
            old(self)@.len() == 0 ==> r is None,
            old(self)@.len() > 0 ==> r is Some && cloned(old(self)@[0], r->0),
    {
        match self.next() {
            Some(a) => {
                let copy = a.clone();
                self.push(a);
                assert(self@ =~= old(self)@);
                Some(copy)
            },
            None => None,
        }
    }

    /// A stream of `n` copies of `element`.
    pub fn replicate(element: A, n: u32) -> (r: Stream<A>)
        ensures
            r@.len() == n,
            forall|i: int| 0 <= i < n ==> cloned(element, #[trigger] r@[i]),
    {
        let mut out: Vec<A> = Vec::new();
        let mut counter: u32 = 0;
        while counter < n
            invariant
                counter <= n,
                out@.len() == counter,
                forall|i: int| 0 <= i < counter ==> cloned(element, #[trigger] out@[i]),
            decreases n - counter,
        {
            out.push(element.clone());
            counter = counter + 1;
        }
        Stream::new(out)
    }
}

} // verus!
