//! A stream with its front value pulled ahead of time.
use crate::stream::Stream;
use vstd::prelude::*;

verus! {

/// A stream whose front value is always pulled already, so that it can be
/// looked at without a pull.
pub struct Peekable<A> {
    first: Option<A>,
    stream: Stream<A>,
}

impl<A> View for Peekable<A> {
    type V = Seq<A>;

    /// The values still to come, front first.
    closed spec fn view(&self) -> Seq<A> {
        match self.first {
            Some(a) => seq![a] + self.stream@,
            None => Seq::empty(),
        }
    }
}

impl<A> Peekable<A> {
    /// The front value is pulled whenever one remains.
    pub closed spec fn well_formed(&self) -> bool {
        self.first is None ==> self.stream@.len() == 0
    }
}

impl<A: Copy> Peekable<A> {
    pub fn new(stream: Stream<A>) -> (r: Peekable<A>)
        ensures
            r.well_formed(),
            r@ == stream@,
    {
        let mut stream = stream;
        let ghost all = stream@;
        let first = stream.next();
        proof {
            if all.len() > 0 {
                assert(all =~= seq![all[0]] + stream@);
            }
        }
        Peekable { first, stream }
    }

    /// The front value, without consuming it.
    pub fn peek(&self) -> (r: Option<A>)
        requires
            self.well_formed(),
        ensures
            self@.len() == 0 ==> r is None,
            self@.len() > 0 ==> r == Some(self@[0]),
    {
        self.first
    }

    /// Takes the front value, or `None` once the values are exhausted.
    pub fn next(&mut self) -> (r: Option<A>)
        requires
            old(self).well_formed(),
        ensures
            final(self).well_formed(),
            old(self)@.len() == 0 ==> r is None && final(self)@ == old(self)@,
            old(self)@.len() > 0 ==> r == Some(old(self)@[0]) && final(self)@
                == old(self)@.drop_first(),
    {
        let result = self.first;
        let ghost rest = self.stream@;
        self.first = self.stream.next();
        proof {
            if rest.len() > 0 {
                assert(rest =~= seq![rest[0]] + self.stream@);
            }
            if result is Some {
                assert((seq![result->0] + rest).drop_first() =~= rest);
            }
        }
        result
    }
}

} // verus!
