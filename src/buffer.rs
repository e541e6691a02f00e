use std::collections::VecDeque;
use vstd::prelude::*;

verus! {

/// Relies on `Vec::capacity`: a vector's capacity is never below its length.
#[verifier::external_body]
fn vec_capacity<A>(v: &Vec<A>) -> (r: usize)
    ensures
        r >= v@.len(),
{
    v.capacity()
}

/// One input vector taken apart: the elements not read yet, in order, the
/// capacity of the allocation it came from, and whether that allocation is
/// still this handle's to release.
pub struct Input<A> {
    pub rest: VecDeque<A>,
    pub cap: usize,
    pub drop_alloc: bool,
}

impl<A> Input<A> {
    /// The elements not read yet.
    pub open spec fn items(&self) -> Seq<A> {
        self.rest@
    }

    /// The unread elements always fit in the allocation.
    pub open spec fn wf(&self) -> bool {
        self.rest@.len() <= self.cap
    }

    /// Takes a vector apart; the handle owns its allocation.
    pub fn from_vec(v: Vec<A>) -> (r: Input<A>)
        ensures
            r.wf(),
            r.items() == v@,
            r.cap >= v@.len(),
            r.drop_alloc,
    {
        let cap = vec_capacity(&v);
        let ghost orig = v@;
        let mut v = v;
        let mut rest: VecDeque<A> = VecDeque::new();
        while v.len() > 0
            invariant
                v@ + rest@ == orig,
            decreases v.len(),
        {
            let x = v.pop().unwrap();
            rest.push_front(x);
            proof {
                assert(v@ + rest@ =~= orig);
            }
        }
        proof {
            assert(rest@ =~= orig);
        }
        Input { rest, cap, drop_alloc: true }
    }

    /// Reads the next element.
    pub fn next_unchecked(&mut self) -> (r: A)
        requires
            old(self).wf(),
            old(self).items().len() > 0,
        ensures
            final(self).wf(),
            r == old(self).items()[0],
            final(self).items() == old(self).items().subrange(1, old(self).items().len() as int),
            final(self).cap == old(self).cap,
            final(self).drop_alloc == old(self).drop_alloc,
    {
        self.rest.pop_front().unwrap()
    }

    /// Gives up the allocation to the output: this handle no longer releases it.
    pub fn take_output<V>(&mut self) -> (r: Output<V>)
        ensures
            r.buf@.len() == 0,
            r.cap == old(self).cap,
            final(self).rest@ == old(self).rest@,
            final(self).cap == old(self).cap,
            !final(self).drop_alloc,
    {
        self.drop_alloc = false;
        Output::with_capacity(self.cap)
    }

    /// Drops every element not read yet, then releases the allocation if it
    /// is still this handle's.
    pub fn drop_rest(&mut self)
        ensures
            final(self).items().len() == 0,
            final(self).cap == old(self).cap,
            !final(self).drop_alloc,
    {
        self.rest.clear();
        if self.drop_alloc {
            self.rest = VecDeque::new();
            self.drop_alloc = false;
        }
    }
}

/// The buffer that results are written to, with the capacity it was made for.
pub struct Output<V> {
    pub buf: Vec<V>,
    pub cap: usize,
}

impl<V> Output<V> {
    /// An empty output sized for `cap` elements.
    pub fn with_capacity(cap: usize) -> (r: Output<V>)
        ensures
            r.buf@.len() == 0,
            r.cap == cap,
    {
        Output { buf: Vec::with_capacity(cap), cap }
    }

    /// An empty output in a fresh buffer that grows as results are written.
    pub fn fresh() -> (r: Output<V>)
        ensures
            r.buf@.len() == 0,
            r.cap == 0,
    {
        Output { buf: Vec::new(), cap: 0 }
    }

    /// Writes the next result.
    pub fn write(&mut self, v: V)
        ensures
            final(self).buf@ == old(self).buf@.push(v),
            final(self).cap == old(self).cap,
    {
        self.buf.push(v);
    }
}

} // verus!
