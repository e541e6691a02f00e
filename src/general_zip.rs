use crate::buffer::{Input, Output};
use vstd::layout::{align_of, size_of};
use vstd::prelude::*;

verus! {

/// Takes the value out of a result that is known to be `Ok`, as the
/// infallible forms of the zip do with a transform that cannot fail.
pub fn unwrap<T, E>(t: Result<T, E>) -> (r: T)
    requires
        t is Ok,
    ensures
        t == Ok::<T, E>(r),
{
    t.ok().unwrap()
}

/// Closes `Tuple` to the impls of this crate.
pub trait Seal {
}

/// One input of a zip: a value that can be taken apart into a data segment
/// that yields its items one by one and may lend its allocation to the output.
pub trait TupleElem: Sized {
    /// The items yielded from this element.
    type Item;

    /// The data segment that yields the items.
    type Data;

    /// The items of the input value, in order.
    spec fn elems(&self) -> Seq<Self::Item>;

    /// The items of a data segment not read yet, in order.
    spec fn data_items(data: &Self::Data) -> Seq<Self::Item>;

    /// The capacity of the allocation behind a data segment.
    spec fn data_cap(data: &Self::Data) -> nat;

    /// Whether the data segment still owns its allocation.
    spec fn data_owns(data: &Self::Data) -> bool;

    /// The unread items fit in the allocation.
    spec fn data_wf(data: &Self::Data) -> bool;

    /// Whether the allocation can hold elements of the given size and
    /// alignment: both are those of the items.
    spec fn layout_matches(size: nat, align: nat) -> bool;

    proof fn lemma_fits(data: &Self::Data)
        requires
            Self::data_wf(data),
        ensures
            Self::data_items(data).len() <= Self::data_cap(data),
    ;

    /// The capacity of the data segment.
    fn capacity(data: &Self::Data) -> (r: usize)
        requires
            Self::data_wf(data),
        ensures
            r == Self::data_cap(data),
    ;

    /// The number of items of the input value.
    fn len(&self) -> (r: usize)
        ensures
            r == self.elems().len(),
    ;

    /// Converts into a data segment that owns its allocation.
    fn into_data(self) -> (r: Self::Data)
        ensures
            Self::data_wf(&r),
            Self::data_items(&r) == self.elems(),
            Self::data_owns(&r),
    ;

    /// Whether the output may be built in this element's allocation.
    fn check_layout<V>() -> (r: bool)
        ensures
            r == Self::layout_matches(size_of::<V>(), align_of::<V>()),
    ;

    /// Hands the allocation over to a new output, which it can hold.
    fn take_output<V>(data: &mut Self::Data) -> (r: Output<V>)
        requires
            Self::data_wf(old(data)),
            Self::layout_matches(size_of::<V>(), align_of::<V>()),
        ensures
            Self::data_wf(final(data)),
            Self::data_items(final(data)) == Self::data_items(old(data)),
            Self::data_cap(final(data)) == Self::data_cap(old(data)),
            !Self::data_owns(final(data)),
            r.buf@.len() == 0,
            r.cap == Self::data_cap(old(data)),
    ;

    /// Reads the next item.
    fn next_unchecked(data: &mut Self::Data) -> (r: Self::Item)
        requires
            Self::data_wf(old(data)),
            Self::data_items(old(data)).len() > 0,
        ensures
            Self::data_wf(final(data)),
            r == Self::data_items(old(data))[0],
            Self::data_items(final(data)) == Self::data_items(old(data)).subrange(
                1,
                Self::data_items(old(data)).len() as int,
            ),
            Self::data_cap(final(data)) == Self::data_cap(old(data)),
            Self::data_owns(final(data)) == Self::data_owns(old(data)),
    ;

    /// Drops the items not read yet and releases the allocation if it is
    /// still owned.
    fn drop_rest(data: &mut Self::Data)
        ensures
            Self::data_wf(final(data)),
            Self::data_items(final(data)).len() == 0,
            !Self::data_owns(final(data)),
    ;
}

impl<A> TupleElem for Vec<A> {
    type Item = A;

    type Data = Input<A>;

    open spec fn elems(&self) -> Seq<A> {
        self@
    }

    open spec fn data_items(data: &Input<A>) -> Seq<A> {
        data.items()
    }

    open spec fn data_cap(data: &Input<A>) -> nat {
        data.cap as nat
    }

    open spec fn data_owns(data: &Input<A>) -> bool {
        data.drop_alloc
    }

    open spec fn data_wf(data: &Input<A>) -> bool {
        data.wf()
    }

    open spec fn layout_matches(size: nat, align: nat) -> bool {
        size_of::<A>() == size && align_of::<A>() == align
    }

    proof fn lemma_fits(data: &Input<A>) {
    }

    fn capacity(data: &Input<A>) -> (r: usize) {
        data.cap
    }

    fn len(&self) -> (r: usize) {
        Vec::len(self)
    }

    fn into_data(self) -> (r: Input<A>) {
        Input::from_vec(self)
    }

    fn check_layout<V>() -> (r: bool) {
        core::mem::size_of::<A>() == core::mem::size_of::<V>() && core::mem::align_of::<A>()
            == core::mem::align_of::<V>()
    }

    fn take_output<V>(data: &mut Input<A>) -> (r: Output<V>) {
        data.take_output()
    }

    fn next_unchecked(data: &mut Input<A>) -> (r: A) {
        data.next_unchecked()
    }

    fn drop_rest(data: &mut Input<A>) {
        data.drop_rest()
    }
}

impl<A: TupleElem> TupleElem for (A,) {
    type Item = A::Item;

    type Data = A::Data;

    open spec fn elems(&self) -> Seq<A::Item> {
        self.0.elems()
    }

    open spec fn data_items(data: &A::Data) -> Seq<A::Item> {
        A::data_items(data)
    }

    open spec fn data_cap(data: &A::Data) -> nat {
        A::data_cap(data)
    }

    open spec fn data_owns(data: &A::Data) -> bool {
        A::data_owns(data)
    }

    open spec fn data_wf(data: &A::Data) -> bool {
        A::data_wf(data)
    }

    open spec fn layout_matches(size: nat, align: nat) -> bool {
        A::layout_matches(size, align)
    }

    proof fn lemma_fits(data: &A::Data) {
        A::lemma_fits(data);
    }

    fn capacity(data: &A::Data) -> (r: usize) {
        A::capacity(data)
    }

    fn len(&self) -> (r: usize) {
        self.0.len()
    }

    fn into_data(self) -> (r: A::Data) {
        self.0.into_data()
    }

    fn check_layout<V>() -> (r: bool) {
        A::check_layout::<V>()
    }

    fn take_output<V>(data: &mut A::Data) -> (r: Output<V>) {
        A::take_output(data)
    }

    fn next_unchecked(data: &mut A::Data) -> (r: A::Item) {
        A::next_unchecked(data)
    }

    fn drop_rest(data: &mut A::Data) {
        A::drop_rest(data)
    }
}

/// Whether some position of a list of layout checks accepts the output.
pub open spec fn any_match(layouts: Seq<bool>) -> bool {
    exists|i: int| 0 <= i < layouts.len() && layouts[i]
}

/// `cap` is the largest capacity among the positions whose layout matches.
pub open spec fn is_max_cap(layouts: Seq<bool>, caps: Seq<nat>, cap: nat) -> bool {
    &&& exists|i: int| 0 <= i < layouts.len() && layouts[i] && caps[i] == cap
    &&& forall|i: int| 0 <= i < layouts.len() && layouts[i] ==> caps[i] <= cap
}

/// `pos` is the first position whose layout matches and whose capacity is `cap`.
pub open spec fn is_first_with_cap(layouts: Seq<bool>, caps: Seq<nat>, cap: nat, pos: int) -> bool {
    &&& 0 <= pos < layouts.len()
    &&& layouts[pos]
    &&& caps[pos] == cap
    &&& forall|j: int| 0 <= j < pos ==> !(layouts[j] && caps[j] == cap)
}

/// A list of inputs, walked in lock-step: a head element and a tail list,
/// ending in a one-element list.
pub trait Tuple: Seal + Sized {
    /// One item of every input, in list order.
    type Item;

    /// The data segments of all the inputs.
    type Data;

    /// The number of inputs.
    spec fn arity() -> nat;

    /// The items yielded in lock-step: as many as the shortest input holds.
    spec fn items(&self) -> Seq<Self::Item>;

    /// The lock-step items not read yet.
    spec fn data_items(data: &Self::Data) -> Seq<Self::Item>;

    /// Every input's data segment is well formed.
    spec fn data_wf(data: &Self::Data) -> bool;

    /// The capacity of each input's allocation, in list order.
    spec fn caps(data: &Self::Data) -> Seq<nat>;

    /// Whether each input still owns its allocation.
    spec fn owns(data: &Self::Data) -> Seq<bool>;

    /// The number of unread items of each input.
    spec fn remaining(data: &Self::Data) -> Seq<nat>;

    /// Whether each input's allocation can hold elements of the given layout.
    spec fn layouts(size: nat, align: nat) -> Seq<bool>;

    proof fn lemma_shape(data: &Self::Data, size: nat, align: nat)
        requires
            Self::data_wf(data),
        ensures
            Self::arity() >= 1,
            Self::caps(data).len() == Self::arity(),
            Self::owns(data).len() == Self::arity(),
            Self::remaining(data).len() == Self::arity(),
            Self::layouts(size, align).len() == Self::arity(),
            forall|i: int|
                0 <= i < Self::arity() ==> Self::data_items(data).len() <= #[trigger] Self::remaining(
                    data,
                )[i] <= Self::caps(data)[i],
    ;

    /// Takes every input apart; each owns its allocation.
    fn into_data(self) -> (r: Self::Data)
        ensures
            Self::data_wf(&r),
            Self::data_items(&r) == self.items(),
            forall|i: int| 0 <= i < Self::arity() ==> #[trigger] Self::owns(&r)[i],
    ;

    /// The number of lock-step items: the length of the shortest input.
    fn remaining_len(&self) -> (r: usize)
        ensures
            r == self.items().len(),
    ;

    /// Whether some input's allocation can hold the output.
    fn check_layout<V>() -> (r: bool)
        ensures
            r == any_match(Self::layouts(size_of::<V>(), align_of::<V>())),
    ;

    /// The largest capacity among the inputs whose layout matches `V`.
    fn max_cap<V>(data: &Self::Data) -> (r: Option<usize>)
        requires
            Self::data_wf(data),
        ensures
            match r {
                None => !any_match(Self::layouts(size_of::<V>(), align_of::<V>())),
                Some(cap) => is_max_cap(
                    Self::layouts(size_of::<V>(), align_of::<V>()),
                    Self::caps(data),
                    cap as nat,
                ),
            },
    ;

    /// Hands over the allocation of the first input whose layout matches `V`
    /// and whose capacity is `cap`.
    fn take_output_impl<V>(data: &mut Self::Data, cap: usize) -> (r: Output<V>)
        requires
            Self::data_wf(old(data)),
            exists|i: int|
                is_first_with_cap(
                    Self::layouts(size_of::<V>(), align_of::<V>()),
                    Self::caps(old(data)),
                    cap as nat,
                    i,
                ),
        ensures
            Self::data_wf(final(data)),
            Self::data_items(final(data)) == Self::data_items(old(data)),
            Self::caps(final(data)) == Self::caps(old(data)),
            Self::remaining(final(data)) == Self::remaining(old(data)),
            r.buf@.len() == 0,
            r.cap == cap,
            exists|pos: int|
                is_first_with_cap(
                    Self::layouts(size_of::<V>(), align_of::<V>()),
                    Self::caps(old(data)),
                    cap as nat,
                    pos,
                ) && Self::owns(final(data)) == Self::owns(old(data)).update(pos, false),
    ;
    /// Hands over the allocation of the donor: among the inputs whose layout
    /// matches `V`, the one with the largest capacity, the first on a tie.
    /// It can hold every lock-step item.
    fn take_output<V>(data: &mut Self::Data) -> (r: Output<V>)
        requires
            Self::data_wf(old(data)),
            any_match(Self::layouts(size_of::<V>(), align_of::<V>())),
        ensures
            Self::data_wf(final(data)),
            Self::data_items(final(data)) == Self::data_items(old(data)),
            Self::caps(final(data)) == Self::caps(old(data)),
            Self::remaining(final(data)) == Self::remaining(old(data)),
            r.buf@.len() == 0,
            r.cap >= Self::data_items(old(data)).len(),
            is_max_cap(
                Self::layouts(size_of::<V>(), align_of::<V>()),
                Self::caps(old(data)),
                r.cap as nat,
            ),
            exists|pos: int|
                is_first_with_cap(
                    Self::layouts(size_of::<V>(), align_of::<V>()),
                    Self::caps(old(data)),
                    r.cap as nat,
                    pos,
                ) && Self::owns(final(data)) == Self::owns(old(data)).update(pos, false),
    ;

    /// Reads the next item of every input.
    fn next_unchecked(data: &mut Self::Data) -> (r: Self::Item)
        requires
            Self::data_wf(old(data)),
            Self::data_items(old(data)).len() > 0,
        ensures
            Self::data_wf(final(data)),
            r == Self::data_items(old(data))[0],
            Self::data_items(final(data)) == Self::data_items(old(data)).subrange(
                1,
                Self::data_items(old(data)).len() as int,
            ),
            Self::caps(final(data)) == Self::caps(old(data)),
            Self::owns(final(data)) == Self::owns(old(data)),
            forall|i: int|
                0 <= i < Self::arity() ==> #[trigger] Self::remaining(final(data))[i] + 1
                    == Self::remaining(old(data))[i],
    ;

    /// Drops the unread items of every input and releases every allocation
    /// still owned.
    fn drop_rest(data: &mut Self::Data)
        requires
            Self::data_wf(old(data)),
        ensures
            Self::data_wf(final(data)),
            Self::data_items(final(data)).len() == 0,
            forall|i: int|
                0 <= i < Self::arity() ==> #[trigger] Self::remaining(final(data))[i] == 0
                    && !Self::owns(final(data))[i],
    ;
}

impl<A: TupleElem> Seal for (A,) {
}

impl<A: TupleElem> Tuple for (A,) {
    type Item = A::Item;

    type Data = A::Data;

    open spec fn arity() -> nat {
        1
    }

    open spec fn items(&self) -> Seq<A::Item> {
        self.0.elems()
    }

    open spec fn data_items(data: &A::Data) -> Seq<A::Item> {
        A::data_items(data)
    }

    open spec fn data_wf(data: &A::Data) -> bool {
        A::data_wf(data)
    }

    open spec fn caps(data: &A::Data) -> Seq<nat> {
        seq![A::data_cap(data)]
    }

    open spec fn owns(data: &A::Data) -> Seq<bool> {
        seq![A::data_owns(data)]
    }

    open spec fn remaining(data: &A::Data) -> Seq<nat> {
        seq![A::data_items(data).len()]
    }

    open spec fn layouts(size: nat, align: nat) -> Seq<bool> {
        seq![A::layout_matches(size, align)]
    }

    proof fn lemma_shape(data: &A::Data, size: nat, align: nat) {
        A::lemma_fits(data);
    }

    fn into_data(self) -> (r: A::Data) {
        self.0.into_data()
    }

    fn remaining_len(&self) -> (r: usize) {
        self.0.len()
    }

    fn check_layout<V>() -> (r: bool) {
        let r = A::check_layout::<V>();
        proof {
            let l = Self::layouts(size_of::<V>(), align_of::<V>());
            if r {
                assert(l[0]);
            }
        }
        r
    }

    fn max_cap<V>(data: &A::Data) -> (r: Option<usize>) {
        if A::check_layout::<V>() {
            let cap = A::capacity(data);
            proof {
                let l = Self::layouts(size_of::<V>(), align_of::<V>());
                assert(l[0] && Self::caps(data)[0] == cap as nat);
            }
            Some(cap)
        } else {
            None
        }
    }

    fn take_output_impl<V>(data: &mut A::Data, cap: usize) -> (r: Output<V>) {
        let r = A::take_output::<V>(data);
        proof {
            let l = Self::layouts(size_of::<V>(), align_of::<V>());
            let i = choose|i: int| is_first_with_cap(l, Self::caps(old(data)), cap as nat, i);
            assert(i == 0);
            assert(Self::owns(data) =~= Self::owns(old(data)).update(0, false));
        }
        r
    }

    fn take_output<V>(data: &mut A::Data) -> (r: Output<V>) {
        let m = Self::max_cap::<V>(data);
        let cap = m.unwrap();
        proof {
            Self::lemma_shape(data, size_of::<V>(), align_of::<V>());
            let l = Self::layouts(size_of::<V>(), align_of::<V>());
            assert(m == Some(cap));
            assert(is_max_cap(l, Self::caps(data), cap as nat));
            let i = choose|i: int| 0 <= i < l.len() && l[i] && Self::caps(data)[i] == cap as nat;
            assert(Self::remaining(data)[i] <= Self::caps(data)[i]);
            lemma_first_with_cap(l, Self::caps(data), cap as nat, i);
        }
        Self::take_output_impl::<V>(data, cap)
    }

    fn next_unchecked(data: &mut A::Data) -> (r: A::Item) {
        A::next_unchecked(data)
    }

    fn drop_rest(data: &mut A::Data) {
        A::drop_rest(data)
    }
}

/// Where some position matches with capacity `cap`, a first such position exists.
pub proof fn lemma_first_with_cap(layouts: Seq<bool>, caps: Seq<nat>, cap: nat, i: int)
    requires
        0 <= i < layouts.len(),
        layouts[i],
        caps[i] == cap,
    ensures
        exists|pos: int| is_first_with_cap(layouts, caps, cap, pos),
    decreases i,
{
    if exists|j: int| 0 <= j < i && layouts[j] && caps[j] == cap {
        let j = choose|j: int| 0 <= j < i && layouts[j] && caps[j] == cap;
        lemma_first_with_cap(layouts, caps, cap, j);
    } else {
        assert(is_first_with_cap(layouts, caps, cap, i));
    }
}

/// The pairs of items at equal positions, as many as the shorter sequence holds.
pub open spec fn zip_seqs<X, Y>(a: Seq<X>, b: Seq<Y>) -> Seq<(X, Y)> {
    let n = if a.len() <= b.len() {
        a.len()
    } else {
        b.len()
    };
    Seq::new(n, |i: int| (a[i], b[i]))
}

impl<A: TupleElem, T: Tuple> Seal for (A, T) {
}

impl<A: TupleElem, T: Tuple> Tuple for (A, T) {
    type Item = (A::Item, T::Item);

    type Data = (A::Data, T::Data);

    open spec fn arity() -> nat {
        T::arity() + 1
    }

    open spec fn items(&self) -> Seq<(A::Item, T::Item)> {
        zip_seqs(self.0.elems(), self.1.items())
    }

    open spec fn data_items(data: &(A::Data, T::Data)) -> Seq<(A::Item, T::Item)> {
        zip_seqs(A::data_items(&data.0), T::data_items(&data.1))
    }

    open spec fn data_wf(data: &(A::Data, T::Data)) -> bool {
        A::data_wf(&data.0) && T::data_wf(&data.1)
    }

    open spec fn caps(data: &(A::Data, T::Data)) -> Seq<nat> {
        seq![A::data_cap(&data.0)] + T::caps(&data.1)
    }

    open spec fn owns(data: &(A::Data, T::Data)) -> Seq<bool> {
        seq![A::data_owns(&data.0)] + T::owns(&data.1)
    }

    open spec fn remaining(data: &(A::Data, T::Data)) -> Seq<nat> {
        seq![A::data_items(&data.0).len()] + T::remaining(&data.1)
    }

    open spec fn layouts(size: nat, align: nat) -> Seq<bool> {
        seq![A::layout_matches(size, align)] + T::layouts(size, align)
    }

    proof fn lemma_shape(data: &(A::Data, T::Data), size: nat, align: nat) {
        A::lemma_fits(&data.0);
        T::lemma_shape(&data.1, size, align);
        assert forall|i: int| 0 <= i < Self::arity() implies Self::data_items(data).len()
            <= #[trigger] Self::remaining(data)[i] <= Self::caps(data)[i] by {
            if i > 0 {
                assert(Self::remaining(data)[i] == T::remaining(&data.1)[i - 1]);
                assert(Self::caps(data)[i] == T::caps(&data.1)[i - 1]);
            }
        }
    }

    fn into_data(self) -> (r: (A::Data, T::Data)) {
        let r = (self.0.into_data(), self.1.into_data());
        proof {
            assert(Self::data_items(&r) =~= self.items());
            assert forall|i: int| 0 <= i < Self::arity() implies #[trigger] Self::owns(&r)[i] by {
                T::lemma_shape(&r.1, 0, 0);
                if i > 0 {
                    assert(Self::owns(&r)[i] == T::owns(&r.1)[i - 1]);
                }
            }
        }
        r
    }

    fn remaining_len(&self) -> (r: usize) {
        let a = self.0.len();
        let b = self.1.remaining_len();
        if a <= b {
            a
        } else {
            b
        }
    }

    fn check_layout<V>() -> (r: bool) {
        let h = A::check_layout::<V>();
        let t = T::check_layout::<V>();
        proof {
            let l = Self::layouts(size_of::<V>(), align_of::<V>());
            let lt = T::layouts(size_of::<V>(), align_of::<V>());
            if h {
                assert(l[0]);
            } else if t {
                let j = choose|j: int| 0 <= j < lt.len() && lt[j];
                assert(l[j + 1] == lt[j]);
            } else {
                assert forall|i: int| 0 <= i < l.len() implies !l[i] by {
                    if i > 0 {
                        assert(l[i] == lt[i - 1]);
                    }
                }
            }
        }
        h || t
    }

    fn max_cap<V>(data: &(A::Data, T::Data)) -> (r: Option<usize>) {
        let cap_rest = T::max_cap::<V>(&data.1);
        let ghost l = Self::layouts(size_of::<V>(), align_of::<V>());
        let ghost lt = T::layouts(size_of::<V>(), align_of::<V>());
        let ghost c = Self::caps(data);
        let ghost ct = T::caps(&data.1);
        proof {
            T::lemma_shape(&data.1, size_of::<V>(), align_of::<V>());
            assert forall|i: int| 0 < i < l.len() implies l[i] == lt[i - 1] && c[i] == ct[i - 1] by {
            }
        }
        if A::check_layout::<V>() {
            let cap = A::capacity(&data.0);
            match cap_rest {
                Some(cr) => {
                    if cr > cap {
                        proof {
                            let j = choose|j: int| 0 <= j < lt.len() && lt[j] && ct[j] == cr as nat;
                            assert(l[j + 1] && c[j + 1] == cr as nat);
                            assert forall|i: int| 0 <= i < l.len() && l[i] implies c[i]
                                <= cr as nat by {
                                if i > 0 {
                                    assert(lt[i - 1]);
                                }
                            }
                        }
                        Some(cr)
                    } else {
                        proof {
                            assert(l[0] && c[0] == cap as nat);
                            assert forall|i: int| 0 <= i < l.len() && l[i] implies c[i]
                                <= cap as nat by {
                                if i > 0 {
                                    assert(lt[i - 1]);
                                }
                            }
                        }
                        Some(cap)
                    }
                },
                None => {
                    proof {
                        assert(l[0] && c[0] == cap as nat);
                        assert forall|i: int| 0 <= i < l.len() && l[i] implies c[i]
                            <= cap as nat by {
                            if i > 0 {
                                assert(lt[i - 1]);
                            }
                        }
                    }
                    Some(cap)
                },
            }
        } else {
            proof {
                match cap_rest {
                    Some(cr) => {
                        let j = choose|j: int| 0 <= j < lt.len() && lt[j] && ct[j] == cr as nat;
                        assert(l[j + 1] && c[j + 1] == cr as nat);
                        assert forall|i: int| 0 <= i < l.len() && l[i] implies c[i]
                            <= cr as nat by {
                            if i > 0 {
                                assert(lt[i - 1]);
                            }
                        }
                    },
                    None => {
                        assert forall|i: int| 0 <= i < l.len() implies !l[i] by {
                            if i > 0 {
                                assert(!lt[i - 1]);
                            }
                        }
                    },
                }
            }
            cap_rest
        }
    }

    fn take_output_impl<V>(data: &mut (A::Data, T::Data), cap: usize) -> (r: Output<V>) {
        let ghost l = Self::layouts(size_of::<V>(), align_of::<V>());
        let ghost lt = T::layouts(size_of::<V>(), align_of::<V>());
        let ghost c = Self::caps(old(data));
        let ghost ct = T::caps(&old(data).1);
        proof {
            T::lemma_shape(&data.1, size_of::<V>(), align_of::<V>());
        }
        if A::check_layout::<V>() && A::capacity(&data.0) == cap {
            let r = A::take_output::<V>(&mut data.0);
            proof {
                assert(is_first_with_cap(l, c, cap as nat, 0));
                assert(Self::owns(data) =~= Self::owns(old(data)).update(0, false));
            }
            r
        } else {
            proof {
                let i = choose|i: int| is_first_with_cap(l, c, cap as nat, i);
                assert(i > 0);
                assert(l[i] == lt[i - 1] && c[i] == ct[i - 1]);
                assert forall|j: int| 0 <= j < i - 1 implies !(lt[j] && ct[j] == cap as nat) by {
                    assert(l[j + 1] == lt[j] && c[j + 1] == ct[j]);
                }
                assert(is_first_with_cap(lt, ct, cap as nat, i - 1));
            }
            let r = T::take_output_impl::<V>(&mut data.1, cap);
            proof {
                let p = choose|p: int|
                    is_first_with_cap(lt, ct, cap as nat, p) && T::owns(&data.1) == T::owns(
                        &old(data).1,
                    ).update(p, false);
                assert(l[p + 1] == lt[p] && c[p + 1] == ct[p]);
                assert forall|j: int| 0 <= j < p + 1 implies !(l[j] && c[j] == cap as nat) by {
                    if j > 0 {
                        assert(l[j] == lt[j - 1] && c[j] == ct[j - 1]);
                    }
                }
                assert(is_first_with_cap(l, c, cap as nat, p + 1));
                assert(Self::owns(data) =~= Self::owns(old(data)).update(p + 1, false));
            }
            r
        }
    }

    fn take_output<V>(data: &mut (A::Data, T::Data)) -> (r: Output<V>) {
        let m = Self::max_cap::<V>(data);
        let cap = m.unwrap();
        proof {
            Self::lemma_shape(data, size_of::<V>(), align_of::<V>());
            let l = Self::layouts(size_of::<V>(), align_of::<V>());
            assert(m == Some(cap));
            assert(is_max_cap(l, Self::caps(data), cap as nat));
            let i = choose|i: int| 0 <= i < l.len() && l[i] && Self::caps(data)[i] == cap as nat;
            assert(Self::remaining(data)[i] <= Self::caps(data)[i]);
            lemma_first_with_cap(l, Self::caps(data), cap as nat, i);
        }
        Self::take_output_impl::<V>(data, cap)
    }

    fn next_unchecked(data: &mut (A::Data, T::Data)) -> (r: (A::Item, T::Item)) {
        let a = A::next_unchecked(&mut data.0);
        let t = T::next_unchecked(&mut data.1);
        proof {
            assert(Self::data_items(data) =~= Self::data_items(old(data)).subrange(
                1,
                Self::data_items(old(data)).len() as int,
            ));
            T::lemma_shape(&data.1, 0, 0);
            T::lemma_shape(&old(data).1, 0, 0);
            assert(Self::caps(data) =~= Self::caps(old(data)));
            assert(Self::owns(data) =~= Self::owns(old(data)));
            assert forall|i: int| 0 <= i < Self::arity() implies #[trigger] Self::remaining(
                data,
            )[i] + 1 == Self::remaining(old(data))[i] by {
                if i > 0 {
                    assert(Self::remaining(data)[i] == T::remaining(&data.1)[i - 1]);
                    assert(Self::remaining(old(data))[i] == T::remaining(&old(data).1)[i - 1]);
                }
            }
        }
        (a, t)
    }

    fn drop_rest(data: &mut (A::Data, T::Data)) {
        A::drop_rest(&mut data.0);
        T::drop_rest(&mut data.1);
        proof {
            T::lemma_shape(&data.1, 0, 0);
            assert forall|i: int| 0 <= i < Self::arity() implies #[trigger] Self::remaining(
                data,
            )[i] == 0 && !Self::owns(data)[i] by {
                if i > 0 {
                    assert(Self::remaining(data)[i] == T::remaining(&data.1)[i - 1]);
                    assert(Self::owns(data)[i] == T::owns(&data.1)[i - 1]);
                }
            }
        }
    }
}

/// What a zip of `items` through `f` may return: on `Ok`, one result per item,
/// each an `Ok` value of `f` on that item; on `Err`, the error that `f` gave on
/// some item after giving `Ok` values on every item before it.
pub open spec fn zip_outcome<I, V, E, F: Fn(I) -> Result<V, E>>(
    items: Seq<I>,
    f: F,
    r: Result<Vec<V>, E>,
) -> bool {
    match r {
        Ok(out) => {
            &&& out@.len() == items.len()
            &&& forall|i: int| 0 <= i < items.len() ==> f.ensures((items[i],), Ok(#[trigger] out@[i]))
        },
        Err(e) => exists|k: int|
            0 <= k < items.len() && f.ensures((items[k],), Err(e)) && forall|j: int|
                0 <= j < k ==> ok_on(f, #[trigger] items[j]),
    }
}

/// `f` may give an `Ok` value on `x`.
pub open spec fn ok_on<I, V, E, F: Fn(I) -> Result<V, E>>(f: F, x: I) -> bool {
    exists|v: V| f.ensures((x,), Ok(v))
}

/// `f` gives `Ok` on every item.
pub open spec fn all_ok<I, V, E, F: Fn(I) -> Result<V, E>>(items: Seq<I>, f: F) -> bool {
    forall|i: int, r: Result<V, E>| 0 <= i < items.len() && f.ensures((items[i],), r) ==> r is Ok
}

/// `out` holds one result of `f` per item, in order.
pub open spec fn mapped<I, V, F: Fn(I) -> V>(items: Seq<I>, f: F, out: Seq<V>) -> bool {
    &&& out.len() == items.len()
    &&& forall|i: int| 0 <= i < items.len() ==> f.ensures((items[i],), #[trigger] out[i])
}

/// The state of one zip: the output being written, the inputs being read,
/// and how many lock-step items there were and are left.
pub struct ZipWithIter<V, In: Tuple> {
    pub output: Output<V>,
    pub input: In::Data,
    pub initial_len: usize,
    pub remaining_len: usize,
}

impl<V, In: Tuple> ZipWithIter<V, In> {
    /// The state is fresh: nothing read, nothing written.
    pub open spec fn fresh(&self) -> bool {
        &&& In::data_wf(&self.input)
        &&& self.output.buf@.len() == 0
        &&& self.initial_len == self.remaining_len
        &&& self.remaining_len == In::data_items(&self.input).len()
    }

    /// Walks the inputs in lock-step, writing the result of `f` on each item
    /// to the output, and stops at the first error. Every input is emptied
    /// and released either way.
    pub fn try_into_vec<E, F: Fn(In::Item) -> Result<V, E>>(self, f: F) -> (r: Result<Vec<V>, E>)
        requires
            self.fresh(),
            forall|i: int|
                0 <= i < In::data_items(&self.input).len() ==> f.requires(
                    (In::data_items(&self.input)[i],),
                ),
        ensures
            zip_outcome(In::data_items(&self.input), f, r),
            all_ok(In::data_items(&self.input), f) ==> r is Ok,
    {
        let ghost items = In::data_items(&self.input);
        let mut this = self;
        while this.remaining_len > 0
            invariant
                In::data_wf(&this.input),
                this.remaining_len <= this.initial_len,
                this.initial_len == items.len(),
                In::data_items(&this.input) == items.subrange(
                    items.len() - this.remaining_len,
                    items.len() as int,
                ),
                this.output.buf@.len() == items.len() - this.remaining_len,
                forall|j: int|
                    0 <= j < this.output.buf@.len() ==> f.ensures(
                        (items[j],),
                        Ok::<V, E>(#[trigger] this.output.buf@[j]),
                    ),
                forall|i: int| 0 <= i < items.len() ==> f.requires((items[i],)),
                items == In::data_items(&self.input),
            decreases this.remaining_len,
        {
            let ghost k = this.output.buf@.len() as int;
            this.remaining_len = this.remaining_len - 1;
            let x = In::next_unchecked(&mut this.input);
            assert(x == items[k]);
            let fx = f(x);
            match fx {
                Ok(v) => {
                    this.output.write(v);
                    proof {
                        assert(In::data_items(&this.input) =~= items.subrange(
                            items.len() - this.remaining_len,
                            items.len() as int,
                        ));
                    }
                },
                Err(e) => {
                    In::drop_rest(&mut this.input);
                    proof {
                        let buf = this.output.buf@;
                        assert forall|j: int| 0 <= j < k implies ok_on(f, #[trigger] items[j]) by {
                            assert(f.ensures((items[j],), Ok::<V, E>(buf[j])));
                        }
                        assert(0 <= k < items.len() && f.ensures((items[k],), Err::<V, E>(e)));
                    }
                    return Err(e);
                },
            }
        }
        In::drop_rest(&mut this.input);
        Ok(this.output.buf)
    }
}

/// Applies `f` to the inputs in lock-step, as many times as the shortest
/// input has items, and collects the results, stopping at the first error.
/// Where some input's element layout matches `V`, the output is sized after
/// the donor's allocation; otherwise it grows in a fresh buffer. The outcome
/// is the same either way.
pub fn try_zip_with<V, E, In: Tuple, F: Fn(In::Item) -> Result<V, E>>(input: In, f: F) -> (r: Result<
    Vec<V>,
    E,
>)
    requires
        forall|i: int| 0 <= i < input.items().len() ==> f.requires((input.items()[i],)),
    ensures
        zip_outcome(input.items(), f, r),
        all_ok(input.items(), f) ==> r is Ok,
{
    let len = input.remaining_len();
    let mut data = input.into_data();
    let output = if In::check_layout::<V>() {
        In::take_output::<V>(&mut data)
    } else {
        Output::fresh()
    };
    let iter = ZipWithIter::<V, In> { output, input: data, initial_len: len, remaining_len: len };
    iter.try_into_vec(f)
}

/// Applies a transform that cannot fail to the inputs in lock-step.
pub fn zip_with<V, In: Tuple, F: Fn(In::Item) -> V>(input: In, f: F) -> (r: Vec<V>)
    requires
        forall|i: int| 0 <= i < input.items().len() ==> f.requires((input.items()[i],)),
    ensures
        mapped(input.items(), f, r@),
{
    let ghost items = input.items();
    let fr = &f;
    let g = |x: In::Item| -> (res: Result<V, ()>)
        requires
            fr.requires((x,)),
        ensures
            res is Ok && fr.ensures((x,), res->Ok_0),
        { Ok(fr(x)) };
    let res = try_zip_with(input, g);
    let r = unwrap(res);
    proof {
        assert forall|i: int| 0 <= i < items.len() implies f.ensures((items[i],), #[trigger] r@[i]) by {
            assert(g.ensures((items[i],), Ok::<V, ()>(r@[i])));
        }
    }
    r
}

/// Applies `f` to every element of `v`.
pub fn map<T, V, F: Fn(T) -> V>(v: Vec<T>, f: F) -> (r: Vec<V>)
    requires
        forall|i: int| 0 <= i < v@.len() ==> f.requires((v@[i],)),
    ensures
        mapped(v@, f, r@),
{
    zip_with((v,), f)
}

/// Mapping with a transform that returns its argument gives back the input.
pub proof fn law_map_identity<T, F: Fn(T) -> T>(items: Seq<T>, f: F, out: Seq<T>)
    requires
        forall|x: T, y: T| f.ensures((x,), y) ==> y == x,
        mapped(items, f, out),
    ensures
        out == items,
{
    assert(out =~= items);
}

/// Zipping a head input with a tail list yields as many items as the shorter
/// of the two holds, the `i`-th pairing the `i`-th items of both.
pub proof fn law_zip_len_is_min<A: TupleElem, T: Tuple>(input: (A, T))
    ensures
        input.items().len() == vstd::math::min(
            input.0.elems().len() as int,
            input.1.items().len() as int,
        ),
        forall|i: int|
            0 <= i < input.items().len() ==> #[trigger] input.items()[i] == (
                input.0.elems()[i],
                input.1.items()[i],
            ),
{
}

} // verus!
