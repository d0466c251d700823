//! Nullable arrays and the element-wise `apply` primitive.

use vstd::prelude::*;

use crate::error::Error;

verus! {

/// The slots described by a value buffer and a validity buffer of the same
/// length: slot `i` is present with `values[i]` where `validity[i]` holds and
/// absent elsewhere.
pub open spec fn slots<T>(values: Seq<T>, validity: Seq<bool>) -> Seq<Option<T>> {
    Seq::new(
        values.len(),
        |i: int|
            if 0 <= i < validity.len() && validity[i] {
                Some(values[i])
            } else {
                None
            },
    )
}

/// Whether `output` is what applying `f` to every present value of `input`
/// can give: the same length, absent slots where `input` has them, and in
/// every other slot a value that `f` can return for the value of `input`
/// there.
pub open spec fn applied<T, F: Fn(T) -> T>(
    input: Seq<Option<T>>,
    f: F,
    output: Seq<Option<T>>,
) -> bool {
    &&& output.len() == input.len()
    &&& forall|i: int|
        #![trigger output[i]]
        0 <= i < input.len() ==> (output[i] is Some <==> input[i] is Some)
    &&& forall|i: int|
        #![trigger output[i]]
        0 <= i < input.len() && input[i] is Some ==> call_ensures(
            f,
            (input[i]->0,),
            output[i]->0,
        )
}

/// Determinism: where `f` can return one result only for each value,
/// applying it to an array can give one result only.
pub proof fn lemma_apply_deterministic<T, F: Fn(T) -> T>(
    input: Seq<Option<T>>,
    f: F,
    x: Seq<Option<T>>,
    y: Seq<Option<T>>,
)
    requires
        forall|v: T, r1: T, r2: T|
            call_ensures(f, (v,), r1) && call_ensures(f, (v,), r2) ==> r1 == r2,
        applied(input, f, x),
        applied(input, f, y),
    ensures
        x == y,
{
    assert forall|i: int| 0 <= i < x.len() implies x[i] == y[i] by {
        if input[i] is Some {
            assert(call_ensures(f, (input[i]->0,), x[i]->0));
            assert(call_ensures(f, (input[i]->0,), y[i]->0));
        }
    }
    assert(x =~= y);
}

/// A fixed-length sequence of slots, each present with a value or absent.
///
/// The array owns two parallel buffers, one of values and one of validity
/// flags, of equal length. What the value buffer holds in an absent slot is
/// never handed out and never passed to a transformation.
pub struct NumericArray<T> {
    values: Vec<T>,
    validity: Vec<bool>,
}

impl<T> View for NumericArray<T> {
    type V = Seq<Option<T>>;

    closed spec fn view(&self) -> Seq<Option<T>> {
        slots(self.values@, self.validity@)
    }
}

impl<T> NumericArray<T> {
    #[verifier::type_invariant]
    spec fn buffers_agree(self) -> bool {
        self.values@.len() == self.validity@.len()
    }
}

impl<T: Copy> NumericArray<T> {
    /// Builds an array from its two buffers, which must have the same length.
    pub fn new(values: Vec<T>, validity: Vec<bool>) -> (out: Result<Self, Error>)
        ensures
            values@.len() == validity@.len() ==> out is Ok && out->Ok_0@ == slots(
                values@,
                validity@,
            ),
            values@.len() != validity@.len() ==> out == Err::<Self, Error>(Error::LengthMismatch),
    {
        if values.len() != validity.len() {
            return Err(Error::LengthMismatch);
        }
        Ok(NumericArray { values, validity })
    }

    /// Builds an array from a sequence of optional values. `fill` is stored
    /// in the value buffer at the absent slots.
    pub fn from_options(items: &Vec<Option<T>>, fill: T) -> (out: Self)
        ensures
            out@ == items@,
    {
        let mut values: Vec<T> = Vec::new();
        let mut validity: Vec<bool> = Vec::new();
        let mut i: usize = 0;
        while i < items.len()
            invariant
                i <= items@.len(),
                values@.len() == i,
                validity@.len() == i,
                slots(values@, validity@) == items@.take(i as int),
            decreases items@.len() - i,
        {
            match items[i] {
                Some(v) => {
                    values.push(v);
                    validity.push(true);
                },
                None => {
                    values.push(fill);
                    validity.push(false);
                },
            }
            i += 1;
            assert(slots(values@, validity@) =~= items@.take(i as int));
        }
        assert(items@.take(i as int) =~= items@);
        NumericArray { values, validity }
    }

    /// The number of slots.
    pub fn len(&self) -> (n: usize)
        ensures
            n == self@.len(),
    {
        self.values.len()
    }

    /// Whether the array has no slot at all.
    pub fn is_empty(&self) -> (b: bool)
        ensures
            b == (self@.len() == 0),
    {
        self.values.len() == 0
    }

    /// Whether slot `i` is present.
    pub fn is_valid(&self, i: usize) -> (b: bool)
        requires
            i < self@.len(),
        ensures
            b == (self@[i as int] is Some),
    {
        proof {
            use_type_invariant(self);
        }
        self.validity[i]
    }

    /// What slot `i` holds.
    pub fn get(&self, i: usize) -> (slot: Option<T>)
        requires
            i < self@.len(),
        ensures
            slot == self@[i as int],
    {
        proof {
            use_type_invariant(self);
        }
        if self.validity[i] {
            Some(self.values[i])
        } else {
            None
        }
    }

    /// The slots in order, as optional values.
    pub fn to_options(&self) -> (items: Vec<Option<T>>)
        ensures
            items@ == self@,
    {
        proof {
            use_type_invariant(self);
        }
        let mut items: Vec<Option<T>> = Vec::new();
        let mut i: usize = 0;
        while i < self.values.len()
            invariant
                self.values@.len() == self.validity@.len(),
                i <= self.values@.len(),
                items@ == self@.take(i as int),
            decreases self.values@.len() - i,
        {
            let slot = if self.validity[i] {
                Some(self.values[i])
            } else {
                None
            };
            items.push(slot);
            i += 1;
            assert(items@ =~= self@.take(i as int));
        }
        assert(self@.take(i as int) =~= self@);
        items
    }

    /// Applies `f` to every present value.
    ///
    /// The result has the length and the presence pattern of `self`. A
    /// present slot holds what `f` returned for the value at that slot; `f`
    /// is not called for an absent slot.
    pub fn apply<F: Fn(T) -> T>(&self, f: F) -> (out: Self)
        requires
            forall|i: int|
                #![trigger self@[i]]
                0 <= i < self@.len() && self@[i] is Some ==> call_requires(f, (self@[i]->0,)),
        ensures
            out@.len() == self@.len(),
            forall|i: int|
                #![trigger out@[i]]
                0 <= i < self@.len() ==> (out@[i] is Some <==> self@[i] is Some),
            applied(self@, f, out@),
    {
        proof {
            use_type_invariant(self);
        }
        let n = self.values.len();
        let mut values: Vec<T> = Vec::new();
        let mut validity: Vec<bool> = Vec::new();
        let mut i: usize = 0;
        while i < n
            invariant
                n == self.values@.len(),
                n == self.validity@.len(),
                i <= n,
                values@.len() == i,
                validity@.len() == i,
                forall|j: int|
                    #![trigger self@[j]]
                    0 <= j < self@.len() && self@[j] is Some ==> call_requires(f, (self@[j]->0,)),
                forall|j: int|
                    #![trigger validity@[j]]
                    0 <= j < i ==> (validity@[j] <==> self@[j] is Some),
                forall|j: int|
                    #![trigger values@[j]]
                    0 <= j < i && self@[j] is Some ==> call_ensures(
                        f,
                        (self@[j]->0,),
                        values@[j],
                    ),
            decreases n - i,
        {
            if self.validity[i] {
                assert(self@[i as int] == Some(self.values@[i as int]));
                let r = f(self.values[i]);
                values.push(r);
                validity.push(true);
            } else {
                values.push(self.values[i]);
                validity.push(false);
            }
            i += 1;
        }
        NumericArray { values, validity }
    }

    /// Applies a transformation that can fail to every present value, in
    /// order, and stops at the first failure.
    ///
    /// On success the result has the length and the presence pattern of
    /// `self`, and a present slot holds what `f` returned for the value at
    /// that slot. The error is the one that `f` returned for the first
    /// present value on which it failed. `f` is not called for an absent
    /// slot.
    pub fn try_apply<E, F: Fn(T) -> Result<T, E>>(&self, f: F) -> (out: Result<Self, E>)
        requires
            forall|i: int|
                #![trigger self@[i]]
                0 <= i < self@.len() && self@[i] is Some ==> call_requires(f, (self@[i]->0,)),
        ensures
            match out {
                Ok(a) => {
                    &&& a@.len() == self@.len()
                    &&& forall|i: int|
                        #![trigger a@[i]]
                        0 <= i < self@.len() ==> (a@[i] is Some <==> self@[i] is Some)
                    &&& forall|i: int|
                        #![trigger a@[i]]
                        0 <= i < self@.len() && self@[i] is Some ==> call_ensures(
                            f,
                            (self@[i]->0,),
                            Ok(a@[i]->0),
                        )
                },
                Err(e) => exists|i: int|
                    #![trigger self@[i]]
                    {
                        &&& 0 <= i < self@.len()
                        &&& self@[i] is Some
                        &&& call_ensures(f, (self@[i]->0,), Err(e))
                        &&& forall|j: int|
                            #![trigger self@[j]]
                            0 <= j < i && self@[j] is Some ==> exists|y: T|
                                call_ensures(f, (self@[j]->0,), Ok(y))
                    },
            },
    {
        proof {
            use_type_invariant(self);
        }
        let n = self.values.len();
        let mut values: Vec<T> = Vec::new();
        let mut validity: Vec<bool> = Vec::new();
        let mut i: usize = 0;
        while i < n
            invariant
                n == self.values@.len(),
                n == self.validity@.len(),
                i <= n,
                values@.len() == i,
                validity@.len() == i,
                forall|j: int|
                    #![trigger self@[j]]
                    0 <= j < self@.len() && self@[j] is Some ==> call_requires(f, (self@[j]->0,)),
                forall|j: int|
                    #![trigger validity@[j]]
                    0 <= j < i ==> (validity@[j] <==> self@[j] is Some),
                forall|j: int|
                    #![trigger values@[j]]
                    0 <= j < i && self@[j] is Some ==> call_ensures(
                        f,
                        (self@[j]->0,),
                        Ok(values@[j]),
                    ),
            decreases n - i,
        {
            if self.validity[i] {
                assert(self@[i as int] == Some(self.values@[i as int]));
                match f(self.values[i]) {
                    Ok(r) => {
                        values.push(r);
                        validity.push(true);
                    },
                    Err(e) => {
                        assert forall|j: int|
                            #![trigger self@[j]]
                            0 <= j < i && self@[j] is Some implies exists|y: T|
                            call_ensures(f, (self@[j]->0,), Ok(y)) by {
                            assert(call_ensures(f, (self@[j]->0,), Ok(values@[j])));
                        }
                        return Err(e);
                    },
                }
            } else {
                values.push(self.values[i]);
                validity.push(false);
            }
            i += 1;
        }
        Ok(NumericArray { values, validity })
    }
}

} // verus!
