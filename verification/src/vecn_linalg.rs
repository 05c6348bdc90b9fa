//! Products of vectors.
use crate::vecn::{Number, VecN};
use vstd::prelude::*;
use vstd::std_specs::ops::{AddSpec, MulSpec};

verus! {

/// The sum of the products of the first `dims` components of `a` and `b`,
/// added up from the first axis on; `dims` is at least one.
pub open spec fn dot_upto<T: Number>(a: Seq<T>, b: Seq<T>, dims: nat) -> T
    decreases dims,
{
    if dims <= 1 {
        a[0].mul_spec(b[0])
    } else {
        dot_upto(a, b, (dims - 1) as nat).add_spec(a[dims - 1].mul_spec(b[dims - 1]))
    }
}

/// True if the component type computes what its operators specify and no
/// product or partial sum of the dot product of `a` and `b` leaves its range.
pub open spec fn dot_defined<T: Number>(a: Seq<T>, b: Seq<T>, dims: nat) -> bool {
    &&& T::obeys_add_spec()
    &&& T::obeys_mul_spec()
    &&& forall|i: int| 0 <= i < dims ==> (#[trigger] a[i]).mul_req(b[i])
    &&& forall|i: nat|
        1 <= i < dims ==> (#[trigger] dot_upto(a, b, i)).add_req(
            a[i as int].mul_spec(b[i as int]),
        )
}

impl<const DIMS: usize, T: Number> VecN<DIMS, T> {
    /// The dot product of the two vectors. A vector without components has
    /// the default value of the component type as its product.
    pub fn dot(self, rhs: Self) -> (out: T)
        requires
            dot_defined(self.0@, rhs.0@, DIMS as nat),
        ensures
            DIMS > 0 ==> out == dot_upto(self.0@, rhs.0@, DIMS as nat),
    {
        if DIMS == 0 {
            return T::default();
        }
        let mut sum = self.0[0] * rhs.0[0];
        let mut i: usize = 1;
        while i < DIMS
            invariant
                1 <= i <= DIMS,
                dot_defined(self.0@, rhs.0@, DIMS as nat),
                sum == dot_upto(self.0@, rhs.0@, i as nat),
            decreases DIMS - i,
        {
            assert(dot_upto(self.0@, rhs.0@, i as nat).add_req(
                self.0@[i as int].mul_spec(rhs.0@[i as int]),
            ));
            sum = sum + self.0[i] * rhs.0[i];
            i += 1;
        }
        sum
    }

    /// The square of the vector's length.
    pub fn length_squared(self) -> (out: T)
        requires
            dot_defined(self.0@, self.0@, DIMS as nat),
        ensures
            DIMS > 0 ==> out == dot_upto(self.0@, self.0@, DIMS as nat),
    {
        self.dot(self)
    }
}

} // verus!
