//! A vector with a fixed number of components.
use std::ops::{Add, Div, Index, Mul, Sub};
use vstd::prelude::*;
use vstd::std_specs::ops::{AddSpec, DivSpec, MulSpec, SubSpec};

verus! {

/// What a component of a vector has to offer: it is copied freely, has a
/// default value, and can be compared, added, subtracted, multiplied and
/// divided.
pub trait Number: Copy + Default + PartialEq + Add<Output = Self> + Sub<Output = Self> + Mul<
    Output = Self,
> + Div<Output = Self> {

}

impl<T> Number for T where
    T: Copy + Default + PartialEq + Add<Output = Self> + Sub<Output = Self> + Mul<Output = Self> + Div<
        Output = Self,
    >,
 {

}

/// Simple N-dimensional vector.
///
/// For the operators `+ - * /`, between two vectors and between a vector and
/// a scalar, the contract of the operator's own method says what each
/// component of the result is; the `*_spec` functions of the operator traits
/// are left unspecified.
#[derive(Debug, Copy, Clone, PartialEq)]
pub struct VecN<const DIMS: usize, T: Number>(pub [T; DIMS]);

impl<const DIMS: usize, T: Number> VecN<DIMS, T> {
    /// Combines the two vectors component by component with `merger`.
    pub fn merge<M>(self, rhs: Self, merger: M) -> (out: Self) where M: Fn(T, T) -> T
        requires
            forall|i: int| 0 <= i < DIMS ==> call_requires(merger, (self.0[i], rhs.0[i])),
        ensures
            forall|i: int|
                0 <= i < DIMS ==> call_ensures(merger, (self.0[i], rhs.0[i]), #[trigger] out.0[i]),
    {
        let mut out = self;
        let mut i: usize = 0;
        while i < DIMS
            invariant
                i <= DIMS,
                forall|j: int| 0 <= j < DIMS ==> call_requires(merger, (self.0[j], rhs.0[j])),
                forall|j: int|
                    0 <= j < i ==> call_ensures(merger, (self.0[j], rhs.0[j]), #[trigger] out.0[j]),
            decreases DIMS - i,
        {
            out.0[i] = merger(self.0[i], rhs.0[i]);
            i += 1;
        }
        out
    }

    /// Applies `f` to every component.
    pub fn map<F>(self, f: F) -> (out: Self) where F: Fn(T) -> T
        requires
            forall|i: int| 0 <= i < DIMS ==> call_requires(f, (self.0[i],)),
        ensures
            forall|i: int| 0 <= i < DIMS ==> call_ensures(f, (self.0[i],), #[trigger] out.0[i]),
    {
        let mut out = self;
        let mut i: usize = 0;
        while i < DIMS
            invariant
                i <= DIMS,
                forall|j: int| 0 <= j < DIMS ==> call_requires(f, (self.0[j],)),
                forall|j: int| 0 <= j < i ==> call_ensures(f, (self.0[j],), #[trigger] out.0[j]),
            decreases DIMS - i,
        {
            out.0[i] = f(self.0[i]);
            i += 1;
        }
        out
    }
}

impl<const DIMS: usize, T: Number> vstd::std_specs::core::IndexSpecImpl<usize> for VecN<DIMS, T> {
    open spec fn index_req(&self, index: &usize) -> bool {
        *index < DIMS
    }
}

impl<const DIMS: usize, T: Number> Index<usize> for VecN<DIMS, T> {
    type Output = T;

    /// The component on the axis `index`.
    fn index(&self, index: usize) -> (output: &T)
        ensures
            *output == self.0[index as int],
    {
        &self.0[index]
    }
}

impl<const DIMS: usize, T: Number> vstd::std_specs::ops::AddSpecImpl for VecN<DIMS, T> {
    open spec fn obeys_add_spec() -> bool {
        false
    }

    open spec fn add_req(self, rhs: Self) -> bool {
        forall|i: int| 0 <= i < DIMS ==> (#[trigger] self.0[i]).add_req(rhs.0[i])
    }

    open spec fn add_spec(self, rhs: Self) -> Self {
        arbitrary()
    }
}

impl<const DIMS: usize, T: Number> Add for VecN<DIMS, T> {
    type Output = Self;

    /// The sum of the two vectors, component by component.
    fn add(self, rhs: Self) -> (out: Self)
        ensures
            T::obeys_add_spec() ==> forall|i: int|
                0 <= i < DIMS ==> #[trigger] out.0[i] == self.0[i].add_spec(rhs.0[i]),
    {
        let plus = |a: T, b: T| -> (r: T)
            requires
                a.add_req(b),
            ensures
                T::obeys_add_spec() ==> r == a.add_spec(b),
            {
                a + b
            };
        self.merge(rhs, plus)
    }
}

impl<const DIMS: usize, T: Number> vstd::std_specs::ops::AddSpecImpl<T> for VecN<DIMS, T> {
    open spec fn obeys_add_spec() -> bool {
        false
    }

    open spec fn add_req(self, rhs: T) -> bool {
        forall|i: int| 0 <= i < DIMS ==> (#[trigger] self.0[i]).add_req(rhs)
    }

    open spec fn add_spec(self, rhs: T) -> Self {
        arbitrary()
    }
}

impl<const DIMS: usize, T: Number> Add<T> for VecN<DIMS, T> {
    type Output = Self;

    /// The sum of every component and the scalar `rhs`.
    fn add(self, rhs: T) -> (out: Self)
        ensures
            T::obeys_add_spec() ==> forall|i: int|
                0 <= i < DIMS ==> #[trigger] out.0[i] == self.0[i].add_spec(rhs),
    {
        let plus = |a: T| -> (r: T)
            requires
                a.add_req(rhs),
            ensures
                T::obeys_add_spec() ==> r == a.add_spec(rhs),
            {
                a + rhs
            };
        self.map(plus)
    }
}

impl<const DIMS: usize, T: Number> vstd::std_specs::ops::SubSpecImpl for VecN<DIMS, T> {
    open spec fn obeys_sub_spec() -> bool {
        false
    }

    open spec fn sub_req(self, rhs: Self) -> bool {
        forall|i: int| 0 <= i < DIMS ==> (#[trigger] self.0[i]).sub_req(rhs.0[i])
    }

    open spec fn sub_spec(self, rhs: Self) -> Self {
        arbitrary()
    }
}

impl<const DIMS: usize, T: Number> Sub for VecN<DIMS, T> {
    type Output = Self;

    /// The difference of the two vectors, component by component.
    fn sub(self, rhs: Self) -> (out: Self)
        ensures
            T::obeys_sub_spec() ==> forall|i: int|
                0 <= i < DIMS ==> #[trigger] out.0[i] == self.0[i].sub_spec(rhs.0[i]),
    {
        let minus = |a: T, b: T| -> (r: T)
            requires
                a.sub_req(b),
            ensures
                T::obeys_sub_spec() ==> r == a.sub_spec(b),
            {
                a - b
            };
        self.merge(rhs, minus)
    }
}

impl<const DIMS: usize, T: Number> vstd::std_specs::ops::SubSpecImpl<T> for VecN<DIMS, T> {
    open spec fn obeys_sub_spec() -> bool {
        false
    }

    open spec fn sub_req(self, rhs: T) -> bool {
        forall|i: int| 0 <= i < DIMS ==> (#[trigger] self.0[i]).sub_req(rhs)
    }

    open spec fn sub_spec(self, rhs: T) -> Self {
        arbitrary()
    }
}

impl<const DIMS: usize, T: Number> Sub<T> for VecN<DIMS, T> {
    type Output = Self;

    /// The difference of every component and the scalar `rhs`.
    fn sub(self, rhs: T) -> (out: Self)
        ensures
            T::obeys_sub_spec() ==> forall|i: int|
                0 <= i < DIMS ==> #[trigger] out.0[i] == self.0[i].sub_spec(rhs),
    {
        let minus = |a: T| -> (r: T)
            requires
                a.sub_req(rhs),
            ensures
                T::obeys_sub_spec() ==> r == a.sub_spec(rhs),
            {
                a - rhs
            };
        self.map(minus)
    }
}

impl<const DIMS: usize, T: Number> vstd::std_specs::ops::DivSpecImpl for VecN<DIMS, T> {
    open spec fn obeys_div_spec() -> bool {
        false
    }

    open spec fn div_req(self, rhs: Self) -> bool {
        forall|i: int| 0 <= i < DIMS ==> (#[trigger] self.0[i]).div_req(rhs.0[i])
    }

    open spec fn div_spec(self, rhs: Self) -> Self {
        arbitrary()
    }
}

impl<const DIMS: usize, T: Number> Div for VecN<DIMS, T> {
    type Output = Self;

    /// The quotient of the two vectors, component by component.
    fn div(self, rhs: Self) -> (out: Self)
        ensures
            T::obeys_div_spec() ==> forall|i: int|
                0 <= i < DIMS ==> #[trigger] out.0[i] == self.0[i].div_spec(rhs.0[i]),
    {
        let over = |a: T, b: T| -> (r: T)
            requires
                a.div_req(b),
            ensures
                T::obeys_div_spec() ==> r == a.div_spec(b),
            {
                a / b
            };
        self.merge(rhs, over)
    }
}

impl<const DIMS: usize, T: Number> vstd::std_specs::ops::DivSpecImpl<T> for VecN<DIMS, T> {
    open spec fn obeys_div_spec() -> bool {
        false
    }

    open spec fn div_req(self, rhs: T) -> bool {
        forall|i: int| 0 <= i < DIMS ==> (#[trigger] self.0[i]).div_req(rhs)
    }

    open spec fn div_spec(self, rhs: T) -> Self {
        arbitrary()
    }
}

impl<const DIMS: usize, T: Number> Div<T> for VecN<DIMS, T> {
    type Output = Self;

    /// The quotient of every component and the scalar `rhs`.
    fn div(self, rhs: T) -> (out: Self)
        ensures
            T::obeys_div_spec() ==> forall|i: int|
                0 <= i < DIMS ==> #[trigger] out.0[i] == self.0[i].div_spec(rhs),
    {
        let over = |a: T| -> (r: T)
            requires
                a.div_req(rhs),
            ensures
                T::obeys_div_spec() ==> r == a.div_spec(rhs),
            {
                a / rhs
            };
        self.map(over)
    }
}

impl<const DIMS: usize, T: Number> vstd::std_specs::ops::MulSpecImpl for VecN<DIMS, T> {
    open spec fn obeys_mul_spec() -> bool {
        false
    }

    open spec fn mul_req(self, rhs: Self) -> bool {
        forall|i: int| 0 <= i < DIMS ==> (#[trigger] self.0[i]).mul_req(rhs.0[i])
    }

    open spec fn mul_spec(self, rhs: Self) -> Self {
        arbitrary()
    }
}

impl<const DIMS: usize, T: Number> Mul for VecN<DIMS, T> {
    type Output = Self;

    /// The product of the two vectors, component by component.
    fn mul(self, rhs: Self) -> (out: Self)
        ensures
            T::obeys_mul_spec() ==> forall|i: int|
                0 <= i < DIMS ==> #[trigger] out.0[i] == self.0[i].mul_spec(rhs.0[i]),
    {
        let times = |a: T, b: T| -> (r: T)
            requires
                a.mul_req(b),
            ensures
                T::obeys_mul_spec() ==> r == a.mul_spec(b),
            {
                a * b
            };
        self.merge(rhs, times)
    }
}

impl<const DIMS: usize, T: Number> vstd::std_specs::ops::MulSpecImpl<T> for VecN<DIMS, T> {
    open spec fn obeys_mul_spec() -> bool {
        false
    }

    open spec fn mul_req(self, rhs: T) -> bool {
        forall|i: int| 0 <= i < DIMS ==> (#[trigger] self.0[i]).mul_req(rhs)
    }

    open spec fn mul_spec(self, rhs: T) -> Self {
        arbitrary()
    }
}

impl<const DIMS: usize, T: Number> Mul<T> for VecN<DIMS, T> {
    type Output = Self;

    /// The product of every component and the scalar `rhs`.
    fn mul(self, rhs: T) -> (out: Self)
        ensures
            T::obeys_mul_spec() ==> forall|i: int|
                0 <= i < DIMS ==> #[trigger] out.0[i] == self.0[i].mul_spec(rhs),
    {
        let times = |a: T| -> (r: T)
            requires
                a.mul_req(rhs),
            ensures
                T::obeys_mul_spec() ==> r == a.mul_spec(rhs),
            {
                a * rhs
            };
        self.map(times)
    }
}

impl<const DIMS: usize> VecN<DIMS, i32> {
    /// The vector as a sequence of mathematical integers, one per axis.
    pub open spec fn coords(self) -> Seq<int> {
        Seq::new(DIMS as nat, |i: int| self.0[i] as int)
    }
}

/// The positions of a list of points, each as a sequence of integers.
pub open spec fn coords_of<const DIMS: usize>(points: Seq<VecN<DIMS, i32>>) -> Seq<Seq<int>> {
    Seq::new(points.len(), |i: int| points[i].coords())
}

} // verus!
