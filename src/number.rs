use vstd::prelude::*;

verus! {

/// The numeric capability the machine computes with.
///
/// Each operation is partial: it yields `None` where the value type cannot
/// represent the result (overflow, division by zero). The spec functions
/// name what each exec method returns, so contracts of the machine can be
/// stated for any implementation.
pub trait Number: Sized + Copy {
    spec fn of_i32(v: i32) -> Self;

    spec fn plus(self, o: Self) -> Option<Self>;

    spec fn minus(self, o: Self) -> Option<Self>;

    spec fn times(self, o: Self) -> Option<Self>;

    spec fn quotient(self, o: Self) -> Option<Self>;

    spec fn same_as(self, o: Self) -> bool;

    spec fn less_than(self, o: Self) -> bool;

    spec fn greater_than(self, o: Self) -> bool;

    fn from_i32(v: i32) -> (r: Self)
        ensures
            r == Self::of_i32(v),
    ;

    fn num_add(self, o: Self) -> (r: Option<Self>)
        ensures
            r == self.plus(o),
    ;

    fn num_sub(self, o: Self) -> (r: Option<Self>)
        ensures
            r == self.minus(o),
    ;

    fn num_mul(self, o: Self) -> (r: Option<Self>)
        ensures
            r == self.times(o),
    ;

    fn num_div(self, o: Self) -> (r: Option<Self>)
        ensures
            r == self.quotient(o),
    ;

    fn num_eq(self, o: Self) -> (r: bool)
        ensures
            r == self.same_as(o),
    ;

    fn num_lt(self, o: Self) -> (r: bool)
        ensures
            r == self.less_than(o),
    ;

    fn num_gt(self, o: Self) -> (r: bool)
        ensures
            r == self.greater_than(o),
    ;
}

/// Whether `v` counts as false: equal to the value built from `0`.
pub open spec fn is_zero<T: Number>(v: T) -> bool {
    v.same_as(T::of_i32(0))
}

/// The value a comparison leaves behind: `1` for true, `0` for false.
pub open spec fn truth<T: Number>(b: bool) -> T {
    if b {
        T::of_i32(1)
    } else {
        T::of_i32(0)
    }
}

impl Number for i32 {
    open spec fn of_i32(v: i32) -> i32 {
        v
    }

    open spec fn plus(self, o: i32) -> Option<i32> {
        self.checked_add(o)
    }

    open spec fn minus(self, o: i32) -> Option<i32> {
        self.checked_sub(o)
    }

    open spec fn times(self, o: i32) -> Option<i32> {
        self.checked_mul(o)
    }

    open spec fn quotient(self, o: i32) -> Option<i32> {
        self.checked_div(o)
    }

    open spec fn same_as(self, o: i32) -> bool {
        self == o
    }

    open spec fn less_than(self, o: i32) -> bool {
        self < o
    }

    open spec fn greater_than(self, o: i32) -> bool {
        self > o
    }

    fn from_i32(v: i32) -> (r: i32) {
        v
    }

    fn num_add(self, o: i32) -> (r: Option<i32>) {
        self.checked_add(o)
    }

    fn num_sub(self, o: i32) -> (r: Option<i32>) {
        self.checked_sub(o)
    }

    fn num_mul(self, o: i32) -> (r: Option<i32>) {
        self.checked_mul(o)
    }

    fn num_div(self, o: i32) -> (r: Option<i32>) {
        self.checked_div(o)
    }

    fn num_eq(self, o: i32) -> (r: bool) {
        self == o
    }

    fn num_lt(self, o: i32) -> (r: bool) {
        self < o
    }

    fn num_gt(self, o: i32) -> (r: bool) {
        self > o
    }
}

} // verus!
