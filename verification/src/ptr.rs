use vstd::prelude::*;

verus! {

/// The index value that stands for "no node".
pub open spec fn nil() -> usize {
    usize::MAX
}

/// A pointer-like value with a distinguished null value.
pub trait NullablePtr: Copy + Sized {
    /// The value that stands for the null pointer.
    spec fn null_value() -> Self;

    fn nullptr() -> (r: Self)
        ensures
            r == Self::null_value(),
    ;

    fn null(&self) -> (b: bool)
        ensures
            b == (*self == Self::null_value()),
    ;

    fn to_option(&self) -> (r: Option<Self>)
        ensures
            r == (if *self == Self::null_value() { None } else { Some(*self) }),
    ;
}

impl NullablePtr for usize {
    open spec fn null_value() -> usize {
        nil()
    }

    fn nullptr() -> (r: usize) {
        usize::MAX
    }

    fn null(&self) -> (b: bool) {
        *self == usize::MAX
    }

    fn to_option(&self) -> (r: Option<usize>) {
        if !self.null() {
            Some(*self)
        } else {
            None
        }
    }
}

} // verus!
