use vstd::prelude::*;

verus! {

/// Keys that a store can hand out in sequence, starting at one.
pub trait AutoInc: Sized {
    /// The key as a number.
    spec fn as_nat(&self) -> nat;

    /// The greatest key of the type, as a number.
    spec fn limit() -> nat;

    /// The key after this one.
    fn next(&self) -> (r: Self)
        requires
            self.as_nat() < Self::limit(),
        ensures
            r.as_nat() == self.as_nat() + 1,
    ;

    /// The first key of the sequence.
    fn first() -> (r: Self)
        ensures
            r.as_nat() == 1,
    ;
}

impl AutoInc for u8 {
    open spec fn as_nat(&self) -> nat {
        *self as nat
    }

    open spec fn limit() -> nat {
        u8::MAX as nat
    }

    fn next(&self) -> (r: Self) {
        *self + 1
    }

    fn first() -> (r: Self) {
        1
    }
}

impl AutoInc for u16 {
    open spec fn as_nat(&self) -> nat {
        *self as nat
    }

    open spec fn limit() -> nat {
        u16::MAX as nat
    }

    fn next(&self) -> (r: Self) {
        *self + 1
    }

    fn first() -> (r: Self) {
        1
    }
}

impl AutoInc for u32 {
    open spec fn as_nat(&self) -> nat {
        *self as nat
    }

    open spec fn limit() -> nat {
        u32::MAX as nat
    }

    fn next(&self) -> (r: Self) {
        *self + 1
    }

    fn first() -> (r: Self) {
        1
    }
}

impl AutoInc for u64 {
    open spec fn as_nat(&self) -> nat {
        *self as nat
    }

    open spec fn limit() -> nat {
        u64::MAX as nat
    }

    fn next(&self) -> (r: Self) {
        *self + 1
    }

    fn first() -> (r: Self) {
        1
    }
}

impl AutoInc for u128 {
    open spec fn as_nat(&self) -> nat {
        *self as nat
    }

    open spec fn limit() -> nat {
        u128::MAX as nat
    }

    fn next(&self) -> (r: Self) {
        *self + 1
    }

    fn first() -> (r: Self) {
        1
    }
}

impl AutoInc for usize {
    open spec fn as_nat(&self) -> nat {
        *self as nat
    }

    open spec fn limit() -> nat {
        usize::MAX as nat
    }

    fn next(&self) -> (r: Self) {
        *self + 1
    }

    fn first() -> (r: Self) {
        1
    }
}

} // verus!
