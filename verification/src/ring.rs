//! The algebra that flows through a circuit.

use vstd::prelude::*;
use vstd::std_specs::ops::AddSpec;
use vstd::std_specs::ops::MulSpec;

use crate::circuit::GateType;

verus! {

/// What a value must offer to flow through a circuit: it can be copied and
/// compared, and two values can be added and multiplied.
pub trait Ring:
    'static
    + Sized
    + Eq
    + Copy
    + Clone
    + Send
    + Sync
    + core::fmt::Debug
    + core::ops::Add<Output = Self>
    + core::ops::Mul<Output = Self>
    + for<'a> core::ops::Add<&'a Self, Output = Self>
    + for<'a> core::ops::Mul<&'a Self, Output = Self>
{
}

/// The type is closed under addition and multiplication: both are defined
/// on every pair of values.
pub open spec fn closed<T: Ring>() -> bool {
    &&& forall|a: T, b: T| #[trigger] a.add_req(b)
    &&& forall|a: T, b: T| #[trigger] a.mul_req(b)
}

/// The type's `+` and `*` compute what its specification says.
pub open spec fn lawful<T: Ring>() -> bool {
    <T as AddSpec<T>>::obeys_add_spec() && <T as MulSpec<T>>::obeys_mul_spec()
}

/// What a gate of the given kind makes of two values.
pub open spec fn combine<T: Ring>(kind: GateType, a: T, b: T) -> T {
    match kind {
        GateType::Add => a.add_spec(b),
        GateType::Mul => a.mul_spec(b),
    }
}

} // verus!
