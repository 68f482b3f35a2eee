//! Plain-value model of the objects that are posted to a port of the host
//! runtime.

use vstd::prelude::*;
use vstd::std_specs::convert::FromSpecImpl;

verus! {

/// Identifier of a port of the host runtime.
#[derive(Clone, Copy, Debug, PartialEq, Eq, Structural)]
pub struct DartPort(pub i64);

/// A send port, as it travels inside a posted object.
#[derive(Clone, Copy, Debug, PartialEq, Eq, Structural)]
pub struct RawDartCObjectSendPort {
    pub id: DartPort,
    pub origin_id: DartPort,
}

/// A capability, as it travels inside a posted object.
#[derive(Clone, Copy, Debug, PartialEq, Eq, Structural)]
pub struct RawDartCObjectCapability {
    pub id: i64,
}

/// One scalar slot of a posted array.
#[derive(Clone, Copy, Debug, PartialEq, Eq, Structural)]
pub enum RawDartCObject {
    Bool(bool),
    Int32(i32),
    Int64(i64),
    SendPort(RawDartCObjectSendPort),
    Capability(RawDartCObjectCapability),
}

impl From<bool> for RawDartCObject {
    fn from(value: bool) -> (object: Self) {
        RawDartCObject::Bool(value)
    }
}

impl FromSpecImpl<bool> for RawDartCObject {
    open spec fn obeys_from_spec() -> bool {
        true
    }

    open spec fn from_spec(value: bool) -> Self {
        RawDartCObject::Bool(value)
    }
}

impl From<i64> for RawDartCObject {
    fn from(value: i64) -> (object: Self) {
        RawDartCObject::Int64(value)
    }
}

impl FromSpecImpl<i64> for RawDartCObject {
    open spec fn obeys_from_spec() -> bool {
        true
    }

    open spec fn from_spec(value: i64) -> Self {
        RawDartCObject::Int64(value)
    }
}

} // verus!
