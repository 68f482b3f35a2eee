//! Completion messages: what the pool tells a caller once its request has
//! been granted, and how that is laid out as an array for the host's port.

use vstd::prelude::*;
use crate::connection::Connection;
use crate::dart::{DartPort, RawDartCObject};

verus! {

/// Where a completion goes and how the caller recognises it: the caller's
/// own tag, echoed back, and the port that receives the message.
#[derive(Clone, Copy, Debug, PartialEq, Eq, Structural)]
pub struct PendingMessage {
    pub tag: i64,
    pub port: DartPort,
}

/// The integer under which a connection handle travels in a message: the
/// handle's bits, read as a signed 64-bit number.
pub open spec fn connection_pointer(connection: Connection) -> i64 {
    connection.0 as i64
}

/// The array posted for a granted read or write request.
pub open spec fn connection_acquired(tag: i64, connection: Connection) -> Seq<RawDartCObject> {
    seq![
        RawDartCObject::Int64(tag),
        RawDartCObject::Bool(false),
        RawDartCObject::Int64(connection_pointer(connection)),
    ]
}

/// The array posted for a granted exclusive request.
pub open spec fn exclusive_acquired(tag: i64) -> Seq<RawDartCObject> {
    seq![RawDartCObject::Int64(tag), RawDartCObject::Bool(true)]
}

impl PendingMessage {
    /// Encodes "all connections acquired": the tag, then `true`.
    pub fn did_obtain_exclusive(&self) -> (values: Vec<RawDartCObject>)
        ensures
            values@ == exclusive_acquired(self.tag),
    {
        let mut values: Vec<RawDartCObject> = Vec::new();
        values.push(RawDartCObject::from(self.tag));
        values.push(RawDartCObject::from(true));
        values
    }

    /// Encodes "connection acquired": the tag, `false`, then the connection.
    pub fn did_obtain_connection(&self, connection: Connection) -> (values: Vec<RawDartCObject>)
        ensures
            values@ == connection_acquired(self.tag, connection),
    {
        let pointer: i64 = #[verifier::truncate] (connection.0 as i64);
        let mut values: Vec<RawDartCObject> = Vec::new();
        values.push(RawDartCObject::from(self.tag));
        values.push(RawDartCObject::from(false));
        values.push(RawDartCObject::from(pointer));
        values
    }
}

/// One completion that the scheduler has decided on: the waiter that was
/// granted its request, where to report it, and the connection it got
/// (`None` for an exclusive request, which gets them all).
#[derive(Clone, Copy, Debug, PartialEq, Eq, Structural)]
pub struct Completion {
    pub node: usize,
    pub message: PendingMessage,
    pub connection: Option<Connection>,
}

impl Completion {
    /// The array that reports this completion.
    pub open spec fn payload(self) -> Seq<RawDartCObject> {
        match self.connection {
            Some(connection) => connection_acquired(self.message.tag, connection),
            None => exclusive_acquired(self.message.tag),
        }
    }

    /// Builds the array to post to `self.message.port`.
    pub fn encode(&self) -> (values: Vec<RawDartCObject>)
        ensures
            values@ == self.payload(),
    {
        match self.connection {
            Some(connection) => self.message.did_obtain_connection(connection),
            None => self.message.did_obtain_exclusive(),
        }
    }
}

} // verus!
