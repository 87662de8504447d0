//! Capability accessors: typed requests for shared or exclusive use of one
//! resource of the store, and the errors a request can raise.

use vstd::prelude::*;

verus! {

/// Identity of one resource type.
///
/// The store keeps at most one value per key, so a key names a singleton.
/// The host assigns each resource type of the application its own id;
/// distinct ids stand for distinct types.
#[derive(Clone, Copy, PartialEq, Eq, Structural, Debug, Hash)]
pub struct TypeKey {
    pub id: u64,
}

impl TypeKey {
    pub fn new(id: u64) -> (k: TypeKey)
        ensures
            k.id == id,
    {
        TypeKey { id }
    }
}

/// How a handler parameter touches its resource: read beside other
/// readers, or write to the exclusion of every other request.
#[derive(Clone, Copy, PartialEq, Eq, Structural, Debug)]
pub enum Access {
    Shared,
    Exclusive,
}

/// One capability request: which resource, and with which access.
#[derive(Clone, Copy, PartialEq, Eq, Structural, Debug)]
pub struct Request {
    pub key: TypeKey,
    pub access: Access,
}

/// Why resolving a request failed.  Both kinds are fatal for the current
/// resolution: the handler body never runs.  Running a label without
/// handlers is not an error at all.
#[derive(Clone, Copy, PartialEq, Eq, Structural, Debug)]
pub enum AccessError {
    /// The requested key was never added to the store.
    MissingResource(TypeKey),
    /// The request conflicts with an earlier request for the same key.
    BorrowConflict(TypeKey),
}

/// A shared read request for the resource under `key`.
#[derive(Clone, Copy, PartialEq, Eq, Structural, Debug)]
pub struct Res {
    pub key: TypeKey,
}

impl Res {
    pub fn new(key: TypeKey) -> (r: Res)
        ensures
            r.key == key,
    {
        Res { key }
    }
}

/// An exclusive read-write request for the resource under `key`.
#[derive(Clone, Copy, PartialEq, Eq, Structural, Debug)]
pub struct ResMut {
    pub key: TypeKey,
}

impl ResMut {
    pub fn new(key: TypeKey) -> (r: ResMut)
        ensures
            r.key == key,
    {
        ResMut { key }
    }
}

/// A valid handler parameter: something that resolves to one request.
pub trait HandlerParam {
    /// The request this parameter stands for.
    spec fn request_spec(&self) -> Request;

    /// Turns the parameter into its request.
    fn request(&self) -> (r: Request)
        ensures
            r == self.request_spec(),
    ;
}

impl HandlerParam for Res {
    open spec fn request_spec(&self) -> Request {
        Request { key: self.key, access: Access::Shared }
    }

    fn request(&self) -> (r: Request) {
        Request { key: self.key, access: Access::Shared }
    }
}

impl HandlerParam for ResMut {
    open spec fn request_spec(&self) -> Request {
        Request { key: self.key, access: Access::Exclusive }
    }

    fn request(&self) -> (r: Request) {
        Request { key: self.key, access: Access::Exclusive }
    }
}

} // verus!
