//! What the thread that keeps the one connection decides.
//!
//! Opening a connection is the expensive part of leasing a schema, and a
//! connection is tied to the runtime that drives it, so it lives on a thread
//! of its own that outlives every test's. Requests reach it as values.

use vstd::prelude::*;

use crate::error::{error_text, Error};
use crate::lease::Lease;
use crate::url::pointed_at;

verus! {

/// What is asked of the thread.
pub enum Request {
    /// A schema: of the snapshot that is named, or of the current one.
    Lease { fingerprint: Option<String>, burn: bool },
    /// To take a schema back.
    GiveBack { schema: String, burn: bool },
}

/// A schema that was taken, and the url of the database it is in.
pub struct Taken {
    pub schema: String,
    pub url: String,
}

/// Asks for a schema with the tables already in it, emptied and passed on
/// afterwards.
pub fn lease() -> (r: Request)
    ensures
        r == (Request::Lease { fingerprint: None, burn: false }),
{
    Request::Lease { fingerprint: None, burn: false }
}

/// The same, from a snapshot named rather than looked up.
///
/// For a suite that keeps more than one shape of database. Only one of them
/// can be what `lease` gives, and a test handed the wrong one fails a long
/// way from the reason.
pub fn lease_from(fingerprint: String) -> (r: Request)
    ensures
        r == (Request::Lease { fingerprint: Some(fingerprint), burn: false }),
{
    Request::Lease { fingerprint: Some(fingerprint), burn: false }
}

/// Asks for a schema of this test's own, out of a named snapshot, thrown away
/// after.
pub fn lease_fresh_from(fingerprint: String) -> (r: Request)
    ensures
        r == (Request::Lease { fingerprint: Some(fingerprint), burn: true }),
{
    Request::Lease { fingerprint: Some(fingerprint), burn: true }
}

/// Asks for a schema of this test's own, thrown away afterwards.
///
/// For a test that changes the shape of what it is given rather than only its
/// rows: the tests of a migration, above all.
pub fn lease_fresh() -> (r: Request)
    ensures
        r == (Request::Lease { fingerprint: None, burn: true }),
{
    Request::Lease { fingerprint: None, burn: true }
}

/// What the pool is to do for a request.
pub enum Serving {
    /// Claim a schema of the current snapshot.
    Claim { burn: bool },
    /// Claim a schema of this snapshot.
    ClaimFrom { fingerprint: String, burn: bool },
    /// Take a schema back.
    GiveBack { schema: String, burn: bool },
}

/// What the pool is to do for a request. A snapshot that was named is carried
/// through, rather than whatever is current handed out.
pub fn serve(request: Request) -> (r: Serving)
    ensures
        r == (match request {
            Request::Lease { fingerprint: Some(fingerprint), burn } => Serving::ClaimFrom {
                fingerprint,
                burn,
            },
            Request::Lease { fingerprint: None, burn } => Serving::Claim { burn },
            Request::GiveBack { schema, burn } => Serving::GiveBack { schema, burn },
        }),
{
    match request {
        Request::Lease { fingerprint: Some(fingerprint), burn } => Serving::ClaimFrom { fingerprint, burn },
        Request::Lease { fingerprint: None, burn } => Serving::Claim { burn },
        Request::GiveBack { schema, burn } => Serving::GiveBack { schema, burn },
    }
}

/// What a request for a schema is answered, once the pool has claimed one or
/// failed to.
pub fn taken(claimed: Result<String, Error>, url: String) -> (r: Result<Taken, Error>)
    ensures
        r == (match claimed {
            Ok(schema) => Ok(Taken { schema, url }),
            Err(why) => Err(why),
        }),
{
    match claimed {
        Ok(schema) => Ok(Taken { schema, url }),
        Err(why) => Err(why),
    }
}

/// What a request is answered when there is nothing to serve it with. A test
/// wants to fail saying the database refused, not time out saying nothing; a
/// schema that cannot be taken back is let go.
pub fn refuse(request: Request, why: &Error) -> (r: Option<Error>)
    ensures
        match request {
            Request::Lease { .. } => r matches Some(Error::Unreachable(text)) && text@ == error_text(*why),
            Request::GiveBack { .. } => r is None,
        },
{
    match request {
        Request::Lease { .. } => Some(Error::Unreachable(why.to_string())),
        Request::GiveBack { .. } => None,
    }
}

/// The lease of a schema that was taken.
pub fn leased(taken: Taken, burn: bool) -> (r: Lease)
    ensures
        r.reached_on() == pointed_at(taken.url@, taken.schema@),
        r.leased() == taken.schema@,
        r.is_fresh() == burn,
{
    Lease::new(taken.url, taken.schema, burn)
}

} // verus!
