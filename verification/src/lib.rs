//! A test asks for a database and is given one that already exists.
//!
//! The usual arrangement builds one per test: create a schema, run every
//! migration into it, drop it afterwards. That is a build step, and putting a
//! build step inside a test means running it once per test.
//!
//! So this does neither. The migrations run once, into a snapshot addressed
//! by the hash of the files that produced it. A warm pool of schemas is built
//! from that snapshot ahead of the run. A test leases one, and gives it back
//! emptied rather than dropped, so the catalogue never grows.
//!
//! The pool lives in the database rather than in a process. What is in this
//! library is everything about it that can be decided without the database at
//! hand: each decision takes what was said last and returns what is to be
//! said or done next. The program around it does the talking.

pub mod agent;
pub mod books;
pub mod capture;
pub mod cli;
pub mod error;
pub mod holder;
pub mod lease;
pub mod name;
pub mod number;
pub mod outside;
pub mod path;
pub mod place;
pub mod pool;
pub mod snapshot;
pub mod sources;
pub mod statement;
pub mod text;
pub mod url;

pub use agent::{lease, lease_fresh, lease_fresh_from, lease_from};
pub use capture::capture;
pub use error::Error;
pub use holder::Holder;
pub use lease::Lease;
pub use pool::Pool;
pub use snapshot::{Apply, Recipe, Snapshot, PLACEHOLDER};
pub use sources::{fingerprint, sql_files};
