//! A schema a test has been given.

use vstd::prelude::*;

use crate::url::{pointed_at, with_search_path};

verus! {

/// A schema a test has been given, and the url to reach it on.
///
/// It is for whoever holds this to hand the schema back. A test that panics
/// never hands anything back tidily, and that is allowed for: `hazir reclaim`
/// takes back what the processes holding it are no longer alive to use.
pub struct Lease {
    url: String,
    schema: String,
    burn: bool,
}

impl Lease {
    /// The url that the lease is reached on.
    pub closed spec fn reached_on(&self) -> Seq<char> {
        self.url@
    }

    /// The schema that was leased.
    pub closed spec fn leased(&self) -> Seq<char> {
        self.schema@
    }

    /// Whether the schema is thrown away afterwards.
    pub closed spec fn is_fresh(&self) -> bool {
        self.burn
    }

    /// A schema in the database at `admin_url`, to be thrown away afterwards
    /// or not.
    pub fn new(admin_url: String, schema: String, burn: bool) -> (r: Lease)
        ensures
            r.reached_on() == pointed_at(admin_url@, schema@),
            r.leased() == schema@,
            r.is_fresh() == burn,
    {
        let url = with_search_path(admin_url.as_str(), schema.as_str());
        Lease { url, schema, burn }
    }

    /// What to hand to sqlx, SeaORM, Diesel or tokio-postgres. Opening it
    /// puts the connection in this schema and nowhere else.
    pub fn url(&self) -> (r: &str)
        ensures
            r@ == self.reached_on(),
    {
        self.url.as_str()
    }

    /// The schema's name.
    pub fn schema(&self) -> (r: &str)
        ensures
            r@ == self.leased(),
    {
        self.schema.as_str()
    }

    /// Whether the schema is thrown away afterwards rather than passed on.
    pub fn burn(&self) -> (r: bool)
        ensures
            r == self.is_fresh(),
    {
        self.burn
    }
}

} // verus!
