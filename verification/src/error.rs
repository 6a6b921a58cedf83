//! What can go wrong.

use vstd::prelude::*;

verus! {

/// What a client reports of a statement that failed.
#[derive(Debug)]
pub enum Complaint {
    /// What the server said.
    Said { message: String, detail: Option<String>, hint: Option<String> },
    /// Anything that is not the server's own words.
    Other(String),
}

/// What can go wrong.
#[derive(Debug)]
pub enum Error {
    /// Nowhere to connect. `HAZIR_URL` or `TEST_DATABASE_URL` says where.
    NoUrl,
    /// Nothing has been warmed into this database yet.
    NoSnapshot,
    /// A snapshot was named that this database has never been given.
    UnknownSnapshot(String),
    /// The pool was empty and a schema could not be built to replace it.
    Exhausted,
    /// The database this process leases from did not answer at all.
    Unreachable(String),
    /// The database refused.
    Postgres(Complaint),
    /// The machine refused.
    Io(String),
    /// The command that builds the schema said no.
    Migrate(String),
    /// `pg_dump` is not on PATH, or it refused.
    Dump(String),
}

/// A complaint, in words. The server's message, and its detail and its hint
/// where it gave them: that is the difference between a message and a shrug.
pub open spec fn complaint_text(complaint: Complaint) -> Seq<char> {
    match complaint {
        Complaint::Said { message, detail, hint } => "postgres: "@ + message@ + (match detail {
            Some(detail) => " ("@ + detail@ + ")"@,
            None => Seq::<char>::empty(),
        }) + (match hint {
            Some(hint) => " — "@ + hint@,
            None => Seq::<char>::empty(),
        }),
        Complaint::Other(what) => "postgres: "@ + what@,
    }
}

/// An error, in words.
pub open spec fn error_text(error: Error) -> Seq<char> {
    match error {
        Error::NoUrl => "no database to lease from. HAZIR_URL or TEST_DATABASE_URL says where"@,
        Error::NoSnapshot => "nothing warmed here yet — run `hazir warm` before the tests"@,
        Error::UnknownSnapshot(fingerprint) => "no snapshot called "@ + fingerprint@
            + " in this database"@,
        Error::Exhausted => "the pool is empty and a schema could not be built"@,
        Error::Unreachable(why) => "the pool's database did not answer: "@ + why@,
        Error::Postgres(complaint) => complaint_text(complaint),
        Error::Io(what) => what@,
        Error::Migrate(what) => "the schema could not be built: "@ + what@,
        Error::Dump(what) => "pg_dump: "@ + what@,
    }
}

impl Complaint {
    /// The complaint, in words.
    pub fn to_string(&self) -> (r: String)
        ensures
            r@ == complaint_text(*self),
    {
        let mut r = "postgres: ".to_owned();
        match self {
            Complaint::Said { message, detail, hint } => {
                r.append(message.as_str());
                if let Some(detail) = detail {
                    r.append(" (");
                    r.append(detail.as_str());
                    r.append(")");
                }
                if let Some(hint) = hint {
                    r.append(" — ");
                    r.append(hint.as_str());
                }
                proof {
                    assert(r@ =~= complaint_text(*self));
                }
            },
            Complaint::Other(what) => {
                r.append(what.as_str());
            },
        }
        r
    }
}

impl Error {
    /// The error, in words.
    pub fn to_string(&self) -> (r: String)
        ensures
            r@ == error_text(*self),
    {
        match self {
            Error::NoUrl => "no database to lease from. HAZIR_URL or TEST_DATABASE_URL says where".to_owned(),
            Error::NoSnapshot => "nothing warmed here yet — run `hazir warm` before the tests".to_owned(),
            Error::UnknownSnapshot(fingerprint) => {
                let mut r = "no snapshot called ".to_owned();
                r.append(fingerprint.as_str());
                r.append(" in this database");
                r
            },
            Error::Exhausted => "the pool is empty and a schema could not be built".to_owned(),
            Error::Unreachable(why) => {
                let mut r = "the pool's database did not answer: ".to_owned();
                r.append(why.as_str());
                r
            },
            Error::Postgres(complaint) => complaint.to_string(),
            Error::Io(what) => what.clone(),
            Error::Migrate(what) => {
                let mut r = "the schema could not be built: ".to_owned();
                r.append(what.as_str());
                r
            },
            Error::Dump(what) => {
                let mut r = "pg_dump: ".to_owned();
                r.append(what.as_str());
                r
            },
        }
    }
}

/// What caused an error stands whole in what is said of it, behind words that
/// depend on the kind of error alone.
pub proof fn law_an_error_says_what_caused_it(what: String)
    ensures
        error_text(Error::UnknownSnapshot(what)) == "no snapshot called "@ + what@ + " in this database"@,
        error_text(Error::Unreachable(what)) == "the pool's database did not answer: "@ + what@,
        error_text(Error::Io(what)) == what@,
        error_text(Error::Migrate(what)) == "the schema could not be built: "@ + what@,
        error_text(Error::Dump(what)) == "pg_dump: "@ + what@,
        error_text(Error::Postgres(Complaint::Other(what))) == "postgres: "@ + what@,
{
}

/// What the server said is passed through whole: its message, and behind it
/// the detail in brackets and the hint behind a dash, each where it was given.
pub proof fn law_what_the_server_said_is_passed_through(message: String, detail: String, hint: String)
    ensures
        ({
            let said = |detail: Option<String>, hint: Option<String>|
                error_text(Error::Postgres(Complaint::Said { message, detail, hint }));
            let plain = "postgres: "@ + message@;
            &&& said(None, None) == plain
            &&& said(Some(detail), None) == plain + " ("@ + detail@ + ")"@
            &&& said(None, Some(hint)) == plain + " — "@ + hint@
            &&& said(Some(detail), Some(hint)) == plain + " ("@ + detail@ + ")"@ + " — "@ + hint@
        }),
{
    let plain = "postgres: "@ + message@;
    let none = Seq::<char>::empty();
    assert(plain + none + none =~= plain);
    assert(plain + (" ("@ + detail@ + ")"@) + none =~= plain + " ("@ + detail@ + ")"@);
    assert(plain + none + (" — "@ + hint@) =~= plain + " — "@ + hint@);
    assert(plain + (" ("@ + detail@ + ")"@) + (" — "@ + hint@) =~= plain + " ("@ + detail@ + ")"@ + " — "@ + hint@);
}

} // verus!
