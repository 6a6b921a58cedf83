use hazir::agent::{
    lease, lease_fresh, lease_fresh_from, lease_from, leased, refuse, serve, taken, Request, Serving,
    Taken,
};
use hazir::error::Complaint;
use hazir::place::{env_url, pg_dump};
use hazir::Error;

fn text(what: &str) -> String {
    what.to_owned()
}

fn some(what: &str) -> Option<String> {
    Some(what.to_owned())
}

#[test]
fn each_error_says_what_happened() {
    let all = vec![
        (
            Error::NoUrl,
            "no database to lease from. HAZIR_URL or TEST_DATABASE_URL says where",
        ),
        (
            Error::NoSnapshot,
            "nothing warmed here yet \u{2014} run `hazir warm` before the tests",
        ),
        (
            Error::UnknownSnapshot(text("abc")),
            "no snapshot called abc in this database",
        ),
        (Error::Exhausted, "the pool is empty and a schema could not be built"),
        (
            Error::Unreachable(text("refused")),
            "the pool's database did not answer: refused",
        ),
        (Error::Io(text("no such file")), "no such file"),
        (
            Error::Migrate(text("it said no")),
            "the schema could not be built: it said no",
        ),
        (Error::Dump(text("not on PATH")), "pg_dump: not on PATH"),
        (
            Error::Postgres(Complaint::Other(text("connection closed"))),
            "postgres: connection closed",
        ),
    ];
    for (error, words) in &all {
        assert_eq!(error.to_string(), *words);
    }
}

#[test]
fn what_the_server_said_is_passed_through() {
    let complaint = |detail: Option<&str>, hint: Option<&str>| {
        Error::Postgres(Complaint::Said {
            message: text("relation \"a\" does not exist"),
            detail: detail.map(text),
            hint: hint.map(text),
        })
        .to_string()
    };
    assert_eq!(complaint(None, None), "postgres: relation \"a\" does not exist");
    assert_eq!(
        complaint(Some("there is none"), None),
        "postgres: relation \"a\" does not exist (there is none)"
    );
    assert_eq!(
        complaint(None, Some("make it")),
        "postgres: relation \"a\" does not exist \u{2014} make it"
    );
    assert_eq!(
        complaint(Some("there is none"), Some("make it")),
        "postgres: relation \"a\" does not exist (there is none) \u{2014} make it"
    );
}

#[test]
fn the_pool_is_where_the_first_setting_says() {
    assert_eq!(env_url(some("a"), some("b"), some("c")).ok(), some("a"));
    assert_eq!(env_url(None, some("b"), some("c")).ok(), some("b"));
    assert_eq!(env_url(some(" \t\n"), some(""), some("c")).ok(), some("c"));
    // What is said is not trimmed, only looked at.
    assert_eq!(env_url(some(" a "), None, None).ok(), some(" a "));
    assert!(matches!(env_url(None, some("\u{3000}"), None), Err(Error::NoUrl)));
    assert!(matches!(env_url(None, None, None), Err(Error::NoUrl)));
}

#[test]
fn another_pg_dump_can_be_named() {
    assert_eq!(pg_dump(None), "pg_dump");
    assert_eq!(pg_dump(some("  ")), "pg_dump");
    assert_eq!(pg_dump(some("/usr/lib/18/pg_dump")), "/usr/lib/18/pg_dump");
}

#[test]
fn a_named_snapshot_is_carried_to_the_pool() {
    assert!(matches!(serve(lease()), Serving::Claim { burn: false }));
    assert!(matches!(serve(lease_fresh()), Serving::Claim { burn: true }));
    match serve(lease_from(text("abc"))) {
        Serving::ClaimFrom { fingerprint, burn } => {
            assert_eq!(fingerprint, "abc");
            assert!(!burn);
        }
        _ => panic!("the name was lost"),
    }
    match serve(lease_fresh_from(text("abc"))) {
        Serving::ClaimFrom { fingerprint, burn } => {
            assert_eq!(fingerprint, "abc");
            assert!(burn);
        }
        _ => panic!("the name was lost"),
    }
    match serve(Request::GiveBack { schema: text("s"), burn: true }) {
        Serving::GiveBack { schema, burn } => {
            assert_eq!(schema, "s");
            assert!(burn);
        }
        _ => panic!("a schema was claimed rather than taken back"),
    }
}

#[test]
fn a_claim_is_answered_with_where_it_is() {
    let answer = taken(Ok(text("s")), text("postgres://h/db"));
    match &answer {
        Ok(taken) => {
            assert_eq!(taken.schema, "s");
            assert_eq!(taken.url, "postgres://h/db");
        }
        Err(err) => panic!("{}", err.to_string()),
    }
    let answer = taken(Err(Error::NoSnapshot), text("postgres://h/db"));
    assert!(matches!(answer, Err(Error::NoSnapshot)));
}

#[test]
fn a_request_that_cannot_be_served_is_refused_with_the_reason() {
    let why = Error::Postgres(Complaint::Other(text("connection refused")));
    match refuse(lease(), &why) {
        Some(Error::Unreachable(text)) => assert_eq!(text, "postgres: connection refused"),
        _ => panic!("the reason was lost"),
    }
    assert!(refuse(Request::GiveBack { schema: text("s"), burn: false }, &why).is_none());
}

#[test]
fn what_was_taken_is_leased() {
    let taken = Taken { schema: text("s"), url: text("postgres://h/db?a=b") };
    let lease = leased(taken, true);
    assert_eq!(lease.schema(), "s");
    assert_eq!(lease.url(), "postgres://h/db?a=b&options=-csearch_path%3Ds");
    assert!(lease.burn());
}
