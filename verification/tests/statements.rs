use hazir::statement::{Param, Statement};
use hazir::{Apply, Pool};

fn text(what: &str) -> String {
    what.to_owned()
}

/// What is bound to a statement, written out.
fn bound(statement: &Statement) -> Vec<String> {
    statement
        .params()
        .into_iter()
        .map(|param| match param {
            Param::Text(text) => format!("text {text}"),
            Param::MaybeText(text) => format!("maybe {text:?}"),
            Param::Word(word) => format!("word {word}"),
            Param::Flag(flag) => format!("flag {flag}"),
            Param::Texts(texts) => format!("texts {texts:?}"),
            Param::Seconds { seconds, nanos } => format!("seconds {seconds} {nanos}"),
        })
        .collect()
}

/// The statement with every run of white space made one space.
fn flat(statement: &Statement) -> String {
    statement.sql().split_whitespace().collect::<Vec<&str>>().join(" ")
}

#[test]
fn the_tables_are_made_behind_a_lock_in_one_transaction() {
    let statement = Pool::bootstrap(text("CREATE SCHEMA IF NOT EXISTS hazir;"));
    assert_eq!(
        statement.sql(),
        "BEGIN;\nSELECT pg_advisory_xact_lock(6174310982745113);\n\
         CREATE SCHEMA IF NOT EXISTS hazir;\nCOMMIT;"
    );
    assert!(statement.script());
    assert!(bound(&statement).is_empty());
}

#[test]
fn the_current_snapshot_is_asked_for_and_set() {
    assert_eq!(Statement::FindCurrent.sql(), "SELECT fingerprint FROM hazir.current");
    let set = Pool::set_current(text("abc"));
    assert_eq!(
        flat(&set),
        "INSERT INTO hazir.current (sole, fingerprint) VALUES (true, $1) \
         ON CONFLICT (sole) DO UPDATE SET fingerprint = EXCLUDED.fingerprint"
    );
    assert_eq!(bound(&set), vec!["text abc"]);
    assert!(!set.script());
}

#[test]
fn a_claim_takes_the_first_ready_row_that_nobody_has_locked() {
    let claim = Statement::Claim { fingerprint: text("abc"), holder: text("h/b/1") };
    assert_eq!(
        flat(&claim),
        "UPDATE hazir.pool AS p SET state = 'leased', holder = $2, held_since = now() \
         WHERE p.id = (SELECT id FROM hazir.pool \
         WHERE state = 'ready' AND fingerprint = $1 \
         ORDER BY id FOR UPDATE SKIP LOCKED LIMIT 1) \
         RETURNING p.schema_name"
    );
    assert_eq!(bound(&claim), vec!["text abc", "text h/b/1"]);
}

#[test]
fn schemas_are_counted_without_those_that_are_burnt() {
    let count = Statement::CountSchemas { fingerprint: text("abc") };
    assert_eq!(
        count.sql(),
        "SELECT count(*) FROM hazir.pool WHERE fingerprint = $1 AND NOT burn"
    );
    assert_eq!(bound(&count), vec!["text abc"]);
    let count = Statement::CountSnapshots { fingerprint: text("abc") };
    assert_eq!(count.sql(), "SELECT count(*) FROM hazir.snapshot WHERE fingerprint = $1");
    assert_eq!(bound(&count), vec!["text abc"]);
}

#[test]
fn what_is_of_other_snapshots_is_asked_for_and_struck_off() {
    let keep = vec![text("a"), text("b")];
    let all = vec![
        (
            Statement::SchemasOfOthers { keep: keep.clone() },
            "SELECT schema_name FROM hazir.pool WHERE fingerprint <> ALL($1)",
        ),
        (
            Statement::SeedsOfOthers { keep: keep.clone() },
            "SELECT seed FROM hazir.snapshot WHERE fingerprint <> ALL($1) AND seed IS NOT NULL",
        ),
        (
            Statement::ForgetSchemasOfOthers { keep: keep.clone() },
            "DELETE FROM hazir.pool WHERE fingerprint <> ALL($1)",
        ),
        (
            Statement::ForgetOthers { keep: keep.clone() },
            "DELETE FROM hazir.snapshot WHERE fingerprint <> ALL($1)",
        ),
    ];
    for (statement, sql) in &all {
        assert_eq!(flat(statement), *sql);
        assert_eq!(bound(statement), vec!["texts [\"a\", \"b\"]"]);
        assert!(!statement.script());
    }
}

#[test]
fn leases_are_asked_for_with_their_age() {
    let held = Pool::ask_held(90, 5);
    assert_eq!(
        flat(&held),
        "SELECT schema_name, holder, burn, \
         held_since < now() - make_interval(secs => $1) AS overdue \
         FROM hazir.pool WHERE state = 'leased'"
    );
    assert_eq!(bound(&held), vec!["seconds 90 5"]);
}

#[test]
fn schemas_are_made_and_taken_down_by_quoted_name() {
    let statement = Statement::CreateSchema { name: text("od\"d") };
    assert_eq!(statement.sql(), "CREATE SCHEMA \"od\"\"d\"");
    assert!(statement.script());
    let statement = Statement::DropSchema { name: text("od\"d") };
    assert_eq!(statement.sql(), "DROP SCHEMA IF EXISTS \"od\"\"d\" CASCADE");
    assert!(statement.script());
    let statement = Statement::DropSchemas { names: vec![text("a"), text("b"), text("c\"")] };
    assert_eq!(
        statement.sql(),
        "DROP SCHEMA IF EXISTS \"a\", \"b\", \"c\"\"\" CASCADE"
    );
    assert!(statement.script());
    assert_eq!(Statement::DropBooks.sql(), "DROP SCHEMA hazir CASCADE");
    assert!(Statement::DropBooks.script());
}

#[test]
fn a_schema_is_emptied_restored_and_made_ready() {
    let wipe = Statement::Wipe { name: text("s") };
    assert_eq!(wipe.sql(), "SELECT hazir.wipe($1)");
    let reseed = Statement::Reseed { name: text("s") };
    assert_eq!(
        flat(&reseed),
        "SELECT hazir.reseed($1, (SELECT s.seed FROM hazir.pool p \
         JOIN hazir.snapshot s ON s.fingerprint = p.fingerprint \
         WHERE p.schema_name = $1))"
    );
    let ready = Statement::MakeReady { name: text("s") };
    assert_eq!(
        flat(&ready),
        "UPDATE hazir.pool SET state = 'ready', holder = NULL, held_since = NULL \
         WHERE schema_name = $1"
    );
    let gone = Statement::ForgetSchema { name: text("s") };
    assert_eq!(gone.sql(), "DELETE FROM hazir.pool WHERE schema_name = $1");
    for statement in [&wipe, &reseed, &ready, &gone] {
        assert_eq!(bound(statement), vec!["text s"]);
        assert!(!statement.script());
    }
}

#[test]
fn shapes_are_compared_by_the_server() {
    let same = Statement::SameShape { name: text("s") };
    assert_eq!(
        flat(&same),
        "SELECT s.shape = hazir.shape(p.schema_name) FROM hazir.pool p \
         JOIN hazir.snapshot s ON s.fingerprint = p.fingerprint \
         WHERE p.schema_name = $1"
    );
    assert_eq!(bound(&same), vec!["text s"]);
    let shape = Statement::ShapeOf { name: text("s") };
    assert_eq!(shape.sql(), "SELECT hazir.shape($1)");
    assert_eq!(bound(&shape), vec!["text s"]);
}

#[test]
fn a_snapshot_is_found_replayed_and_stored() {
    let find = Statement::FindSnapshot { fingerprint: text("abc") };
    assert_eq!(find.sql(), "SELECT ddl, apply FROM hazir.snapshot WHERE fingerprint = $1");
    assert_eq!(bound(&find), vec!["text abc"]);

    let replay = Statement::Replay {
        apply: Apply::SearchPath,
        ddl: text("CREATE TABLE a ();"),
        name: text("s"),
    };
    assert_eq!(
        replay.sql(),
        "SET search_path TO \"s\";\nCREATE TABLE a ();\n;RESET search_path;"
    );
    assert!(replay.script());
    let replay = Statement::Replay {
        apply: Apply::Placeholder,
        ddl: text("CREATE TABLE @hazir_schema@.a ();"),
        name: text("s"),
    };
    assert_eq!(replay.sql(), "CREATE TABLE \"s\".a ();");
    assert!(replay.script());
    assert_eq!(Statement::ResetPath.sql(), "RESET search_path");
    assert!(Statement::ResetPath.script());

    let store = Statement::Store {
        fingerprint: text("abc"),
        ddl: text("ddl"),
        shape: text("shape"),
        apply: Apply::Placeholder,
    };
    assert_eq!(
        flat(&store),
        "INSERT INTO hazir.snapshot (fingerprint, ddl, shape, apply) \
         VALUES ($1, $2, $3, $4) ON CONFLICT (fingerprint) DO UPDATE \
         SET ddl = EXCLUDED.ddl, shape = EXCLUDED.shape, apply = EXCLUDED.apply"
    );
    assert_eq!(
        bound(&store),
        vec!["text abc", "text ddl", "text shape", "word placeholder"]
    );
}

#[test]
fn a_schema_is_recorded_as_leased_or_ready() {
    let leased = Statement::Record {
        name: text("s"),
        fingerprint: text("abc"),
        leased: true,
        burn: true,
        holder: Some(text("h/b/1")),
    };
    assert_eq!(
        flat(&leased),
        "INSERT INTO hazir.pool (schema_name, fingerprint, state, burn, holder, held_since) \
         VALUES ($1, $2, $3, $4, $5::text, \
         CASE WHEN $5::text IS NULL THEN NULL ELSE now() END)"
    );
    assert_eq!(
        bound(&leased),
        vec!["text s", "text abc", "word leased", "flag true", "maybe Some(\"h/b/1\")"]
    );
    let ready = Statement::Record {
        name: text("s"),
        fingerprint: text("abc"),
        leased: false,
        burn: false,
        holder: None,
    };
    assert_eq!(
        bound(&ready),
        vec!["text s", "text abc", "word ready", "flag false", "maybe None"]
    );
}

#[test]
fn the_books_are_listed_without_anything_bound() {
    assert_eq!(
        flat(&Statement::Tally),
        "SELECT fingerprint, state, count(*) FROM hazir.pool \
         GROUP BY fingerprint, state ORDER BY fingerprint, state"
    );
    assert_eq!(Statement::AllSchemas.sql(), "SELECT schema_name FROM hazir.pool");
    for statement in [&Statement::Tally, &Statement::AllSchemas, &Statement::FindCurrent] {
        assert!(bound(statement).is_empty());
        assert!(!statement.script());
    }
}
