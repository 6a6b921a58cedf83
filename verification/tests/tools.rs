use std::path::{Path, PathBuf};

use hazir::capture::{dump_args, dump_told, migrate_failure, migrate_told, migrator_env, Dumped};
use hazir::path::{ends_in_sql, is_build_output, path_before};
use hazir::text::trim;
use hazir::{Apply, Error};

#[test]
fn a_migrator_is_told_the_url_under_three_names() {
    let env = migrator_env("postgres://h/db?options=x", "s");
    let env: Vec<(&str, &str)> = env.iter().map(|(name, value)| (name.as_str(), value.as_str())).collect();
    assert_eq!(
        env,
        vec![
            ("DATABASE_URL", "postgres://h/db?options=x"),
            ("TEST_DATABASE_URL", "postgres://h/db?options=x"),
            ("HAZIR_URL", "postgres://h/db?options=x"),
            ("HAZIR_SCHEMA", "s"),
        ]
    );
}

#[test]
fn a_migrator_that_fails_is_quoted() {
    assert_eq!(
        migrate_failure("make", "exit status: 2", "\n it broke \n"),
        "`make` exited exit status: 2: it broke"
    );
    assert!(migrate_told("make", true, "exit status: 0", b"a warning").is_ok());
    match migrate_told("make", false, "exit status: 1", b" caf\xc3\xa9 \xff\n") {
        Err(Error::Migrate(what)) => {
            assert_eq!(what, "`make` exited exit status: 1: caf\u{e9} \u{fffd}")
        }
        _ => panic!("it was taken for a success"),
    }
}

#[test]
fn pg_dump_is_asked_for_one_schema_and_its_rows() {
    assert_eq!(
        dump_args("postgres://h/db", "t"),
        vec![
            "--dbname",
            "postgres://h/db",
            "--inserts",
            "--no-owner",
            "--no-privileges",
            "--no-comments",
            "--quote-all-identifiers",
            "--schema",
            "t",
        ]
    );
}

#[test]
fn what_came_of_pg_dump_is_told_apart() {
    match dump_told(Dumped::NotFound, "t") {
        Err(Error::Dump(what)) => assert_eq!(
            what,
            "not on PATH. It comes with the Postgres client tools; without it \
             `--migrate` is run once per schema instead of once in total"
        ),
        _ => panic!("it was found"),
    }
    match dump_told(Dumped::Failed("permission denied".to_owned()), "t") {
        Err(Error::Io(what)) => assert_eq!(what, "permission denied"),
        _ => panic!("it was run"),
    }
    let ended = Dumped::Ended { success: false, stdout: vec![], stderr: b" too \xfe old\n".to_vec() };
    match dump_told(ended, "t") {
        Err(Error::Dump(what)) => assert_eq!(what, "too \u{fffd} old"),
        _ => panic!("it was taken for a success"),
    }
    let ended = Dumped::Ended {
        success: true,
        stdout: b"CREATE TABLE \"hazir_template_abc\".\"caf\xc3\xa9\" ();\n".to_vec(),
        stderr: b"a warning".to_vec(),
    };
    match dump_told(ended, "hazir_template_abc") {
        Ok(ddl) => assert_eq!(ddl, "CREATE TABLE @hazir_schema@.\"caf\u{e9}\" ();"),
        Err(err) => panic!("{}", err.to_string()),
    }
}

#[test]
fn the_rows_the_migrations_wrote_come_through_a_dump() {
    assert!(dump_args("postgres://h/db", "t").contains(&"--inserts".to_owned()));
    assert!(!dump_args("postgres://h/db", "t").contains(&"--schema-only".to_owned()));
    let ended = Dumped::Ended {
        success: true,
        stdout: b"CREATE SCHEMA \"hazir_template_abc\";\n\
                  CREATE TABLE \"hazir_template_abc\".\"kind\" (\n    \"id\" bigint\n);\n\
                  INSERT INTO \"hazir_template_abc\".\"kind\" VALUES (1);\n"
            .to_vec(),
        stderr: vec![],
    };
    let ddl = match dump_told(ended, "hazir_template_abc") {
        Ok(ddl) => ddl,
        Err(err) => panic!("{}", err.to_string()),
    };
    assert_eq!(
        Apply::Placeholder.statements(&ddl, "s"),
        "CREATE TABLE \"s\".\"kind\" (\n    \"id\" bigint\n);\nINSERT INTO \"s\".\"kind\" VALUES (1);"
    );
}

/// Paths of every shape that matters to how they are read.
fn paths() -> Vec<&'static str> {
    vec![
        "", "/", "//", ".", "..", "./", "a", "a/", "a//", "a/.", "a/..", "./a", "././a", "/a", "//a",
        "/./a", "a/b", "a//b", "a/./b", "a/../b", "a-b", "a/b.sql", "a.sql", "a.sql/", "a.sql/.",
        "a.sql/b", ".sql", "a/.sql", "..sql", "a..sql", "a.sql.", "a.b.sql", "a.SQL", "a.sqlx", "sql",
        "target", "a/target", "target/", "target/.", "target/a", "targets", "a/target/..", "b/a.sql",
        "a b", "a!b", "a/b/c", "\u{e9}.sql", "...", "...sql", "a/...",
    ]
}

#[test]
fn paths_come_in_the_order_of_their_parts() {
    for one in paths() {
        for other in paths() {
            assert_eq!(
                path_before(one.as_bytes(), other.as_bytes()),
                PathBuf::from(one) < PathBuf::from(other),
                "{one:?} and {other:?}"
            );
        }
    }
}

#[test]
fn extensions_are_read_as_rust_reads_them() {
    for one in paths() {
        assert_eq!(
            ends_in_sql(one.as_bytes()),
            Path::new(one).extension().is_some_and(|ext| ext == "sql"),
            "{one:?}"
        );
    }
}

#[test]
fn what_a_build_wrote_is_known_by_its_name() {
    for one in paths() {
        assert_eq!(
            is_build_output(one.as_bytes()),
            Path::new(one).file_name().is_some_and(|name| name == "target"),
            "{one:?}"
        );
    }
}

#[test]
fn white_space_is_what_rust_says_it_is() {
    for code in 0..0x3100u32 {
        if let Some(c) = char::from_u32(code) {
            let text = format!("{c}a{c}b{c}{c}");
            assert_eq!(trim(&text), text.trim(), "{code:x}");
        }
    }
    assert_eq!(trim(""), "");
    assert_eq!(trim(" \n\t"), "");
}
