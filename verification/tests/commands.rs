use hazir::cli::{
    after_reclaim, can_print, clean, command_recipe, export_line, sql_recipe, status, stocked,
    take_snapshot, took_back, wants_sources, warm_up, Setting, Tally, WarmStep, NEEDS_PG_DUMP, NO_SOURCE,
};
use hazir::statement::Statement;
use hazir::Recipe;

const FINGERPRINT: &str = "0123456789abcdef0123456789abcdef0123456789abcdef0123456789abcdef";

fn bytes(path: &str) -> Vec<u8> {
    path.as_bytes().to_vec()
}

#[test]
fn a_directory_of_sql_is_its_own_source() {
    match sql_recipe(bytes("m"), vec![bytes("m/1.sql")], vec![]) {
        Ok((Recipe::Sql(files), sources)) => {
            assert_eq!(files, vec![bytes("m/1.sql")]);
            assert_eq!(sources, vec![bytes("m")]);
        }
        _ => panic!("refused"),
    }
    match sql_recipe(bytes("m"), vec![bytes("m/1.sql")], vec![bytes("x"), bytes("y")]) {
        Ok((Recipe::Sql(_), sources)) => assert_eq!(sources, vec![bytes("x"), bytes("y")]),
        _ => panic!("refused"),
    }
}

#[test]
fn a_directory_without_sql_is_refused() {
    let refused = sql_recipe(bytes("a/dir"), vec![], vec![bytes("x")]);
    assert_eq!(refused.err(), Some("no .sql files under a/dir".to_owned()));
    let refused = sql_recipe(vec![b'a', 0xff, b'b'], vec![], vec![]);
    assert_eq!(refused.err(), Some("no .sql files under a\u{fffd}b".to_owned()));
}

#[test]
fn a_command_wants_sources_and_pg_dump() {
    assert_eq!(wants_sources(&vec![]).err(), Some(NO_SOURCE.to_owned()));
    assert!(wants_sources(&vec![bytes("m")]).is_ok());
    assert_eq!(
        NO_SOURCE,
        "--migrate wants at least one --source: the files \
         that decide whether the snapshot still stands"
    );
    assert_eq!(
        command_recipe("make".to_owned(), false).err(),
        Some(NEEDS_PG_DUMP.to_owned())
    );
    assert_eq!(
        NEEDS_PG_DUMP,
        "--migrate needs pg_dump on PATH to take the snapshot. \
         Install the Postgres client tools, or point --sql at \
         a directory of .sql migrations instead"
    );
    match command_recipe("make".to_owned(), true) {
        Ok(Recipe::Command(command)) => assert_eq!(command, "make"),
        _ => panic!("refused"),
    }
}

#[test]
fn a_snapshot_is_taken_when_it_is_new_or_forced() {
    assert_eq!(
        take_snapshot(FINGERPRINT, 0, false),
        (true, "building the schema once (0123456789ab)".to_owned())
    );
    assert_eq!(
        take_snapshot(FINGERPRINT, 1, true),
        (true, "building the schema once (0123456789ab)".to_owned())
    );
    assert_eq!(
        take_snapshot(FINGERPRINT, 1, false),
        (false, "the schema is unchanged (0123456789ab)".to_owned())
    );
}

#[test]
fn what_is_said_of_numbers() {
    assert_eq!(stocked(16, 3, 0), "pool of 16: 3 taken back, 0 made");
    assert_eq!(
        stocked(usize::MAX, 0, 1),
        format!("pool of {}: 0 taken back, 1 made", usize::MAX)
    );
    assert_eq!(export_line("abc"), "HAZIR_FINGERPRINT=abc");
    assert_eq!(took_back(0), None);
    assert_eq!(took_back(12), Some("took back 12".to_owned()));
}

#[test]
fn a_reclaim_is_repeated_where_that_was_asked_for() {
    assert_eq!(after_reclaim(0, None), (None, None));
    assert_eq!(after_reclaim(3, None), (Some("took back 3".to_owned()), None));
    assert_eq!(after_reclaim(0, Some(30)), (None, Some(30)));
    assert_eq!(after_reclaim(1, Some(0)), (Some("took back 1".to_owned()), Some(0)));
}

#[test]
fn only_what_can_be_cut_is_printed() {
    assert!(can_print(FINGERPRINT));
    assert!(can_print("0123456789ab"));
    assert!(!can_print("0123456789a"));
    assert!(!can_print("0123456789a\u{e9}"));
    assert!(can_print("0123456789\u{e9}"));
}

/// The rest of a warm-up, once the snapshot is being made the current one.
fn finish(state: Setting) {
    let WarmStep::Reclaim(state, seconds) = state.set() else {
        panic!("nothing was taken back");
    };
    assert_eq!(seconds, 900);
    let WarmStep::Stock { state, fingerprint, want } = state.reclaimed(2) else {
        panic!("nothing was stocked");
    };
    assert_eq!(fingerprint, FINGERPRINT);
    assert_eq!(want, 16);
    let WarmStep::Done { said, export } = state.stocked(14) else {
        panic!("it went on");
    };
    assert_eq!(said, "pool of 16: 2 taken back, 14 made");
    assert_eq!(export, format!("HAZIR_FINGERPRINT={FINGERPRINT}"));
}

fn is_set_current(statement: &Statement) -> bool {
    match statement {
        Statement::SetCurrent { fingerprint } => fingerprint == FINGERPRINT,
        _ => false,
    }
}

#[test]
fn a_warm_up_takes_a_snapshot_that_is_not_there_and_makes_it_current() {
    let WarmStep::Ask(state, statement) = warm_up(FINGERPRINT.to_owned(), 16, false) else {
        panic!("the books were not asked");
    };
    assert!(matches!(&statement, Statement::CountSnapshots { fingerprint } if fingerprint == FINGERPRINT));
    let WarmStep::Capture(state, said) = state.counted(0) else {
        panic!("no snapshot was taken");
    };
    assert_eq!(said, "building the schema once (0123456789ab)");
    let WarmStep::Run(state, None, statement) = state.captured() else {
        panic!("it was not made current");
    };
    assert!(is_set_current(&statement));
    finish(state);
}

#[test]
fn a_warm_up_makes_a_snapshot_that_is_there_current() {
    let WarmStep::Ask(state, _) = warm_up(FINGERPRINT.to_owned(), 16, false) else {
        panic!("the books were not asked");
    };
    let WarmStep::Run(state, Some(said), statement) = state.counted(1) else {
        panic!("it was not made current");
    };
    assert_eq!(said, "the schema is unchanged (0123456789ab)");
    assert!(is_set_current(&statement));
    finish(state);
}

#[test]
fn a_warm_up_can_be_made_to_take_it_again() {
    let WarmStep::Ask(state, _) = warm_up(FINGERPRINT.to_owned(), 16, true) else {
        panic!("the books were not asked");
    };
    assert!(matches!(state.counted(1), WarmStep::Capture(_, _)));
}

fn tally(fingerprint: &str, state: &str, count: i64) -> Tally {
    Tally { fingerprint: fingerprint.to_owned(), state: state.to_owned(), count }
}

#[test]
fn the_pool_is_listed_in_columns() {
    assert_eq!(status(&vec![]), vec!["nothing warmed here"]);
    let all = vec![
        tally(FINGERPRINT, "leased", 3),
        tally(FINGERPRINT, "ready", 13),
        tally("abcdefghij\u{e9}k", "somewhere", -1),
    ];
    assert_eq!(
        status(&all),
        vec![
            "0123456789ab  leased  3",
            "0123456789ab  ready   13",
            "abcdefghij\u{e9}   somewhere  -1",
        ]
    );
    // As the standard library pads.
    assert_eq!(
        status(&all),
        all.iter()
            .map(|one| format!("{:12}  {:6}  {}", &one.fingerprint[..12], one.state, one.count))
            .collect::<Vec<String>>()
    );
}

#[test]
fn everything_is_dropped_a_few_at_a_time_and_the_books_last() {
    let names: Vec<String> = (0..23).map(|n| format!("s{n}")).collect();
    let (plan, said) = clean(&names);
    assert_eq!(said, "dropped 23 schemas");
    assert_eq!(plan.len(), 4);
    let mut dropped: Vec<String> = vec![];
    for statement in &plan[..3] {
        match statement {
            Statement::DropSchemas { names } => {
                assert!(!names.is_empty() && names.len() <= 10);
                dropped.extend(names.iter().cloned());
            }
            other => panic!("{}", other.sql()),
        }
    }
    assert_eq!(dropped, names);
    assert!(matches!(plan[3], Statement::DropBooks));

    let (plan, said) = clean(&vec![]);
    assert_eq!(said, "dropped 0 schemas");
    assert_eq!(plan.len(), 1);
    assert!(matches!(plan[0], Statement::DropBooks));
}
