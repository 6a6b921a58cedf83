use std::collections::{BTreeMap, HashSet};

use hazir::capture::{CaptureStep, Running};
use hazir::cli::clean;
use hazir::error::Complaint;
use hazir::name::Names;
use hazir::pool::{sweep, BuildStep, Claiming, Entry, Finding, Held, Returning, Wanting};
use hazir::statement::Statement;
use hazir::{capture, Apply, Error, Holder, Pool, Recipe};

fn text(what: &str) -> String {
    what.to_owned()
}

fn me() -> Holder {
    Holder { host: text("here"), boot: text("b00t"), pid: 100 }
}

/// A schema in the books.
struct Row {
    name: String,
    fingerprint: String,
    leased: bool,
    burn: bool,
    holder: Option<String>,
    overdue: Option<bool>,
}

/// A schema: what it was built from, and what was written to it since.
#[derive(Clone, Default)]
struct Schema {
    shape: String,
    rows: Vec<String>,
}

/// As much of a server as the pool talks to.
#[derive(Default)]
struct Server {
    rows: Vec<Row>,
    schemas: BTreeMap<String, Schema>,
    /// By fingerprint: the text, the shape, and how it is applied.
    snapshots: BTreeMap<String, (String, String, String)>,
    current: Option<String>,
    /// Where the connection's search path was left.
    path: Option<String>,
    /// Every statement that was run.
    said: Vec<String>,
    /// A statement that begins with this is refused.
    refuses: Option<String>,
}

impl Server {
    fn run(&mut self, statement: &Statement) -> Result<(), Error> {
        let sql = statement.sql();
        if let Some(refused) = &self.refuses {
            if sql.starts_with(refused.as_str()) {
                return Err(Error::Postgres(Complaint::Other(format!("refused {sql}"))));
            }
        }
        self.said.push(sql);
        match statement {
            Statement::SetCurrent { fingerprint } => self.current = Some(fingerprint.clone()),
            Statement::DropSchema { name } => {
                self.schemas.remove(name);
            }
            Statement::DropSchemas { names } => {
                for name in names {
                    self.schemas.remove(name);
                }
            }
            Statement::CreateSchema { name } => {
                self.schemas.insert(name.clone(), Schema::default());
            }
            Statement::ForgetSchema { name } => self.rows.retain(|row| row.name != *name),
            Statement::ForgetSchemasOfOthers { keep } => {
                self.rows.retain(|row| keep.contains(&row.fingerprint))
            }
            Statement::ForgetOthers { keep } => {
                self.snapshots.retain(|fingerprint, _| keep.contains(fingerprint))
            }
            Statement::Wipe { name } => {
                self.schemas.get_mut(name).expect("a schema to wipe").rows.clear()
            }
            Statement::Reseed { .. } => {}
            Statement::MakeReady { name } => {
                for row in &mut self.rows {
                    if row.name == *name {
                        row.leased = false;
                        row.holder = None;
                        row.overdue = None;
                    }
                }
            }
            Statement::Replay { apply, ddl, name } => {
                let schema = self.schemas.get_mut(name).expect("a schema to build in");
                schema.shape = ddl.clone();
                self.path = match apply {
                    Apply::SearchPath => None,
                    // A dump empties the path and puts nothing back.
                    Apply::Placeholder => Some(text("")),
                };
            }
            Statement::ResetPath => self.path = None,
            Statement::Record { name, fingerprint, leased, burn, holder } => {
                // Under another search path the books would be written
                // somewhere nobody looks.
                assert!(self.path.is_none(), "the connection lost its search path");
                self.rows.push(Row {
                    name: name.clone(),
                    fingerprint: fingerprint.clone(),
                    leased: *leased,
                    burn: *burn,
                    holder: holder.clone(),
                    overdue: None,
                });
            }
            Statement::Store { fingerprint, ddl, shape, apply } => {
                self.snapshots.insert(
                    fingerprint.clone(),
                    (ddl.clone(), shape.clone(), apply.name().to_owned()),
                );
            }
            Statement::DropBooks => {
                self.rows.clear();
                self.snapshots.clear();
                self.current = None;
            }
            other => panic!("not something to run: {}", other.sql()),
        }
        Ok(())
    }

    fn run_all(&mut self, plan: &[Statement]) -> Result<(), Error> {
        for statement in plan {
            self.run(statement)?;
        }
        Ok(())
    }

    fn claim(&mut self, statement: &Statement) -> Option<String> {
        match statement {
            Statement::Claim { fingerprint, holder } => {
                let row = self
                    .rows
                    .iter_mut()
                    .find(|row| !row.leased && row.fingerprint == *fingerprint)?;
                row.leased = true;
                row.holder = Some(holder.clone());
                Some(row.name.clone())
            }
            other => panic!("not a claim: {}", other.sql()),
        }
    }

    fn same_shape(&self, statement: &Statement) -> Option<Option<bool>> {
        match statement {
            Statement::SameShape { name } => {
                let row = self.rows.iter().find(|row| row.name == *name)?;
                let snapshot = self.snapshots.get(&row.fingerprint)?;
                Some(Some(self.schemas[name].shape == snapshot.1))
            }
            other => panic!("not a question of shape: {}", other.sql()),
        }
    }

    fn row(&self, name: &str) -> Option<&Row> {
        self.rows.iter().find(|row| row.name == name)
    }
}

/// A pool over a server, for tests that go from end to end.
struct Run {
    server: Server,
    pool: Pool,
    names: Names,
    clock: u64,
}

impl Run {
    fn new() -> Run {
        Run {
            server: Server::default(),
            pool: Pool::new(text("postgres://h/db")),
            names: Names::new(100),
            clock: 1_700_000_000_000_000_000,
        }
    }

    fn name(&mut self, kind: &str, fingerprint: &str) -> String {
        self.clock += 1;
        self.names.scratch_name(kind, fingerprint, self.clock)
    }

    /// Takes a snapshot of one sql file, or of a dump.
    fn capture(&mut self, fingerprint: &str, recipe: Recipe, ddl: &str) {
        let template = self.name("template", fingerprint);
        let shape_name = self.name("shape", fingerprint);
        let url = self.pool.url().to_owned();
        let mut step = capture(recipe, text(fingerprint), url, template, shape_name);
        loop {
            step = match step {
                CaptureStep::Read(state, _) => state.files_read(&vec![text(ddl)]),
                CaptureStep::Run(state, plan) => {
                    self.server.run_all(&plan).expect("the statements to run");
                    state.ran()
                }
                CaptureStep::Migrate { state, .. } => state.migrated(),
                CaptureStep::Dump { state, .. } => state.dumped(text(ddl)),
                CaptureStep::Ask(state, Statement::ShapeOf { name }) => {
                    let shape = self.server.schemas[&name].shape.clone();
                    state.looks(shape)
                }
                CaptureStep::Ask(_, other) => panic!("{}", other.sql()),
                CaptureStep::Done(snapshot) => {
                    assert_eq!(snapshot.fingerprint, fingerprint);
                    return;
                }
            };
        }
    }

    /// Takes a snapshot until a statement is refused.
    fn capture_until_refused(&mut self, first: CaptureStep, ddl: &str) {
        let mut step = first;
        loop {
            step = match step {
                CaptureStep::Read(state, _) => state.files_read(&vec![text(ddl)]),
                CaptureStep::Run(state, plan) => match self.server.run_all(&plan) {
                    Ok(()) => state.ran(),
                    Err(_) => return,
                },
                CaptureStep::Migrate { state, .. } => state.migrated(),
                CaptureStep::Dump { state, .. } => state.dumped(text(ddl)),
                CaptureStep::Ask(state, _) => state.looks(text("the shape")),
                CaptureStep::Done(_) => panic!("nothing was refused"),
            };
        }
    }

    fn build(&mut self, fingerprint: &str, leased: bool, burn: bool) -> Result<String, Error> {
        let told = self
            .server
            .snapshots
            .get(fingerprint)
            .map(|snapshot| (snapshot.0.clone(), snapshot.2.clone()));
        let (ddl, apply) = Pool::snapshot_told(text(fingerprint), told)?;
        let name = self.name("pool", fingerprint);
        let entry = Entry::new(name, text(fingerprint), leased, burn, &me());
        let mut step = Pool::build_one(entry, apply, ddl);
        loop {
            step = match step {
                BuildStep::Run(state, statement) => {
                    let outcome = self.server.run(&statement);
                    state.next(outcome)
                }
                BuildStep::Attempt(state, plan) => {
                    for statement in &plan {
                        let _ = self.server.run(statement);
                    }
                    state.next(Ok(()))
                }
                BuildStep::Done(result) => return result,
            };
        }
    }

    fn claim_from(&mut self, fingerprint: &str, burn: bool) -> Result<String, Error> {
        let mut step = Pool::claim_from(text(fingerprint), burn, &me());
        loop {
            step = match step {
                Claiming::Ask(statement) => Pool::claim_told(self.server.claim(&statement)),
                Claiming::Build { leased, burn } => return self.build(fingerprint, leased, burn),
                Claiming::Have(name) => return Ok(name),
            };
        }
    }

    fn give_back(&mut self, schema: &str, burn: bool) {
        let plan = match Pool::give_back(text(schema), burn) {
            Returning::Run(plan) => plan,
            Returning::Ask(statement) => {
                let told = self.server.same_shape(&statement);
                Pool::shape_told(text(schema), told)
            }
        };
        self.server.run_all(&plan).expect("it to go back");
    }

    fn warm(&mut self, fingerprint: &str, want: usize) -> usize {
        let have = self
            .server
            .rows
            .iter()
            .filter(|row| row.fingerprint == fingerprint && !row.burn)
            .count() as i64;
        let short = Pool::warm(have, want);
        for _ in 0..short {
            self.build(fingerprint, false, false).expect("a schema");
        }
        short
    }
}

const SITE: &str = "5173000000000000";

/// A pool of one, out of sql.
fn warmed(want: usize) -> Run {
    let mut run = Run::new();
    run.capture(SITE, Recipe::Sql(vec![b"001.sql".to_vec()]), "CREATE TABLE site ();");
    assert_eq!(run.warm(SITE, want), want);
    run
}

#[test]
fn a_schema_that_comes_back_comes_back_empty() {
    let mut run = warmed(1);
    let schema = run.claim_from(SITE, false).expect("a schema");
    run.server.schemas.get_mut(&schema).expect("it").rows.push(text("left behind"));
    run.give_back(&schema, false);
    assert!(run.server.row(&schema).is_some(), "it was thrown away rather than recycled");
    let again = run.claim_from(SITE, false).expect("a schema");
    assert_eq!(again, schema);
    assert!(run.server.schemas[&again].rows.is_empty(), "it still had rows in it");
}

#[test]
fn a_run_of_leases_does_not_leave_schemas_behind() {
    let mut run = warmed(2);
    let before: Vec<String> = run.server.schemas.keys().cloned().collect();
    for _ in 0..20 {
        let schema = run.claim_from(SITE, false).expect("a schema");
        run.server.schemas.get_mut(&schema).expect("it").rows.push(text("passing through"));
        run.give_back(&schema, false);
    }
    let after: Vec<String> = run.server.schemas.keys().cloned().collect();
    assert_eq!(before, after);
}

#[test]
fn a_schema_whose_shape_moved_is_not_passed_on() {
    let mut run = warmed(1);
    let schema = run.claim_from(SITE, false).expect("a schema");
    run.server.schemas.get_mut(&schema).expect("it").shape.push_str("ALTER TABLE site");
    run.give_back(&schema, false);
    assert!(run.server.row(&schema).is_none(), "an altered schema went back into the pool");
    assert!(!run.server.schemas.contains_key(&schema));
    let next = run.claim_from(SITE, false).expect("a schema");
    assert_ne!(next, schema);
}

#[test]
fn no_two_leases_are_the_same_schema() {
    let mut run = warmed(3);
    let mut seen = HashSet::new();
    for _ in 0..8 {
        let schema = run.claim_from(SITE, false).expect("a schema");
        assert!(seen.insert(schema), "one schema was leased twice at once");
    }
}

#[test]
fn a_fresh_lease_is_thrown_away_afterwards() {
    let mut run = warmed(1);
    let schema = run.claim_from(SITE, true).expect("a schema of its own");
    let row = run.server.row(&schema).expect("a row");
    assert!(row.leased && row.burn);
    assert_eq!(row.holder, Some(text("here/b00t/100")));
    run.give_back(&schema, true);
    assert!(!run.server.schemas.contains_key(&schema), "a burn-after-use schema was kept");
    assert!(run.server.row(&schema).is_none());
    // The ready one was left for somebody else.
    assert_eq!(run.server.rows.len(), 1);
}

#[test]
fn a_lease_can_name_the_snapshot_it_wants() {
    let mut run = warmed(1);
    run.capture("named", Recipe::Sql(vec![b"002.sql".to_vec()]), "CREATE TABLE other ();");
    run.warm("named", 1);
    let schema = run.claim_from("named", false).expect("a schema");
    let row = run.server.row(&schema).expect("the row");
    assert_eq!(row.fingerprint, "named", "the lease came out of the wrong pool");
    assert_eq!(run.server.schemas[&schema].shape, "CREATE TABLE other ();\n;\n");
}

#[test]
fn replaying_a_snapshot_leaves_the_search_path_alone() {
    let mut run = warmed(0);
    run.build(SITE, true, true).expect("a schema from it");
    assert!(run.server.path.is_none());
    let replayed = run.server.said.iter().rev().find(|sql| sql.starts_with("SET search_path"));
    assert!(replayed.expect("it was replayed").ends_with("RESET search_path;"));
}

#[test]
fn replaying_a_dumped_snapshot_leaves_the_search_path_alone() {
    let mut run = Run::new();
    run.capture("dumped00", Recipe::Command(text("make")), "CREATE TABLE @hazir_schema@.a ();");
    assert!(run.server.path.is_none());
    let schema = run.build("dumped00", true, true).expect("a schema built from it");
    assert!(run.server.path.is_none(), "the connection lost its search path");
    assert!(run
        .server
        .said
        .contains(&format!("CREATE TABLE \"{schema}\".a ();")));
}

#[test]
fn taking_a_snapshot_leaves_nothing_else_behind() {
    let mut run = Run::new();
    run.capture("dumped00", Recipe::Command(text("make")), "CREATE TABLE @hazir_schema@.a ();");
    assert!(run.server.schemas.is_empty());
    assert!(run.server.rows.is_empty());
    assert!(run.server.current.is_none());
    let snapshot = &run.server.snapshots["dumped00"];
    assert_eq!(snapshot.2, "placeholder");
    let statement = Pool::set_current(text("dumped00"));
    run.server.run(&statement).expect("it to be set");
    assert_eq!(run.server.current, Some(text("dumped00")));
}

#[test]
fn a_build_that_fails_is_cleared_away_and_reported() {
    let mut run = warmed(0);
    let before = run.server.schemas.len();
    run.server.refuses = Some(text("SET search_path"));
    let failed = run.build(SITE, true, false);
    match failed {
        Err(err) => assert!(err.to_string().starts_with("postgres: refused SET search_path")),
        Ok(_) => panic!("it was built"),
    }
    assert_eq!(run.server.schemas.len(), before);
    assert!(run.server.rows.is_empty());
    let n = run.server.said.len();
    assert_eq!(run.server.said[n - 2], "RESET search_path");
    assert!(run.server.said[n - 1].starts_with("DROP SCHEMA IF EXISTS \"hazir_pool_"));
}

#[test]
fn a_dump_whose_path_cannot_be_put_back_is_cleared_away() {
    let mut run = Run::new();
    run.capture("dumped00", Recipe::Command(text("make")), "x");
    run.server.refuses = Some(text("RESET search_path"));
    assert!(run.build("dumped00", true, false).is_err());
    assert!(run.server.schemas.is_empty());
    assert!(run.server.rows.is_empty());
}

#[test]
fn a_schema_that_cannot_be_made_is_reported_and_nothing_else_is_done() {
    let mut run = warmed(0);
    run.server.refuses = Some(text("CREATE SCHEMA"));
    let n = run.server.said.len();
    assert!(run.build(SITE, true, false).is_err());
    assert_eq!(run.server.said.len(), n);
}

#[test]
fn a_schema_that_cannot_be_recorded_is_reported() {
    let mut run = warmed(0);
    run.server.refuses = Some(text("INSERT INTO hazir.pool"));
    assert!(run.build(SITE, true, false).is_err());
    assert!(run.server.rows.is_empty());
}

#[test]
fn a_snapshot_that_is_not_there_is_named_in_the_error() {
    let mut run = Run::new();
    match run.build("deadbeef", true, false) {
        Err(Error::UnknownSnapshot(fingerprint)) => assert_eq!(fingerprint, "deadbeef"),
        _ => panic!("it was built"),
    }
    let told = Pool::snapshot_told(text("a"), Some((text("ddl"), text("placeholder"))));
    match told {
        Ok((ddl, apply)) => {
            assert_eq!(ddl, "ddl");
            assert_eq!(apply, Apply::Placeholder);
        }
        Err(err) => panic!("{}", err.to_string()),
    }
}

#[test]
fn warming_makes_what_is_missing() {
    assert_eq!(Pool::warm(0, 16), 16);
    assert_eq!(Pool::warm(3, 16), 13);
    assert_eq!(Pool::warm(16, 16), 0);
    assert_eq!(Pool::warm(40, 16), 0);
    assert_eq!(Pool::warm(-5, 16), 16);
    assert_eq!(Pool::warm(i64::MAX, usize::MAX), usize::MAX - i64::MAX as usize);
    let mut run = warmed(3);
    assert_eq!(run.warm(SITE, 5), 2);
    assert_eq!(run.warm(SITE, 5), 0);
    assert_eq!(run.server.rows.len(), 5);
    assert!(run.server.rows.iter().all(|row| !row.leased && !row.burn && row.holder.is_none()));
}

#[test]
fn the_current_snapshot_is_asked_for_once() {
    let mut pool = Pool::new(text("postgres://h/db"));
    assert_eq!(pool.url(), "postgres://h/db");
    assert!(matches!(pool.current(None), Finding::Ask(Statement::FindCurrent)));
    assert!(matches!(pool.current(Some(text(""))), Finding::Ask(Statement::FindCurrent)));
    assert!(matches!(pool.current_told(None), Err(Error::NoSnapshot)));
    assert!(matches!(pool.current(None), Finding::Ask(Statement::FindCurrent)));
    assert_eq!(pool.current_told(Some(text("abc"))).ok(), Some(text("abc")));
    match pool.current(Some(text("other"))) {
        Finding::Found(fingerprint) => assert_eq!(fingerprint, "abc"),
        Finding::Ask(_) => panic!("it was asked for again"),
    }
}

#[test]
fn of_two_that_ask_together_the_first_answer_stays() {
    let mut pool = Pool::new(text("postgres://h/db"));
    assert!(matches!(pool.current(None), Finding::Ask(Statement::FindCurrent)));
    assert!(matches!(
        pool.claim(None, false, &me()),
        Wanting::Ask(Statement::FindCurrent)
    ));
    assert_eq!(pool.current_told(Some(text("first"))).ok(), Some(text("first")));
    assert_eq!(pool.current_told(Some(text("second"))).ok(), Some(text("first")));
    assert_eq!(pool.current_told(None).ok(), Some(text("first")));
    match pool.current(Some(text("third"))) {
        Finding::Found(fingerprint) => assert_eq!(fingerprint, "first"),
        Finding::Ask(_) => panic!("it was asked for again"),
    }
    match pool.claim(Some(text("fourth")), true, &me()) {
        Wanting::From { fingerprint, .. } => assert_eq!(fingerprint, "first"),
        Wanting::Ask(_) => panic!("it was asked for again"),
    }
}

#[test]
fn that_there_is_none_is_not_remembered() {
    let mut pool = Pool::new(text("postgres://h/db"));
    assert!(matches!(pool.current_told(None), Err(Error::NoSnapshot)));
    match pool.current(Some(text("named"))) {
        Finding::Found(fingerprint) => assert_eq!(fingerprint, "named"),
        Finding::Ask(_) => panic!("it was asked for"),
    }
    // Whoever had asked before it was named is given the same.
    assert_eq!(pool.current_told(Some(text("stored"))).ok(), Some(text("named")));
}

#[test]
fn a_schema_that_is_built_is_nobody_elses() {
    let mut run = warmed(2);
    let first = run.claim_from(SITE, false).expect("a schema");
    let before: Vec<String> = run.server.rows.iter().map(|row| row.name.clone()).collect();
    let built = run.build(SITE, true, false).expect("a schema");
    assert!(!before.contains(&built));
    let second = run.claim_from(SITE, false).expect("a schema");
    assert_ne!(first, second);
    assert_ne!(built, second);
    let after: Vec<String> = run.server.rows.iter().map(|row| row.name.clone()).collect();
    assert_eq!(after[..2], before[..]);
}

#[test]
fn a_capture_that_stops_short_changes_nothing() {
    let whole = {
        let mut run = warmed(1);
        let before = run.server.said.len();
        run.capture(SITE, Recipe::Command(text("make")), "another");
        run.server.said.len() - before
    };
    assert_eq!(whole, 9);
    for stop in ["CREATE SCHEMA", "another", "RESET search_path", "INSERT INTO hazir.snapshot"] {
        let mut run = warmed(1);
        let rows: Vec<String> = run.server.rows.iter().map(|row| row.name.clone()).collect();
        let stored = run.server.snapshots.clone();
        run.server.refuses = Some(text(stop));
        let first = capture(
            Recipe::Command(text("make")),
            text(SITE),
            text("postgres://h/db"),
            text("t"),
            text("s"),
        );
        run.capture_until_refused(first, "another");
        let after: Vec<String> = run.server.rows.iter().map(|row| row.name.clone()).collect();
        assert_eq!(rows, after);
        assert_eq!(stored, run.server.snapshots);
        assert_eq!(run.server.current, None);
    }
}

#[test]
fn a_snapshot_that_is_named_need_not_be_asked_for() {
    let mut pool = Pool::new(text("postgres://h/db"));
    match pool.current(Some(text("named"))) {
        Finding::Found(fingerprint) => assert_eq!(fingerprint, "named"),
        Finding::Ask(_) => panic!("it was asked for"),
    }
    match pool.current(None) {
        Finding::Found(fingerprint) => assert_eq!(fingerprint, "named"),
        Finding::Ask(_) => panic!("it was forgotten"),
    }
}

#[test]
fn a_claim_is_on_the_current_snapshot() {
    let mut pool = Pool::new(text("postgres://h/db"));
    assert!(matches!(
        pool.claim(None, false, &me()),
        Wanting::Ask(Statement::FindCurrent)
    ));
    match pool.claim(Some(text("abc")), false, &me()) {
        Wanting::From { fingerprint, first: Claiming::Ask(Statement::Claim { fingerprint: asked, holder }) } => {
            assert_eq!(fingerprint, "abc");
            assert_eq!(asked, "abc");
            assert_eq!(holder, "here/b00t/100");
        }
        _ => panic!("nothing was claimed"),
    }
    match pool.claim(None, true, &me()) {
        Wanting::From { fingerprint, first: Claiming::Build { leased, burn } } => {
            assert_eq!(fingerprint, "abc");
            assert!(leased && burn);
        }
        _ => panic!("nothing was built"),
    }
}

#[test]
fn a_claim_that_finds_nothing_ready_has_one_built() {
    assert!(matches!(
        Pool::claim_told(None),
        Claiming::Build { leased: true, burn: false }
    ));
    let mut run = warmed(0);
    let schema = run.claim_from(SITE, false).expect("a schema");
    let row = run.server.row(&schema).expect("a row");
    assert!(row.leased && !row.burn);
    assert_eq!(row.holder, Some(text("here/b00t/100")));
}

#[test]
fn leases_are_reached_in_their_schemas() {
    let pool = Pool::new(text("postgres://h/db"));
    let lease = pool.lease(text("s"));
    assert_eq!(lease.url(), "postgres://h/db?options=-csearch_path%3Ds");
    assert_eq!(lease.schema(), "s");
    assert!(!lease.burn());
    let lease = pool.lease_fresh(text("t"));
    assert_eq!(lease.url(), "postgres://h/db?options=-csearch_path%3Dt");
    assert_eq!(lease.schema(), "t");
    assert!(lease.burn());
}

#[test]
fn forgetting_drops_what_is_not_kept() {
    let mut run = warmed(2);
    run.capture("other000", Recipe::Sql(vec![b"002.sql".to_vec()]), "CREATE TABLE other ();");
    run.warm("other000", 11);
    let keep = vec![text(SITE)];
    let going: Vec<String> = run
        .server
        .rows
        .iter()
        .filter(|row| row.fingerprint != SITE)
        .map(|row| row.name.clone())
        .collect();
    let (plan, dropped) = Pool::forget(&keep, &going, &vec![text("a_seed")]);
    assert_eq!(dropped, 11);
    assert_eq!(plan.len(), 4);
    match (&plan[0], &plan[1]) {
        (Statement::DropSchemas { names: first }, Statement::DropSchemas { names: second }) => {
            assert_eq!(first[..], going[..10]);
            assert_eq!(second[..], [going[10].clone(), text("a_seed")]);
        }
        _ => panic!("nothing was dropped"),
    }
    run.server.run_all(&plan).expect("it to be forgotten");
    assert_eq!(run.server.rows.len(), 2);
    assert_eq!(run.server.schemas.len(), 2);
    assert_eq!(run.server.snapshots.keys().collect::<Vec<_>>(), vec![SITE]);
}

#[test]
fn what_is_cleaned_is_gone() {
    let mut run = warmed(12);
    run.server.run(&Pool::set_current(text(SITE))).expect("it to be set");
    run.server.schemas.insert(text("somebody else's"), Schema::default());
    let names: Vec<String> = run.server.rows.iter().map(|row| row.name.clone()).collect();
    let (plan, said) = clean(&names);
    assert_eq!(said, "dropped 12 schemas");
    run.server.run_all(&plan).expect("it to go");
    assert!(run.server.rows.is_empty());
    assert!(run.server.snapshots.is_empty());
    assert_eq!(run.server.current, None);
    assert_eq!(run.server.schemas.keys().collect::<Vec<_>>(), vec!["somebody else's"]);
}

#[test]
fn nothing_is_swept_where_there_is_nothing() {
    assert!(sweep(&vec![]).is_empty());
    let (plan, dropped) = Pool::forget(&vec![], &vec![], &vec![]);
    assert_eq!(dropped, 0);
    assert_eq!(plan.len(), 2);
    let ten: Vec<String> = (0..10).map(|n| n.to_string()).collect();
    assert_eq!(sweep(&ten).len(), 1);
}

#[test]
fn a_lease_is_never_called_stale_within_a_second() {
    assert!(matches!(Pool::ask_held(0, 999_999_999), Statement::Held { seconds: 1, nanos: 0 }));
    assert!(matches!(Pool::ask_held(1, 5), Statement::Held { seconds: 1, nanos: 5 }));
    assert!(matches!(Pool::ask_held(900, 0), Statement::Held { seconds: 900, nanos: 0 }));
}

fn held(schema: &str, holder: Option<&str>, overdue: Option<bool>) -> Held {
    Held { schema: text(schema), holder: holder.map(text), burn: false, overdue }
}

#[test]
fn what_a_finished_process_was_holding_comes_back() {
    let all = vec![
        held("gone", Some("here/b00t/7"), Some(false)),
        held("running", Some("here/b00t/8"), Some(true)),
        held("mine", Some("here/b00t/100"), Some(true)),
        held("elsewhere", Some("there/b00t/7"), Some(false)),
        held("elsewhere and old", Some("there/b00t/7"), Some(true)),
        held("another boot", Some("here/other/7"), None),
        held("unreadable", Some("nonsense"), Some(false)),
        held("unreadable and old", Some("nonsense"), Some(true)),
        held("nobody's", None, None),
        held("nobody's and old", None, Some(true)),
    ];
    assert_eq!(all[0].pid(), Some(7));
    assert_eq!(all[6].pid(), None);
    assert_eq!(all[8].pid(), None);
    let all: Vec<(Held, Option<bool>)> = all
        .into_iter()
        .map(|one| {
            let running = one.pid().map(|pid| pid == 8);
            (one, running)
        })
        .collect();
    let back = Pool::reclaim(all, &me());
    let names: Vec<&str> = back.iter().map(|one| one.schema.as_str()).collect();
    assert_eq!(
        names,
        vec!["gone", "elsewhere and old", "unreadable and old", "nobody's and old"]
    );
}

#[test]
fn where_the_machine_cannot_say_a_lease_is_left_to_its_age() {
    let young = held("s", Some("here/b00t/7"), Some(false));
    let old = held("s", Some("here/b00t/7"), Some(true));
    assert!(!young.finished(&me(), None));
    assert!(old.finished(&me(), None));
    assert!(young.finished(&me(), Some(false)));
    assert!(!old.finished(&me(), Some(true)));
}

#[test]
fn a_schema_nobody_can_answer_for_is_thrown_away() {
    for told in [None, Some(None), Some(Some(false))] {
        let plan = Pool::shape_told(text("s"), told);
        assert_eq!(plan.len(), 2);
        assert!(matches!(&plan[0], Statement::DropSchema { name } if name == "s"));
        assert!(matches!(&plan[1], Statement::ForgetSchema { name } if name == "s"));
    }
    let plan = Pool::shape_told(text("s"), Some(Some(true)));
    assert_eq!(plan.len(), 3);
    assert!(matches!(&plan[0], Statement::Wipe { name } if name == "s"));
    assert!(matches!(&plan[1], Statement::Reseed { name } if name == "s"));
    assert!(matches!(&plan[2], Statement::MakeReady { name } if name == "s"));
}

#[test]
fn a_command_builds_in_a_template_and_is_dumped() {
    let first = capture(
        Recipe::Command(text("make")),
        text("abc"),
        text("postgres://h/db"),
        text("t"),
        text("s"),
    );
    let CaptureStep::Run(state, plan) = first else {
        panic!("no template was made");
    };
    assert_eq!(plan.len(), 2);
    assert_eq!(plan[0].sql(), "DROP SCHEMA IF EXISTS \"t\" CASCADE");
    assert_eq!(plan[1].sql(), "CREATE SCHEMA \"t\"");
    let CaptureStep::Migrate { state, command, url, schema } = state.ran() else {
        panic!("nothing was built in it");
    };
    assert_eq!(command, "make");
    assert_eq!(url, "postgres://h/db?options=-csearch_path%3Dt");
    assert_eq!(schema, "t");
    let CaptureStep::Dump { state, url, template } = state.migrated() else {
        panic!("it was not dumped");
    };
    assert_eq!(url, "postgres://h/db");
    assert_eq!(template, "t");
    let CaptureStep::Run(state, plan) = state.dumped(text("ddl")) else {
        panic!("the template was left");
    };
    assert_eq!(plan.len(), 1);
    assert_eq!(plan[0].sql(), "DROP SCHEMA IF EXISTS \"t\" CASCADE");
    let CaptureStep::Run(state, plan) = state.ran() else {
        panic!("it was not built again");
    };
    let said: Vec<String> = plan.iter().map(|statement| statement.sql()).collect();
    assert_eq!(
        said,
        vec![
            "DROP SCHEMA IF EXISTS \"s\" CASCADE",
            "CREATE SCHEMA \"s\"",
            "ddl",
            "RESET search_path",
        ]
    );
    look_and_store(state, "ddl", Apply::Placeholder);
}

#[test]
fn sql_is_read_and_looked_at() {
    let first = capture(
        Recipe::Sql(vec![b"1.sql".to_vec(), b"2.sql".to_vec()]),
        text("abc"),
        text("postgres://h/db"),
        text("t"),
        text("s"),
    );
    let CaptureStep::Read(state, files) = first else {
        panic!("nothing was read");
    };
    assert_eq!(files, vec![b"1.sql".to_vec(), b"2.sql".to_vec()]);
    let CaptureStep::Run(state, plan) = state.files_read(&vec![text("one"), text("two\n")]) else {
        panic!("it was not built");
    };
    let said: Vec<String> = plan.iter().map(|statement| statement.sql()).collect();
    assert_eq!(
        said,
        vec![
            "DROP SCHEMA IF EXISTS \"s\" CASCADE",
            "CREATE SCHEMA \"s\"",
            "SET search_path TO \"s\";\none\n;\ntwo\n;\n\n;RESET search_path;",
        ]
    );
    look_and_store(state, "one\n;\ntwo\n;\n", Apply::SearchPath);
}

/// The end of taking a snapshot.
fn look_and_store(state: Running, text_of_it: &str, how: Apply) {
    let CaptureStep::Ask(state, Statement::ShapeOf { name }) = state.ran() else {
        panic!("it was not looked at");
    };
    assert_eq!(name, "s");
    let CaptureStep::Run(state, plan) = state.looks(text("the shape")) else {
        panic!("it was not stored");
    };
    assert_eq!(plan.len(), 2);
    assert_eq!(plan[0].sql(), "DROP SCHEMA IF EXISTS \"s\" CASCADE");
    match &plan[1] {
        Statement::Store { fingerprint, ddl, shape, apply } => {
            assert_eq!(fingerprint, "abc");
            assert_eq!(ddl, text_of_it);
            assert_eq!(shape, "the shape");
            assert_eq!(*apply, how);
        }
        other => panic!("{}", other.sql()),
    }
    let CaptureStep::Done(snapshot) = state.ran() else {
        panic!("it went on");
    };
    assert_eq!(snapshot.fingerprint, "abc");
    assert_eq!(snapshot.ddl, text_of_it);
    assert_eq!(snapshot.shape, "the shape");
    assert_eq!(snapshot.apply, how);
}
