//! What is said to the database, and how it is written.

use vstd::prelude::*;

use crate::name::{quote, quoted};
use crate::number::{decimal, write_decimal};
use crate::snapshot::{apply_name, statements_of, Apply};
use crate::text::{join, texts};

verus! {

/// An arbitrary number, and only ever compared with itself.
pub const BOOTSTRAP_LOCK: u64 = 6_174_310_982_745_113;

/// Asks for the current snapshot.
pub const FIND_CURRENT: &'static str = "SELECT fingerprint FROM hazir.current";

/// Sets the current snapshot.
pub const SET_CURRENT: &'static str = "INSERT INTO hazir.current (sole, fingerprint) VALUES (true, $1)
 ON CONFLICT (sole) DO UPDATE SET fingerprint = EXCLUDED.fingerprint";

/// Leases a ready schema. `SKIP LOCKED` because two processes reaching for
/// the last ready row is the normal case, not the rare one, and without it
/// the second waits for the first's transaction rather than taking the next
/// row along.
pub const CLAIM: &'static str = "UPDATE hazir.pool AS p
    SET state = 'leased', holder = $2, held_since = now()
  WHERE p.id = (SELECT id FROM hazir.pool
                 WHERE state = 'ready' AND fingerprint = $1
                 ORDER BY id
                   FOR UPDATE SKIP LOCKED
                 LIMIT 1)
RETURNING p.schema_name";

/// Counts the schemas of a snapshot that are kept.
pub const COUNT_SCHEMAS: &'static str = "SELECT count(*) FROM hazir.pool WHERE fingerprint = $1 AND NOT burn";

/// Asks for the schemas of every snapshot but some.
pub const SCHEMAS_OF_OTHERS: &'static str = "SELECT schema_name FROM hazir.pool WHERE fingerprint <> ALL($1)";

/// Asks for the seeds of every snapshot but some.
pub const SEEDS_OF_OTHERS: &'static str = "SELECT seed FROM hazir.snapshot
 WHERE fingerprint <> ALL($1) AND seed IS NOT NULL";

/// Strikes off the schemas of every snapshot but some.
pub const FORGET_SCHEMAS_OF_OTHERS: &'static str = "DELETE FROM hazir.pool WHERE fingerprint <> ALL($1)";

/// Strikes off every snapshot but some.
pub const FORGET_OTHERS: &'static str = "DELETE FROM hazir.snapshot WHERE fingerprint <> ALL($1)";

/// Asks for the leases, and whether each is overdue.
pub const HELD: &'static str = "SELECT schema_name, holder, burn,
       held_since < now() - make_interval(secs => $1) AS overdue
  FROM hazir.pool
 WHERE state = 'leased'";

/// Strikes a schema off.
pub const FORGET_SCHEMA: &'static str = "DELETE FROM hazir.pool WHERE schema_name = $1";

/// Empties a schema.
pub const WIPE: &'static str = "SELECT hazir.wipe($1)";

/// Puts back what the migrations wrote, out of the seed of the schema's
/// snapshot; nothing where no seed is recorded.
pub const RESEED: &'static str = "SELECT hazir.reseed($1, (SELECT s.seed FROM hazir.pool p
                           JOIN hazir.snapshot s
                             ON s.fingerprint = p.fingerprint
                          WHERE p.schema_name = $1))";

/// Makes a schema ready.
pub const MAKE_READY: &'static str = "UPDATE hazir.pool
   SET state = 'ready', holder = NULL, held_since = NULL
 WHERE schema_name = $1";

/// Asks whether a schema looks as its snapshot does.
pub const SAME_SHAPE: &'static str = "SELECT s.shape = hazir.shape(p.schema_name)
  FROM hazir.pool p
  JOIN hazir.snapshot s ON s.fingerprint = p.fingerprint
 WHERE p.schema_name = $1";

/// Asks for a snapshot.
pub const FIND_SNAPSHOT: &'static str = "SELECT ddl, apply FROM hazir.snapshot WHERE fingerprint = $1";

/// Puts the search path back.
pub const RESET_PATH: &'static str = "RESET search_path";

/// Writes a schema into the books.
pub const RECORD: &'static str = "INSERT INTO hazir.pool (schema_name, fingerprint, state, burn, holder, held_since)
 VALUES ($1, $2, $3, $4, $5::text,
         CASE WHEN $5::text IS NULL THEN NULL ELSE now() END)";

/// Asks what a schema looks like.
pub const SHAPE_OF: &'static str = "SELECT hazir.shape($1)";

/// Writes a snapshot into the books, in place of what was there of it. A seed
/// is left as it was, and a new snapshot has none.
pub const STORE: &'static str = "INSERT INTO hazir.snapshot (fingerprint, ddl, shape, apply)
 VALUES ($1, $2, $3, $4)
 ON CONFLICT (fingerprint) DO UPDATE
    SET ddl = EXCLUDED.ddl, shape = EXCLUDED.shape, apply = EXCLUDED.apply";

/// Counts a snapshot.
pub const COUNT_SNAPSHOTS: &'static str = "SELECT count(*) FROM hazir.snapshot WHERE fingerprint = $1";

/// Counts the schemas of each snapshot in each state.
pub const TALLY: &'static str = "SELECT fingerprint, state, count(*) FROM hazir.pool
 GROUP BY fingerprint, state ORDER BY fingerprint, state";

/// Asks for every schema in the books.
pub const ALL_SCHEMAS: &'static str = "SELECT schema_name FROM hazir.pool";

/// Takes down the books.
pub const DROP_BOOKS: &'static str = "DROP SCHEMA hazir CASCADE";

/// What is said to the database.
pub enum Statement {
    /// Make the tables the pool keeps, out of this text, if they are not
    /// there.
    Bootstrap { body: String },
    /// Which snapshot is current?
    FindCurrent,
    /// This snapshot is the current one.
    SetCurrent { fingerprint: String },
    /// Lease a ready schema of this snapshot to this holder, and say which.
    Claim { fingerprint: String, holder: String },
    /// How many schemas to keep are there of this snapshot?
    CountSchemas { fingerprint: String },
    /// Which schemas are of none of these snapshots?
    SchemasOfOthers { keep: Vec<String> },
    /// Which seeds are of none of these snapshots?
    SeedsOfOthers { keep: Vec<String> },
    /// Strike off every schema that is of none of these snapshots.
    ForgetSchemasOfOthers { keep: Vec<String> },
    /// Strike off every snapshot but these.
    ForgetOthers { keep: Vec<String> },
    /// Which schemas are leased, to whom, and are they overdue after this
    /// long?
    Held { seconds: u64, nanos: u32 },
    /// Take down schemas, and everything in them.
    DropSchemas { names: Vec<String> },
    /// Take down a schema, and everything in it.
    DropSchema { name: String },
    /// Make an empty schema.
    CreateSchema { name: String },
    /// Strike a schema off.
    ForgetSchema { name: String },
    /// Empty every table of a schema.
    Wipe { name: String },
    /// Put back what the migrations wrote into a schema, out of its snapshot's
    /// seed, where one is recorded.
    Reseed { name: String },
    /// A schema is ready to be leased.
    MakeReady { name: String },
    /// Does a schema look as its snapshot does?
    SameShape { name: String },
    /// How is a snapshot rebuilt?
    FindSnapshot { fingerprint: String },
    /// Build a snapshot's tables in a schema.
    Replay { apply: Apply, ddl: String, name: String },
    /// Put the search path back.
    ResetPath,
    /// Write a schema into the books.
    Record { name: String, fingerprint: String, leased: bool, burn: bool, holder: Option<String> },
    /// What does a schema look like?
    ShapeOf { name: String },
    /// Write a snapshot into the books.
    Store { fingerprint: String, ddl: String, shape: String, apply: Apply },
    /// Is a snapshot in the books?
    CountSnapshots { fingerprint: String },
    /// How many schemas are there of each snapshot in each state?
    Tally,
    /// Which schemas are in the books?
    AllSchemas,
    /// Take down the books themselves.
    DropBooks,
}

/// A value bound to a statement.
pub enum Param<'a> {
    /// A text.
    Text(&'a String),
    /// A text, or nothing.
    MaybeText(&'a Option<String>),
    /// A word that is always the same.
    Word(&'static str),
    /// Yes or no.
    Flag(bool),
    /// Several texts.
    Texts(&'a Vec<String>),
    /// A length of time.
    Seconds { seconds: u64, nanos: u32 },
}

/// Names as identifiers, with commas between them.
pub open spec fn listed(names: Seq<Seq<char>>) -> Seq<char> {
    join(names.map_values(|name: Seq<char>| quoted(name)), ", "@)
}

/// What takes down schemas.
pub open spec fn drop_text(list: Seq<char>) -> Seq<char> {
    "DROP SCHEMA IF EXISTS "@ + list + " CASCADE"@
}

/// What makes the pool's tables: behind a lock, and in one transaction.
pub open spec fn bootstrap_text(body: Seq<char>) -> Seq<char> {
    "BEGIN;\nSELECT pg_advisory_xact_lock("@ + decimal(BOOTSTRAP_LOCK as nat) + ");\n"@ + body
        + "\nCOMMIT;"@
}

/// A statement, written.
pub open spec fn sql_of(statement: Statement) -> Seq<char> {
    match statement {
        Statement::Bootstrap { body } => bootstrap_text(body@),
        Statement::FindCurrent => FIND_CURRENT@,
        Statement::SetCurrent { .. } => SET_CURRENT@,
        Statement::Claim { .. } => CLAIM@,
        Statement::CountSchemas { .. } => COUNT_SCHEMAS@,
        Statement::SchemasOfOthers { .. } => SCHEMAS_OF_OTHERS@,
        Statement::SeedsOfOthers { .. } => SEEDS_OF_OTHERS@,
        Statement::ForgetSchemasOfOthers { .. } => FORGET_SCHEMAS_OF_OTHERS@,
        Statement::ForgetOthers { .. } => FORGET_OTHERS@,
        Statement::Held { .. } => HELD@,
        Statement::DropSchemas { names } => drop_text(listed(texts(names@))),
        Statement::DropSchema { name } => drop_text(quoted(name@)),
        Statement::CreateSchema { name } => "CREATE SCHEMA "@ + quoted(name@),
        Statement::ForgetSchema { .. } => FORGET_SCHEMA@,
        Statement::Wipe { .. } => WIPE@,
        Statement::Reseed { .. } => RESEED@,
        Statement::MakeReady { .. } => MAKE_READY@,
        Statement::SameShape { .. } => SAME_SHAPE@,
        Statement::FindSnapshot { .. } => FIND_SNAPSHOT@,
        Statement::Replay { apply, ddl, name } => statements_of(apply, ddl@, name@),
        Statement::ResetPath => RESET_PATH@,
        Statement::Record { .. } => RECORD@,
        Statement::ShapeOf { .. } => SHAPE_OF@,
        Statement::Store { .. } => STORE@,
        Statement::CountSnapshots { .. } => COUNT_SNAPSHOTS@,
        Statement::Tally => TALLY@,
        Statement::AllSchemas => ALL_SCHEMAS@,
        Statement::DropBooks => DROP_BOOKS@,
    }
}

/// What is bound to a statement, in order.
pub open spec fn params_of<'a>(statement: &'a Statement) -> Seq<Param<'a>> {
    match statement {
        Statement::SetCurrent { fingerprint } => seq![Param::Text(fingerprint)],
        Statement::Claim { fingerprint, holder } => seq![Param::Text(fingerprint), Param::Text(holder)],
        Statement::CountSchemas { fingerprint } => seq![Param::Text(fingerprint)],
        Statement::SchemasOfOthers { keep } => seq![Param::Texts(keep)],
        Statement::SeedsOfOthers { keep } => seq![Param::Texts(keep)],
        Statement::ForgetSchemasOfOthers { keep } => seq![Param::Texts(keep)],
        Statement::ForgetOthers { keep } => seq![Param::Texts(keep)],
        Statement::Held { seconds, nanos } => seq![Param::Seconds { seconds: *seconds, nanos: *nanos }],
        Statement::ForgetSchema { name } => seq![Param::Text(name)],
        Statement::Wipe { name } => seq![Param::Text(name)],
        Statement::Reseed { name } => seq![Param::Text(name)],
        Statement::MakeReady { name } => seq![Param::Text(name)],
        Statement::SameShape { name } => seq![Param::Text(name)],
        Statement::FindSnapshot { fingerprint } => seq![Param::Text(fingerprint)],
        Statement::Record { name, fingerprint, leased, burn, holder } => seq![
            Param::Text(name),
            Param::Text(fingerprint),
            Param::Word(if *leased {
                "leased"
            } else {
                "ready"
            }),
            Param::Flag(*burn),
            Param::MaybeText(holder),
        ],
        Statement::ShapeOf { name } => seq![Param::Text(name)],
        Statement::Store { fingerprint, ddl, shape, apply } => seq![
            Param::Text(fingerprint),
            Param::Text(ddl),
            Param::Text(shape),
            Param::Word(apply_name(*apply)),
        ],
        Statement::CountSnapshots { fingerprint } => seq![Param::Text(fingerprint)],
        _ => Seq::<Param<'a>>::empty(),
    }
}

/// Whether a statement is run as it is written, nothing bound to it, and may
/// be several in one: those that make and take down schemas, build in them,
/// and set the connection right.
pub open spec fn is_script(statement: Statement) -> bool {
    ||| statement is Bootstrap
    ||| statement is DropSchemas
    ||| statement is DropSchema
    ||| statement is CreateSchema
    ||| statement is Replay
    ||| statement is ResetPath
    ||| statement is DropBooks
}

/// What takes down one schema.
fn drop_one(name: &str) -> (r: String)
    ensures
        r@ == drop_text(quoted(name@)),
{
    let mut r = "DROP SCHEMA IF EXISTS ".to_owned();
    r.append(quote(name).as_str());
    r.append(" CASCADE");
    r
}

/// What takes down several schemas.
fn drop_several(names: &Vec<String>) -> (r: String)
    ensures
        r@ == drop_text(listed(texts(names@))),
{
    let mut list = String::new();
    let ghost all = texts(names@).map_values(|name: Seq<char>| quoted(name));
    for i in 0..names.len()
        invariant
            all == texts(names@).map_values(|name: Seq<char>| quoted(name)),
            list@ == join(all.take(i as int), ", "@),
    {
        let ghost so_far = all.take(i + 1);
        proof {
            assert(so_far.drop_last() =~= all.take(i as int));
            assert(so_far.last() == quoted(names@[i as int]@));
        }
        if i > 0 {
            list.append(", ");
        }
        list.append(quote(names[i].as_str()).as_str());
        proof {
            if i == 0 {
                assert(list@ =~= so_far[0]);
            }
        }
    }
    proof {
        assert(all.take(all.len() as int) =~= all);
    }
    let mut r = "DROP SCHEMA IF EXISTS ".to_owned();
    r.append(list.as_str());
    r.append(" CASCADE");
    r
}

impl Statement {
    /// The statement, written.
    pub fn sql(&self) -> (r: String)
        ensures
            r@ == sql_of(*self),
    {
        match self {
            Statement::Bootstrap { body } => {
                let mut r = "BEGIN;\nSELECT pg_advisory_xact_lock(".to_owned();
                write_decimal(&mut r, BOOTSTRAP_LOCK);
                r.append(");\n");
                r.append(body.as_str());
                r.append("\nCOMMIT;");
                r
            },
            Statement::FindCurrent => FIND_CURRENT.to_owned(),
            Statement::SetCurrent { .. } => SET_CURRENT.to_owned(),
            Statement::Claim { .. } => CLAIM.to_owned(),
            Statement::CountSchemas { .. } => COUNT_SCHEMAS.to_owned(),
            Statement::SchemasOfOthers { .. } => SCHEMAS_OF_OTHERS.to_owned(),
            Statement::SeedsOfOthers { .. } => SEEDS_OF_OTHERS.to_owned(),
            Statement::ForgetSchemasOfOthers { .. } => FORGET_SCHEMAS_OF_OTHERS.to_owned(),
            Statement::ForgetOthers { .. } => FORGET_OTHERS.to_owned(),
            Statement::Held { .. } => HELD.to_owned(),
            Statement::DropSchemas { names } => drop_several(names),
            Statement::DropSchema { name } => drop_one(name.as_str()),
            Statement::CreateSchema { name } => {
                let mut r = "CREATE SCHEMA ".to_owned();
                r.append(quote(name.as_str()).as_str());
                r
            },
            Statement::ForgetSchema { .. } => FORGET_SCHEMA.to_owned(),
            Statement::Wipe { .. } => WIPE.to_owned(),
            Statement::Reseed { .. } => RESEED.to_owned(),
            Statement::MakeReady { .. } => MAKE_READY.to_owned(),
            Statement::SameShape { .. } => SAME_SHAPE.to_owned(),
            Statement::FindSnapshot { .. } => FIND_SNAPSHOT.to_owned(),
            Statement::Replay { apply, ddl, name } => apply.statements(ddl.as_str(), name.as_str()),
            Statement::ResetPath => RESET_PATH.to_owned(),
            Statement::Record { .. } => RECORD.to_owned(),
            Statement::ShapeOf { .. } => SHAPE_OF.to_owned(),
            Statement::Store { .. } => STORE.to_owned(),
            Statement::CountSnapshots { .. } => COUNT_SNAPSHOTS.to_owned(),
            Statement::Tally => TALLY.to_owned(),
            Statement::AllSchemas => ALL_SCHEMAS.to_owned(),
            Statement::DropBooks => DROP_BOOKS.to_owned(),
        }
    }

    /// Whether it is run as it is written, nothing bound to it.
    pub fn script(&self) -> (r: bool)
        ensures
            r == is_script(*self),
            r ==> params_of(self).len() == 0,
    {
        match self {
            Statement::Bootstrap { .. } => true,
            Statement::DropSchemas { .. } => true,
            Statement::DropSchema { .. } => true,
            Statement::CreateSchema { .. } => true,
            Statement::Replay { .. } => true,
            Statement::ResetPath => true,
            Statement::DropBooks => true,
            _ => false,
        }
    }

    /// What is bound to it, in order.
    pub fn params(&self) -> (r: Vec<Param<'_>>)
        ensures
            r@ == params_of(self),
    {
        let mut r: Vec<Param<'_>> = Vec::new();
        match self {
            Statement::SetCurrent { fingerprint } => {
                r.push(Param::Text(fingerprint));
            },
            Statement::Claim { fingerprint, holder } => {
                r.push(Param::Text(fingerprint));
                r.push(Param::Text(holder));
            },
            Statement::CountSchemas { fingerprint } => {
                r.push(Param::Text(fingerprint));
            },
            Statement::SchemasOfOthers { keep } => {
                r.push(Param::Texts(keep));
            },
            Statement::SeedsOfOthers { keep } => {
                r.push(Param::Texts(keep));
            },
            Statement::ForgetSchemasOfOthers { keep } => {
                r.push(Param::Texts(keep));
            },
            Statement::ForgetOthers { keep } => {
                r.push(Param::Texts(keep));
            },
            Statement::Held { seconds, nanos } => {
                r.push(Param::Seconds { seconds: *seconds, nanos: *nanos });
            },
            Statement::ForgetSchema { name } => {
                r.push(Param::Text(name));
            },
            Statement::Wipe { name } => {
                r.push(Param::Text(name));
            },
            Statement::Reseed { name } => {
                r.push(Param::Text(name));
            },
            Statement::MakeReady { name } => {
                r.push(Param::Text(name));
            },
            Statement::SameShape { name } => {
                r.push(Param::Text(name));
            },
            Statement::FindSnapshot { fingerprint } => {
                r.push(Param::Text(fingerprint));
            },
            Statement::Record { name, fingerprint, leased, burn, holder } => {
                r.push(Param::Text(name));
                r.push(Param::Text(fingerprint));
                r.push(
                    Param::Word(
                        if *leased {
                            "leased"
                        } else {
                            "ready"
                        },
                    ),
                );
                r.push(Param::Flag(*burn));
                r.push(Param::MaybeText(holder));
            },
            Statement::ShapeOf { name } => {
                r.push(Param::Text(name));
            },
            Statement::Store { fingerprint, ddl, shape, apply } => {
                r.push(Param::Text(fingerprint));
                r.push(Param::Text(ddl));
                r.push(Param::Text(shape));
                r.push(Param::Word(apply.name()));
            },
            Statement::CountSnapshots { fingerprint } => {
                r.push(Param::Text(fingerprint));
            },
            _ => {},
        }
        proof {
            assert(r@ =~= params_of(self));
        }
        r
    }
}

/// What is bound to a statement is never written into it: whatever the values
/// are, the text is the same.
pub proof fn law_what_is_bound_is_not_written(
    a: String,
    b: String,
    x: String,
    y: String,
    one: Vec<String>,
    other: Vec<String>,
    first: Statement,
    second: Statement,
)
    ensures
        sql_of(Statement::CountSchemas { fingerprint: a }) == sql_of(Statement::CountSchemas { fingerprint: x }),
        sql_of(Statement::FindSnapshot { fingerprint: a }) == sql_of(Statement::FindSnapshot { fingerprint: x }),
        sql_of(Statement::CountSnapshots { fingerprint: a }) == sql_of(Statement::CountSnapshots { fingerprint: x }),
        sql_of(Statement::SetCurrent { fingerprint: a }) == sql_of(Statement::SetCurrent { fingerprint: x }),
        sql_of(Statement::ForgetSchema { name: a }) == sql_of(Statement::ForgetSchema { name: x }),
        sql_of(Statement::Wipe { name: a }) == sql_of(Statement::Wipe { name: x }),
        sql_of(Statement::Reseed { name: a }) == sql_of(Statement::Reseed { name: x }),
        sql_of(Statement::MakeReady { name: a }) == sql_of(Statement::MakeReady { name: x }),
        sql_of(Statement::SameShape { name: a }) == sql_of(Statement::SameShape { name: x }),
        sql_of(Statement::ShapeOf { name: a }) == sql_of(Statement::ShapeOf { name: x }),
        sql_of(Statement::SchemasOfOthers { keep: one }) == sql_of(Statement::SchemasOfOthers { keep: other }),
        sql_of(Statement::SeedsOfOthers { keep: one }) == sql_of(Statement::SeedsOfOthers { keep: other }),
        sql_of(Statement::ForgetSchemasOfOthers { keep: one }) == sql_of(Statement::ForgetSchemasOfOthers { keep: other }),
        sql_of(Statement::ForgetOthers { keep: one }) == sql_of(Statement::ForgetOthers { keep: other }),
        sql_of(Statement::Claim { fingerprint: a, holder: b }) == sql_of(
            Statement::Claim { fingerprint: x, holder: y },
        ),
        first is Held && second is Held ==> sql_of(first) == sql_of(second),
        first is Record && second is Record ==> sql_of(first) == sql_of(second),
        first is Store && second is Store ==> sql_of(first) == sql_of(second),
{
}

/// Names are written as identifiers, whatever they are, and several of them
/// with a comma between each two; nothing else of a script depends on them.
pub proof fn law_names_are_written_as_identifiers(
    name: String,
    names: Vec<String>,
    apply: Apply,
    ddl: String,
)
    ensures
        sql_of(Statement::CreateSchema { name }) == "CREATE SCHEMA "@ + quoted(name@),
        sql_of(Statement::DropSchema { name }) == "DROP SCHEMA IF EXISTS "@ + quoted(name@) + " CASCADE"@,
        sql_of(Statement::DropSchemas { names }) == "DROP SCHEMA IF EXISTS "@ + join(
            Seq::new(names@.len(), |i: int| quoted(names@[i]@)),
            ", "@,
        ) + " CASCADE"@,
        sql_of(Statement::Replay { apply, ddl, name }) == statements_of(apply, ddl@, name@),
{
    assert(texts(names@).map_values(|name: Seq<char>| quoted(name)) =~= Seq::new(
        names@.len(),
        |i: int| quoted(names@[i]@),
    ));
}

/// The text that makes the pool's tables stands whole in what is run, and what
/// stands around it, the lock and the transaction, is always the same.
pub proof fn law_the_tables_are_made_under_a_lock(body: String, other: String)
    ensures
        ({
            let one = sql_of(Statement::Bootstrap { body });
            let two = sql_of(Statement::Bootstrap { body: other });
            let n = ("BEGIN;\nSELECT pg_advisory_xact_lock("@ + decimal(6_174_310_982_745_113) + ");\n"@).len() as int;
            &&& "BEGIN;\nSELECT pg_advisory_xact_lock("@.is_prefix_of(one)
            &&& one.subrange(n, n + body@.len()) == body@
            &&& one.skip(n + body@.len()) == "\nCOMMIT;"@
            &&& one.take(n) == two.take(n)
        }),
{
    let head = "BEGIN;\nSELECT pg_advisory_xact_lock("@ + decimal(6_174_310_982_745_113) + ");\n"@;
    let n = head.len() as int;
    let one = sql_of(Statement::Bootstrap { body });
    let two = sql_of(Statement::Bootstrap { body: other });
    assert(one =~= head + body@ + "\nCOMMIT;"@);
    assert(two =~= head + other@ + "\nCOMMIT;"@);
    assert(one.subrange(n, n + body@.len()) =~= body@);
    assert(one.skip(n + body@.len()) =~= "\nCOMMIT;"@);
    assert(one.take(n) =~= two.take(n));
    let opening = "BEGIN;\nSELECT pg_advisory_xact_lock("@;
    assert(one.subrange(0, opening.len() as int) =~= opening);
}

/// Everything a statement carries is bound to it, as it is and in the order in
/// which its text asks for it; a script has nothing bound to it.
pub proof fn law_what_a_statement_carries_is_bound<'a>(statement: &'a Statement)
    ensures
        is_script(*statement) ==> params_of(statement).len() == 0,
        match statement {
            Statement::Claim { fingerprint, holder } => params_of(statement) == seq![
                Param::Text(fingerprint),
                Param::Text(holder),
            ],
            Statement::CountSchemas { fingerprint } => params_of(statement) == seq![Param::Text(fingerprint)],
            Statement::FindSnapshot { fingerprint } => params_of(statement) == seq![Param::Text(fingerprint)],
            Statement::CountSnapshots { fingerprint } => params_of(statement) == seq![Param::Text(fingerprint)],
            Statement::SetCurrent { fingerprint } => params_of(statement) == seq![Param::Text(fingerprint)],
            Statement::ForgetSchema { name } => params_of(statement) == seq![Param::Text(name)],
            Statement::Wipe { name } => params_of(statement) == seq![Param::Text(name)],
            Statement::Reseed { name } => params_of(statement) == seq![Param::Text(name)],
            Statement::MakeReady { name } => params_of(statement) == seq![Param::Text(name)],
            Statement::SameShape { name } => params_of(statement) == seq![Param::Text(name)],
            Statement::ShapeOf { name } => params_of(statement) == seq![Param::Text(name)],
            Statement::SchemasOfOthers { keep } => params_of(statement) == seq![Param::Texts(keep)],
            Statement::SeedsOfOthers { keep } => params_of(statement) == seq![Param::Texts(keep)],
            Statement::ForgetSchemasOfOthers { keep } => params_of(statement) == seq![Param::Texts(keep)],
            Statement::ForgetOthers { keep } => params_of(statement) == seq![Param::Texts(keep)],
            Statement::Held { seconds, nanos } => params_of(statement) == seq![
                Param::Seconds { seconds: *seconds, nanos: *nanos },
            ],
            Statement::Record { name, fingerprint, leased, burn, holder } => params_of(statement).len() == 5
                && params_of(statement)[0] == Param::Text(name) && params_of(statement)[1] == Param::Text(
                fingerprint,
            ) && (*leased ==> params_of(statement)[2] == Param::Word("leased")) && (!*leased ==> params_of(
                statement,
            )[2] == Param::Word("ready")) && params_of(statement)[3] == Param::Flag(*burn) && params_of(
                statement,
            )[4] == Param::MaybeText(holder),
            Statement::Store { fingerprint, ddl, shape, apply } => params_of(statement).len() == 4 && params_of(
                statement,
            )[0] == Param::Text(fingerprint) && params_of(statement)[1] == Param::Text(ddl) && params_of(
                statement,
            )[2] == Param::Text(shape) && (*apply is SearchPath ==> params_of(statement)[3] == Param::Word(
                "search_path",
            )) && (*apply is Placeholder ==> params_of(statement)[3] == Param::Word("placeholder")),
            _ => params_of(statement).len() == 0,
        },
        is_script(*statement) <==> (match statement {
            Statement::Bootstrap { .. } => true,
            Statement::DropSchemas { .. } => true,
            Statement::DropSchema { .. } => true,
            Statement::CreateSchema { .. } => true,
            Statement::Replay { .. } => true,
            Statement::ResetPath => true,
            Statement::DropBooks => true,
            _ => false,
        }),
{
}

} // verus!
