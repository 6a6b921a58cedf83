//! The pool's books: what they hold, what each statement does to them, and
//! what every operation keeps.
//!
//! The books are in the database. What is here is what the pool relies on a
//! statement to do to them once it has succeeded; it says nothing of how the
//! server does it.

use vstd::prelude::*;

use crate::capture::{captured_command, captured_sql, preparing, shaping, storing};
use crate::pool::{
    building_goes_on, chunks, clearing, discarding, is_finished, recording, recycling, sweeps, BuildWanted,
    Building, Entry, Held, SWEEP_AT_A_TIME,
};
use crate::error::Error;
use crate::holder::{claim_in, is_gone, Claim};
use crate::snapshot::{Apply, Snapshot};
use crate::statement::Statement;
use crate::text::texts;

verus! {

/// A schema in the books.
pub struct Row {
    pub fingerprint: Seq<char>,
    pub leased: bool,
    pub burn: bool,
    pub holder: Option<Seq<char>>,
    /// When it was leased, by the server's clock.
    pub held_since: Option<int>,
}

/// A snapshot in the books.
pub struct Stored {
    pub ddl: Seq<char>,
    pub shape: Seq<char>,
    pub apply: Apply,
    /// The schema that keeps the rows the migrations wrote, if there is one.
    pub seed: Option<Seq<char>>,
}

/// The books, and what stands beside them in the database.
#[verifier::ext_equal]
pub struct Books {
    /// The schemas that are in the books.
    pub pool: Map<Seq<char>, Row>,
    /// The schemas that are there, apart from the books' own.
    pub schemas: Set<Seq<char>>,
    /// The schemas that hold nothing a test wrote.
    pub empty: Set<Seq<char>>,
    /// The schemas that hold the rows the migrations wrote.
    pub rows: Set<Seq<char>>,
    /// The schemas that look as their snapshots do.
    pub unaltered: Set<Seq<char>>,
    /// The snapshots that are in the books, by fingerprint.
    pub snapshots: Map<Seq<char>, Stored>,
    /// The snapshot that a lease that names none is given.
    pub current: Option<Seq<char>>,
    /// Whether the connection's search path is as it was when it was opened.
    pub path_is_own: bool,
    /// What the server's clock says.
    pub now: int,
}

/// Whether what the migrations wrote into a schema can be put back: the
/// schema's snapshot has a seed.
pub open spec fn has_seed(books: Books, name: Seq<char>) -> bool {
    let fingerprint = books.pool[name].fingerprint;
    &&& books.pool.dom().contains(name)
    &&& books.snapshots.dom().contains(fingerprint)
    &&& books.snapshots[fingerprint].seed is Some
}

/// A snapshot as it stands in the books once it is stored: a seed that was
/// there is left as it was, and a new snapshot has none.
pub open spec fn stored(books: Books, fingerprint: Seq<char>, ddl: Seq<char>, shape: Seq<char>, apply: Apply) -> Stored {
    Stored {
        ddl,
        shape,
        apply,
        seed: if books.snapshots.dom().contains(fingerprint) {
            books.snapshots[fingerprint].seed
        } else {
            None
        },
    }
}

/// The books after a statement has succeeded. `Claim` is not among these: see
/// `claimed`.
pub open spec fn after(books: Books, statement: Statement) -> Books {
    match statement {
        Statement::SetCurrent { fingerprint } => Books { current: Some(fingerprint@), ..books },
        Statement::ForgetSchemasOfOthers { keep } => Books {
            pool: books.pool.restrict(
                books.pool.dom().filter(
                    |name: Seq<char>| texts(keep@).contains(books.pool[name].fingerprint),
                ),
            ),
            ..books
        },
        Statement::ForgetOthers { keep } => Books {
            snapshots: books.snapshots.restrict(
                books.snapshots.dom().filter(|fingerprint: Seq<char>| texts(keep@).contains(fingerprint)),
            ),
            ..books
        },
        Statement::DropSchemas { names } => Books {
            schemas: books.schemas.filter(|name: Seq<char>| !texts(names@).contains(name)),
            ..books
        },
        Statement::DropSchema { name } => Books { schemas: books.schemas.remove(name@), ..books },
        Statement::CreateSchema { name } => Books { schemas: books.schemas.insert(name@), ..books },
        Statement::ForgetSchema { name } => Books { pool: books.pool.remove(name@), ..books },
        // Emptying takes out what the migrations wrote as well.
        Statement::Wipe { name } => Books {
            empty: books.empty.insert(name@),
            rows: books.rows.remove(name@),
            ..books
        },
        Statement::Reseed { name } => if has_seed(books, name@) {
            Books { rows: books.rows.insert(name@), ..books }
        } else {
            books
        },
        Statement::MakeReady { name } => if books.pool.dom().contains(name@) {
            Books {
                pool: books.pool.insert(
                    name@,
                    Row { leased: false, holder: None, held_since: None, ..books.pool[name@] },
                ),
                ..books
            }
        } else {
            books
        },
        // A snapshot's text carries the rows the migrations wrote.
        Statement::Replay { apply, name, .. } => Books {
            empty: books.empty.insert(name@),
            rows: books.rows.insert(name@),
            unaltered: books.unaltered.insert(name@),
            // What is run as written ends by putting the search path back;
            // what was dumped may leave it anywhere.
            path_is_own: apply == Apply::SearchPath,
            ..books
        },
        Statement::ResetPath => Books { path_is_own: true, ..books },
        Statement::Record { name, fingerprint, leased, burn, holder } => Books {
            pool: books.pool.insert(
                name@,
                Row {
                    fingerprint: fingerprint@,
                    leased,
                    burn,
                    holder: match holder {
                        Some(holder) => Some(holder@),
                        None => None,
                    },
                    held_since: match holder {
                        Some(_) => Some(books.now),
                        None => None,
                    },
                },
            ),
            ..books
        },
        Statement::Store { fingerprint, ddl, shape, apply } => Books {
            snapshots: books.snapshots.insert(
                fingerprint@,
                stored(books, fingerprint@, ddl@, shape@, apply),
            ),
            ..books
        },
        Statement::DropBooks => Books {
            pool: Map::<Seq<char>, Row>::empty(),
            snapshots: Map::<Seq<char>, Stored>::empty(),
            current: None,
            ..books
        },
        _ => books,
    }
}

/// The books after statements have succeeded, one after the other.
pub open spec fn after_all(books: Books, plan: Seq<Statement>) -> Books
    decreases plan.len(),
{
    if plan.len() == 0 {
        books
    } else {
        after(after_all(books, plan.drop_last()), plan.last())
    }
}

/// Whether a claim on a snapshot may be given this schema.
pub open spec fn can_claim(books: Books, fingerprint: Seq<char>, name: Seq<char>) -> bool {
    books.pool.dom().contains(name) && !books.pool[name].leased && books.pool[name].fingerprint
        == fingerprint
}

/// The books after a claim has been given this schema.
pub open spec fn claimed(books: Books, name: Seq<char>, holder: Seq<char>) -> Books {
    Books {
        pool: books.pool.insert(
            name,
            Row {
                leased: true,
                holder: Some(holder),
                held_since: Some(books.now),
                ..books.pool[name]
            },
        ),
        ..books
    }
}

/// The database after a test has done what it likes in a schema it leased:
/// it may have written to it, lost what was there, and altered it.
pub open spec fn used(books: Books, name: Seq<char>, altered: bool) -> Books {
    Books {
        empty: books.empty.remove(name),
        rows: books.rows.remove(name),
        unaltered: if altered {
            books.unaltered.remove(name)
        } else {
            books.unaltered
        },
        ..books
    }
}

/// Whether a schema in the books can be relied on: it is there, it says to
/// whom it is leased and since when exactly while it is leased, and if it is
/// ready it is to be passed on, holds nothing a test wrote, and looks as its
/// snapshot does.
pub open spec fn is_sound(books: Books, name: Seq<char>) -> bool {
    let row = books.pool[name];
    &&& books.schemas.contains(name)
    &&& row.leased <==> row.holder is Some
    &&& row.leased <==> row.held_since is Some
    &&& !row.leased ==> !row.burn && books.empty.contains(name) && books.unaltered.contains(name)
}

/// Whether every schema in the books can be relied on.
pub open spec fn sound(books: Books) -> bool {
    forall|name: Seq<char>| #[trigger] books.pool.dom().contains(name) ==> is_sound(books, name)
}

/// What is claimed is leased from then on, and cannot be claimed again before
/// it comes back: no two leases are the same schema.
pub proof fn law_no_two_leases_are_the_same_schema(
    books: Books,
    fingerprint: Seq<char>,
    name: Seq<char>,
    holder: Seq<char>,
)
    requires
        can_claim(books, fingerprint, name),
        sound(books),
    ensures
        forall|other: Seq<char>| !can_claim(claimed(books, name, holder), other, name),
        sound(claimed(books, name, holder)),
        claimed(books, name, holder).pool.dom() == books.pool.dom(),
        claimed(books, name, holder).schemas == books.schemas,
{
    let next = claimed(books, name, holder);
    assert(next.pool.dom() =~= books.pool.dom());
    assert forall|other: Seq<char>| #[trigger] next.pool.dom().contains(other) implies is_sound(next, other) by {
        assert(books.pool.dom().contains(other));
    }
}

proof fn lemma_after_two(books: Books, a: Statement, b: Statement)
    ensures
        after_all(books, seq![a, b]) == after(after(books, a), b),
{
    reveal_with_fuel(after_all, 3);
    assert(seq![a, b].drop_last() =~= seq![a]);
    assert(seq![a].drop_last() =~= Seq::<Statement>::empty());
}

proof fn lemma_after_three(books: Books, a: Statement, b: Statement, c: Statement)
    ensures
        after_all(books, seq![a, b, c]) == after(after(after(books, a), b), c),
{
    lemma_after_two(books, a, b);
    assert(seq![a, b, c].drop_last() =~= seq![a, b]);
}

/// Whatever a test does in a schema it leased, the books can be relied on.
pub proof fn law_what_a_test_does_stays_in_its_schema(books: Books, name: Seq<char>, altered: bool)
    requires
        sound(books),
        books.pool.dom().contains(name),
        books.pool[name].leased,
    ensures
        sound(used(books, name, altered)),
{
    let next = used(books, name, altered);
    assert forall|other: Seq<char>| #[trigger] next.pool.dom().contains(other) implies is_sound(next, other) by {
        assert(books.pool.dom().contains(other));
    }
}

/// A lease that is used and comes back leaves the books as it found them: the
/// same schemas, none made and none dropped, the one that was lent ready
/// again and emptied. The rows the migrations wrote are in it again exactly
/// where its snapshot has a seed to put them back from.
pub proof fn law_a_lease_leaves_no_trace(
    books: Books,
    fingerprint: Seq<char>,
    name: String,
    holder: Seq<char>,
)
    requires
        sound(books),
        can_claim(books, fingerprint, name@),
    ensures
        ({
            let back = after_all(used(claimed(books, name@, holder), name@, false), recycling(name));
            &&& back == Books { rows: back.rows, ..books }
            &&& back.rows == (if has_seed(books, name@) {
                books.rows.insert(name@)
            } else {
                books.rows.remove(name@)
            })
            &&& has_seed(books, name@) && books.rows.contains(name@) ==> back == books
        }),
{
    let lent = used(claimed(books, name@, holder), name@, false);
    lemma_after_three(
        lent,
        Statement::Wipe { name },
        Statement::Reseed { name },
        Statement::MakeReady { name },
    );
    let back = after_all(lent, recycling(name));
    assert(books.pool.dom().contains(name@));
    assert(has_seed(lent, name@) == has_seed(books, name@));
    assert(back.pool =~= books.pool);
    assert(back.empty =~= books.empty);
    assert(back.rows =~= (if has_seed(books, name@) {
        books.rows.insert(name@)
    } else {
        books.rows.remove(name@)
    }));
    if has_seed(books, name@) && books.rows.contains(name@) {
        assert(back.rows =~= books.rows);
    }
}

/// A schema that comes back and is recycled is ready: nobody holds it, it
/// holds nothing a test wrote, it looks as its snapshot does, and nothing
/// else in the books has changed. What the migrations wrote is in it where its
/// snapshot has a seed, and is gone where it has none.
pub proof fn law_what_is_recycled_is_ready(books: Books, name: String)
    requires
        sound(books),
        books.pool.dom().contains(name@),
        !books.pool[name@].burn,
        books.unaltered.contains(name@),
    ensures
        ({
            let next = after_all(books, recycling(name));
            &&& sound(next)
            &&& can_claim(next, books.pool[name@].fingerprint, name@)
            &&& next.empty.contains(name@)
            &&& next.rows.contains(name@) <==> has_seed(books, name@)
            &&& next.schemas == books.schemas
            &&& next.pool.remove(name@) == books.pool.remove(name@)
            &&& next.pool[name@] == (Row {
                fingerprint: books.pool[name@].fingerprint,
                leased: false,
                burn: false,
                holder: None,
                held_since: None,
            })
            &&& next.empty == books.empty.insert(name@)
            &&& next.rows.remove(name@) == books.rows.remove(name@)
            &&& next == Books { pool: next.pool, empty: next.empty, rows: next.rows, ..books }
        }),
{
    lemma_after_three(
        books,
        Statement::Wipe { name },
        Statement::Reseed { name },
        Statement::MakeReady { name },
    );
    let next = after_all(books, recycling(name));
    assert(next.pool.remove(name@) =~= books.pool.remove(name@));
    assert(next.rows.remove(name@) =~= books.rows.remove(name@));
    assert forall|other: Seq<char>| #[trigger] next.pool.dom().contains(other) implies is_sound(next, other) by {
        assert(books.pool.dom().contains(other));
    }
}

/// A schema that is thrown away is gone, from the database and from the
/// books, and nothing else is: one that a test altered, or that was only ever
/// one test's, is not passed on.
pub proof fn law_what_is_discarded_is_gone(books: Books, name: String)
    requires
        sound(books),
    ensures
        ({
            let next = after_all(books, discarding(name));
            &&& sound(next)
            &&& next.schemas == books.schemas.remove(name@)
            &&& next.pool == books.pool.remove(name@)
            &&& next == Books { schemas: next.schemas, pool: next.pool, ..books }
            &&& forall|fingerprint: Seq<char>| !can_claim(next, fingerprint, name@)
        }),
{
    lemma_after_two(books, Statement::DropSchema { name }, Statement::ForgetSchema { name });
    let next = after_all(books, discarding(name));
    assert forall|other: Seq<char>| #[trigger] next.pool.dom().contains(other) implies is_sound(next, other) by {
        assert(books.pool.dom().contains(other));
    }
}

/// What is run for a schema that comes back, once the database has said
/// whether it still looks as its snapshot does.
pub open spec fn coming_back(name: String, burn: bool, told: Option<Option<bool>>) -> Seq<Statement> {
    if !burn && told == Some(Some(true)) {
        recycling(name)
    } else {
        discarding(name)
    }
}

/// Whatever comes back, and whatever became of it, the books can be relied on
/// afterwards and nothing else in them has changed. The schema is ready
/// again, or it is gone: it is passed on only where it was to be, and where
/// the database said that it looks as its snapshot does.
pub proof fn law_what_comes_back_is_ready_or_gone(
    books: Books,
    name: String,
    burn: bool,
    told: Option<Option<bool>>,
)
    requires
        sound(books),
        books.pool.dom().contains(name@),
        books.pool[name@].burn == burn,
        // What the database said was true.
        told == Some(Some(true)) ==> books.unaltered.contains(name@),
    ensures
        ({
            let next = after_all(books, coming_back(name, burn, told));
            &&& sound(next)
            &&& next.pool.remove(name@) == books.pool.remove(name@)
            &&& can_claim(next, books.pool[name@].fingerprint, name@) <==> !burn && told == Some(Some(true))
            &&& !next.pool.dom().contains(name@) <==> burn || told != Some(Some(true))
        }),
{
    if !burn && told == Some(Some(true)) {
        law_what_is_recycled_is_ready(books, name);
    } else {
        law_what_is_discarded_is_gone(books, name);
        assert(books.pool.remove(name@).remove(name@) =~= books.pool.remove(name@));
    }
}

/// How many outcomes at most a building schema still waits for.
pub open spec fn to_go(state: Building) -> nat {
    match state {
        Building::Creating { .. } => 4,
        Building::Replaying { .. } => 3,
        Building::Resetting { .. } => 2,
        Building::Recording { .. } => 1,
        Building::Clearing { .. } => 1,
    }
}

/// What is still run to build a schema, where nothing fails, and what comes
/// of it.
pub open spec fn goes_well(state: Building) -> (Seq<Statement>, Result<String, Error>)
    decreases to_go(state),
{
    match building_goes_on(state, Ok(())) {
        BuildWanted::Run(next, statement) => (seq![statement] + goes_well(next).0, goes_well(next).1),
        BuildWanted::Attempt(next, plan) => (plan + goes_well(next).0, goes_well(next).1),
        BuildWanted::Done(result) => (Seq::<Statement>::empty(), result),
    }
}

/// Whether a schema is to be written into the books as one that can be relied
/// on: leased to somebody, or ready to be passed on.
pub open spec fn is_proper(entry: Entry) -> bool {
    &&& entry.leased <==> entry.holder is Some
    &&& !entry.leased ==> !entry.burn
}

/// A schema that is built is there, in the books as it was asked for, looks as
/// its snapshot does, and holds the rows the migrations wrote, so that it
/// needs no reseeding; nothing else has changed, and the connection's
/// search path is its own, however the snapshot is applied.
pub proof fn law_what_is_built_is_in_the_books(books: Books, entry: Entry, apply: Apply, ddl: String)
    requires
        sound(books),
        is_proper(entry),
    ensures
        ({
            let run = goes_well(Building::Creating { entry, apply, ddl });
            let next = after_all(books, seq![Statement::CreateSchema { name: entry.name }] + run.0);
            &&& run.1 == Ok::<String, Error>(entry.name)
            &&& sound(next)
            &&& next.schemas == books.schemas.insert(entry.name@)
            &&& next.pool == after(books, recording(entry)).pool
            &&& next.pool == books.pool.insert(
                entry.name@,
                Row {
                    fingerprint: entry.fingerprint@,
                    leased: entry.leased,
                    burn: entry.burn,
                    holder: match entry.holder {
                        Some(holder) => Some(holder@),
                        None => None,
                    },
                    held_since: if entry.leased {
                        Some(books.now)
                    } else {
                        None
                    },
                },
            )
            &&& next == Books {
                pool: next.pool,
                schemas: next.schemas,
                empty: books.empty.insert(entry.name@),
                rows: books.rows.insert(entry.name@),
                unaltered: books.unaltered.insert(entry.name@),
                path_is_own: true,
                ..books
            }
            &&& next.empty.contains(entry.name@)
            &&& next.rows.contains(entry.name@)
            &&& next.unaltered.contains(entry.name@)
            &&& next.path_is_own
        }),
{
    reveal_with_fuel(goes_well, 5);
    reveal_with_fuel(after_all, 6);
    let name = entry.name;
    let create = Statement::CreateSchema { name };
    let replay = Statement::Replay { apply, ddl, name };
    let record = recording(entry);
    let run = goes_well(Building::Creating { entry, apply, ddl });
    let plan = seq![create] + run.0;
    if apply == Apply::Placeholder {
        assert(plan =~= seq![create, replay, Statement::ResetPath, record]);
        assert(plan.drop_last() =~= seq![create, replay, Statement::ResetPath]);
        lemma_after_three(books, create, replay, Statement::ResetPath);
    } else {
        assert(plan =~= seq![create, replay, record]);
        lemma_after_three(books, create, replay, record);
    }
    let next = after_all(books, plan);
    assert(next.pool =~= after(books, record).pool);
    assert(next.schemas =~= books.schemas.insert(name@));
    assert forall|other: Seq<char>| #[trigger] next.pool.dom().contains(other) implies is_sound(next, other) by {
        if other != name@ {
            assert(books.pool.dom().contains(other));
        }
    }
}

/// A schema that is built is nobody else's. Its name was in no row, since
/// making it succeeded; no other row changes; and one that is built to be
/// leased cannot be claimed by anybody, of whatever snapshot.
pub proof fn law_what_is_built_is_nobody_elses(books: Books, entry: Entry, apply: Apply, ddl: String)
    requires
        sound(books),
        is_proper(entry),
        // What making a schema that is not there yet says.
        !books.schemas.contains(entry.name@),
    ensures
        ({
            let run = goes_well(Building::Creating { entry, apply, ddl });
            let next = after_all(books, seq![Statement::CreateSchema { name: entry.name }] + run.0);
            &&& !books.pool.dom().contains(entry.name@)
            &&& next.pool.dom().contains(entry.name@)
            &&& next.pool.remove(entry.name@) == books.pool
            &&& next.pool[entry.name@].leased == entry.leased
            &&& entry.leased ==> forall|fingerprint: Seq<char>| !can_claim(next, fingerprint, entry.name@)
            &&& forall|fingerprint: Seq<char>, other: Seq<char>|
                other != entry.name@ ==> (#[trigger] can_claim(next, fingerprint, other) <==> can_claim(
                    books,
                    fingerprint,
                    other,
                ))
        }),
{
    law_what_is_built_is_in_the_books(books, entry, apply, ddl);
    if books.pool.dom().contains(entry.name@) {
        assert(is_sound(books, entry.name@));
    }
    let run = goes_well(Building::Creating { entry, apply, ddl });
    let next = after_all(books, seq![Statement::CreateSchema { name: entry.name }] + run.0);
    assert(next.pool.remove(entry.name@) =~= books.pool);
}

/// A schema in which the snapshot could not be built is cleared away:
/// whatever comes of the clearing up, what was wrong is what is reported, and
/// where it succeeds the schema is gone, the books are as they were, and the
/// connection's search path is its own.
pub proof fn law_what_is_half_built_is_cleared_away(
    books: Books,
    entry: Entry,
    apply: Apply,
    why: Error,
    outcome: Result<(), Error>,
)
    requires
        !books.pool.dom().contains(entry.name@),
        sound(books),
    ensures
        building_goes_on(Building::Replaying { entry, apply }, Err(why)) == BuildWanted::Attempt(
            Building::Clearing { why },
            clearing(entry.name),
        ),
        building_goes_on(Building::Resetting { entry }, Err(why)) == BuildWanted::Attempt(
            Building::Clearing { why },
            clearing(entry.name),
        ),
        building_goes_on(Building::Clearing { why }, outcome) == BuildWanted::Done(Err(why)),
        ({
            let next = after_all(books, clearing(entry.name));
            &&& sound(next)
            &&& next.pool == books.pool
            &&& next.schemas == books.schemas.remove(entry.name@)
            &&& next.path_is_own
            &&& next == Books { schemas: next.schemas, path_is_own: true, ..books }
        }),
{
    let name = entry.name;
    lemma_after_two(books, Statement::ResetPath, Statement::DropSchema { name });
    let next = after_all(books, clearing(name));
    assert forall|other: Seq<char>| #[trigger] next.pool.dom().contains(other) implies is_sound(next, other) by {
        assert(books.pool.dom().contains(other));
    }
}

/// A live process is never robbed of its schema: a lease that is held on this
/// boot of this machine is taken back only where its process is known to have
/// gone, however old the lease is.
pub proof fn law_a_live_process_is_not_robbed(held: Held, me: Claim, running: Option<bool>)
    requires
        held.holder is Some,
        claim_in(held.holder->0@) is Some,
        ({
            let claim = claim_in(held.holder->0@)->0;
            claim.host == me.host && claim.boot == me.boot && (claim.pid == me.pid || running == Some(true))
        }),
    ensures
        !is_finished(held, me, running),
{
}

/// What nobody can answer for is left to the lease's age: a lease from
/// another machine or another boot, or one whose claim cannot be read, is
/// taken back exactly when it is overdue; and one of this boot whose process
/// has gone is taken back whatever its age.
pub proof fn law_what_cannot_be_judged_is_left_to_its_age(held: Held, me: Claim, running: Option<bool>)
    ensures
        held.holder is None ==> is_finished(held, me, running) == (held.overdue == Some(true)),
        held.holder is Some && claim_in(held.holder->0@) is None ==> is_finished(held, me, running) == (
        held.overdue == Some(true)),
        held.holder is Some && claim_in(held.holder->0@) is Some && is_gone(
            claim_in(held.holder->0@)->0,
            me,
            running,
        ) is None ==> is_finished(held, me, running) == (held.overdue == Some(true)),
        held.holder is Some && claim_in(held.holder->0@) is Some && is_gone(
            claim_in(held.holder->0@)->0,
            me,
            running,
        ) == Some(true) ==> is_finished(held, me, running),
{
}

proof fn lemma_after_concat(books: Books, a: Seq<Statement>, b: Seq<Statement>)
    ensures
        after_all(books, a + b) == after_all(after_all(books, a), b),
    decreases b.len(),
{
    if b.len() == 0 {
        assert(a + b =~= a);
    } else {
        lemma_after_concat(books, a, b.drop_last());
        assert((a + b).drop_last() =~= a + b.drop_last());
    }
}

/// The runs, one after the other.
pub open spec fn flat<T>(runs: Seq<Seq<T>>) -> Seq<T>
    decreases runs.len(),
{
    if runs.len() == 0 {
        Seq::<T>::empty()
    } else {
        runs[0] + flat(runs.skip(1))
    }
}

/// Cut into runs, the whole is neither more nor less than it was, and no run
/// is empty or longer than it may be.
pub proof fn law_runs_are_the_whole<T>(all: Seq<T>, n: nat)
    requires
        n > 0,
    ensures
        flat(chunks(all, n)) == all,
        forall|i: int| 0 <= i < chunks(all, n).len() ==> 0 < (#[trigger] chunks(all, n)[i]).len() <= n,
    decreases all.len(),
{
    let runs = chunks(all, n);
    if all.len() == 0 {
        assert(all =~= Seq::<T>::empty());
    } else if all.len() <= n {
        assert(runs.skip(1) =~= Seq::<Seq<T>>::empty());
        assert(all + flat(runs.skip(1)) =~= all);
    } else {
        let rest = chunks(all.skip(n as int), n);
        law_runs_are_the_whole(all.skip(n as int), n);
        assert(runs.skip(1) =~= rest);
        assert(all.take(n as int) + all.skip(n as int) =~= all);
        assert forall|i: int| 0 <= i < runs.len() implies 0 < (#[trigger] runs[i]).len() <= n by {
            if i > 0 {
                assert(runs[i] == rest[i - 1]);
            }
        }
    }
}

/// What a list of schemas leaves standing.
pub open spec fn without(schemas: Set<Seq<char>>, names: Seq<Seq<char>>) -> Set<Seq<char>> {
    schemas.filter(|name: Seq<char>| !names.contains(name))
}

proof fn lemma_contains_concat<T>(a: Seq<T>, b: Seq<T>, x: T)
    ensures
        (a + b).contains(x) <==> a.contains(x) || b.contains(x),
{
    if a.contains(x) {
        let k = choose|k: int| 0 <= k < a.len() && a[k] == x;
        assert((a + b)[k] == x);
    }
    if b.contains(x) {
        let k = choose|k: int| 0 <= k < b.len() && b[k] == x;
        assert((a + b)[a.len() + k] == x);
    }
}

proof fn lemma_sweep(books: Books, plan: Seq<Statement>, runs: Seq<Seq<Seq<char>>>)
    requires
        plan.len() == runs.len(),
        forall|i: int|
            0 <= i < plan.len() ==> (#[trigger] plan[i]) is DropSchemas && texts(plan[i]->names@) == runs[i],
    ensures
        after_all(books, plan) == (Books { schemas: without(books.schemas, flat(runs)), ..books }),
    decreases plan.len(),
{
    if plan.len() == 0 {
        assert(without(books.schemas, flat(runs)) =~= books.schemas);
    } else {
        let first = plan[0];
        let rest = plan.skip(1);
        assert(plan =~= seq![first] + rest);
        lemma_after_concat(books, seq![first], rest);
        reveal_with_fuel(after_all, 2);
        assert(seq![first].drop_last() =~= Seq::<Statement>::empty());
        let next = after(books, first);
        assert(after_all(books, seq![first]) == next);
        assert forall|i: int| 0 <= i < rest.len() implies (#[trigger] rest[i]) is DropSchemas && texts(
            rest[i]->names@,
        ) == runs.skip(1)[i] by {
            assert(rest[i] == plan[i + 1]);
        }
        lemma_sweep(next, rest, runs.skip(1));
        let tail = flat(runs.skip(1));
        let one = without(without(books.schemas, runs[0]), tail);
        let other = without(books.schemas, runs[0] + tail);
        assert forall|name: Seq<char>| #[trigger] one.contains(name) == other.contains(name) by {
            lemma_contains_concat(runs[0], tail, name);
        }
        assert(one =~= other);
        assert(next.schemas == without(books.schemas, runs[0]));
    }
}

/// Sweeping takes down every schema that was listed, and no other.
pub proof fn law_a_sweep_takes_down_what_is_listed(
    books: Books,
    plan: Seq<Statement>,
    names: Seq<Seq<char>>,
)
    requires
        sweeps(plan, names),
    ensures
        after_all(books, plan) == (Books { schemas: without(books.schemas, names), ..books }),
{
    law_runs_are_the_whole(names, SWEEP_AT_A_TIME as nat);
    lemma_sweep(books, plan, chunks(names, SWEEP_AT_A_TIME as nat));
}

/// Cleaning takes down every schema in the books, and the books: no schema,
/// no snapshot and no current one is left of them, and no other schema goes.
pub proof fn law_what_is_cleaned_is_gone(books: Books, names: Seq<Seq<char>>, plan: Seq<Statement>)
    requires
        plan.len() >= 1,
        sweeps(plan.drop_last(), names),
        plan.last() == Statement::DropBooks,
        // What the books said was true: these are the schemas in them.
        forall|name: Seq<char>| names.contains(name) <==> #[trigger] books.pool.dom().contains(name),
    ensures
        ({
            let next = after_all(books, plan);
            &&& next.pool == Map::<Seq<char>, Row>::empty()
            &&& next.snapshots == Map::<Seq<char>, Stored>::empty()
            &&& next.current is None
            &&& next.schemas == without(books.schemas, names)
            &&& forall|name: Seq<char>| #[trigger]
                next.schemas.contains(name) <==> books.schemas.contains(name) && !books.pool.dom().contains(name)
        }),
{
    law_a_sweep_takes_down_what_is_listed(books, plan.drop_last(), names);
}

/// Forgetting throws away every snapshot but the ones that are kept, and the
/// schemas built from the others; what was built from the ones that are kept
/// is there as it was.
pub proof fn law_what_is_kept_is_kept(
    books: Books,
    keep: Seq<Seq<char>>,
    schemas: Seq<Seq<char>>,
    seeds: Seq<Seq<char>>,
    plan: Seq<Statement>,
)
    requires
        sound(books),
        plan.len() >= 2,
        sweeps(plan.take(plan.len() - 2), schemas + seeds),
        plan[plan.len() - 2] is ForgetSchemasOfOthers,
        texts(plan[plan.len() - 2]->ForgetSchemasOfOthers_keep@) == keep,
        plan[plan.len() - 1] is ForgetOthers,
        texts(plan[plan.len() - 1]->ForgetOthers_keep@) == keep,
        // What the books said was true: these are the schemas of the others,
        // and no seed is a schema of the pool.
        forall|name: Seq<char>|
            schemas.contains(name) <==> #[trigger] books.pool.dom().contains(name) && !keep.contains(
                books.pool[name].fingerprint,
            ),
        forall|name: Seq<char>| #[trigger] books.pool.dom().contains(name) ==> !seeds.contains(name),
    ensures
        ({
            let next = after_all(books, plan);
            &&& sound(next)
            &&& forall|name: Seq<char>| #[trigger]
                next.pool.dom().contains(name) <==> books.pool.dom().contains(name) && keep.contains(
                    books.pool[name].fingerprint,
                )
            &&& forall|name: Seq<char>| #[trigger]
                next.pool.dom().contains(name) ==> next.pool[name] == books.pool[name]
            &&& next.schemas == without(books.schemas, schemas + seeds)
            &&& forall|fingerprint: Seq<char>| #[trigger]
                next.snapshots.dom().contains(fingerprint) <==> books.snapshots.dom().contains(fingerprint)
                    && keep.contains(fingerprint)
            &&& forall|fingerprint: Seq<char>| #[trigger]
                next.snapshots.dom().contains(fingerprint) ==> next.snapshots[fingerprint]
                    == books.snapshots[fingerprint]
        }),
{
    let n = plan.len() - 2;
    let swept = plan.take(n);
    let last = seq![plan[n], plan[n + 1]];
    assert(plan =~= swept + last);
    lemma_after_concat(books, swept, last);
    law_a_sweep_takes_down_what_is_listed(books, swept, schemas + seeds);
    let middle = after_all(books, swept);
    lemma_after_two(middle, plan[n], plan[n + 1]);
    let next = after_all(books, plan);
    assert forall|name: Seq<char>| #[trigger] next.pool.dom().contains(name) implies is_sound(next, name) by {
        assert(books.pool.dom().contains(name));
        lemma_contains_concat(schemas, seeds, name);
    }
}

proof fn lemma_captured_sql(books: Books, name: String, snapshot: Snapshot)
    requires
        books.path_is_own,
    ensures
        ({
            let next = after_all(books, captured_sql(name, snapshot));
            &&& next.pool == books.pool
            &&& next.schemas == books.schemas.remove(name@)
            &&& next.snapshots == books.snapshots.insert(
                snapshot.fingerprint@,
                stored(
                    books,
                    snapshot.fingerprint@,
                    snapshot.ddl@,
                    snapshot.shape@,
                    snapshot.apply,
                ),
            )
            &&& next.current == books.current
            &&& next.path_is_own
        }),
{
    let apply = snapshot.apply;
    let ddl = snapshot.ddl;
    let drop = Statement::DropSchema { name };
    let create = Statement::CreateSchema { name };
    let replay = Statement::Replay { apply, ddl, name };
    let built = shaping(name, apply, ddl);
    let stored = storing(name, snapshot);
    lemma_after_concat(books, built, stored);
    lemma_after_three(books, drop, create, replay);
    assert(preparing(name).push(replay) =~= seq![drop, create, replay]);
    if apply == Apply::Placeholder {
        assert(built.drop_last() =~= seq![drop, create, replay]);
    }
    lemma_after_two(after_all(books, built), stored[0], stored[1]);
    assert(stored =~= seq![stored[0], stored[1]]);
    let next = after_all(books, captured_sql(name, snapshot));
    assert(next.schemas =~= books.schemas.remove(name@));
}

/// Taking a snapshot puts it into the books and leaves nothing else behind:
/// the schemas it was built and looked at in are gone, the pool is as it was,
/// the connection's search path is its own, and the current snapshot is the
/// one it was before.
pub proof fn law_a_snapshot_is_a_local_matter(
    books: Books,
    template: String,
    name: String,
    snapshot: Snapshot,
)
    requires
        books.path_is_own,
    ensures
        ({
            let next = after_all(books, captured_sql(name, snapshot));
            &&& next.pool == books.pool
            &&& next.schemas == books.schemas.remove(name@)
            &&& next.snapshots == books.snapshots.insert(
                snapshot.fingerprint@,
                stored(
                    books,
                    snapshot.fingerprint@,
                    snapshot.ddl@,
                    snapshot.shape@,
                    snapshot.apply,
                ),
            )
            &&& next.current == books.current
            &&& next.path_is_own
        }),
        ({
            let next = after_all(books, captured_command(template, name, snapshot));
            &&& next.pool == books.pool
            &&& next.schemas == books.schemas.remove(template@).remove(name@)
            &&& next.snapshots == books.snapshots.insert(
                snapshot.fingerprint@,
                stored(
                    books,
                    snapshot.fingerprint@,
                    snapshot.ddl@,
                    snapshot.shape@,
                    snapshot.apply,
                ),
            )
            &&& next.current == books.current
            &&& next.path_is_own
        }),
{
    lemma_captured_sql(books, name, snapshot);
    let drop = Statement::DropSchema { name: template };
    let create = Statement::CreateSchema { name: template };
    let first = preparing(template).push(drop);
    assert(first =~= seq![drop, create, drop]);
    lemma_after_three(books, drop, create, drop);
    lemma_after_concat(books, first, captured_sql(name, snapshot));
    let middle = after_all(books, first);
    assert(middle.schemas =~= books.schemas.remove(template@));
    lemma_captured_sql(middle, name, snapshot);
}

/// Whether a statement leaves the books alone, and every schema but two.
pub open spec fn is_quiet(statement: Statement, template: Seq<char>, name: Seq<char>) -> bool {
    match statement {
        Statement::DropSchema { name: one } => one@ == template || one@ == name,
        Statement::CreateSchema { name: one } => one@ == template || one@ == name,
        Statement::Replay { name: one, .. } => one@ == template || one@ == name,
        Statement::ResetPath => true,
        _ => false,
    }
}

/// What is in the books is as it was, text and shape of every snapshot
/// included, and so is every schema but two.
pub open spec fn is_untouched(next: Books, books: Books, template: Seq<char>, name: Seq<char>) -> bool {
    &&& next.pool == books.pool
    &&& next.current == books.current
    &&& next.snapshots == books.snapshots
    &&& forall|other: Seq<char>|
        other != template && other != name ==> (#[trigger] next.schemas.contains(other)
            <==> books.schemas.contains(other))
}

proof fn lemma_quiet(books: Books, plan: Seq<Statement>, template: Seq<char>, name: Seq<char>)
    requires
        forall|i: int| 0 <= i < plan.len() ==> is_quiet(#[trigger] plan[i], template, name),
    ensures
        is_untouched(after_all(books, plan), books, template, name),
    decreases plan.len(),
{
    if plan.len() > 0 {
        let short = plan.drop_last();
        assert forall|i: int| 0 <= i < short.len() implies is_quiet(#[trigger] short[i], template, name) by {
            assert(short[i] == plan[i]);
        }
        lemma_quiet(books, short, template, name);
        assert(is_quiet(plan.last(), template, name));
    }
}

/// Wherever the taking of a snapshot stops short, the books are as they were:
/// the pool, the current snapshot, and the snapshots that are stored, an
/// earlier one of the same fingerprint among them. Nothing may be left but
/// the two schemas that were made for it.
pub proof fn law_a_capture_that_stops_short_changes_nothing(
    books: Books,
    template: String,
    name: String,
    snapshot: Snapshot,
    n: int,
)
    ensures
        0 <= n < captured_sql(name, snapshot).len() ==> is_untouched(
            after_all(books, captured_sql(name, snapshot).take(n)),
            books,
            template@,
            name@,
        ),
        0 <= n < captured_command(template, name, snapshot).len() ==> is_untouched(
            after_all(books, captured_command(template, name, snapshot).take(n)),
            books,
            template@,
            name@,
        ),
{
    let sql = captured_sql(name, snapshot);
    let command = captured_command(template, name, snapshot);
    assert forall|i: int| 0 <= i < sql.len() - 1 implies is_quiet(#[trigger] sql[i], template@, name@) by {
        let built = shaping(name, snapshot.apply, snapshot.ddl);
        if i < built.len() {
            assert(sql[i] == built[i]);
        } else {
            assert(sql[i] == storing(name, snapshot)[i - built.len()]);
        }
    }
    assert forall|i: int| 0 <= i < command.len() - 1 implies is_quiet(#[trigger] command[i], template@, name@) by {
        let first = preparing(template).push(Statement::DropSchema { name: template });
        if i < first.len() {
            assert(command[i] == first[i]);
        } else {
            assert(command[i] == sql[i - first.len()]);
        }
    }
    if 0 <= n < sql.len() {
        assert forall|i: int| 0 <= i < n implies is_quiet(#[trigger] sql.take(n)[i], template@, name@) by {
            assert(sql.take(n)[i] == sql[i]);
        }
        lemma_quiet(books, sql.take(n), template@, name@);
    }
    if 0 <= n < command.len() {
        assert forall|i: int| 0 <= i < n implies is_quiet(#[trigger] command.take(n)[i], template@, name@) by {
            assert(command.take(n)[i] == command[i]);
        }
        lemma_quiet(books, command.take(n), template@, name@);
    }
}

proof fn lemma_chunk_count<T>(all: Seq<T>, n: nat)
    requires
        n > 0,
    ensures
        chunks(all, n).len() * n >= all.len(),
        all.len() > 0 ==> (chunks(all, n).len() - 1) * n < all.len(),
        forall|i: int| 0 <= i < chunks(all, n).len() - 1 ==> (#[trigger] chunks(all, n)[i]).len() == n,
    decreases all.len(),
{
    let runs = chunks(all, n);
    if all.len() > n {
        let rest = chunks(all.skip(n as int), n);
        lemma_chunk_count(all.skip(n as int), n);
        assert(runs.len() == rest.len() + 1);
        assert(runs.len() * n == rest.len() * n + n) by (nonlinear_arith)
            requires
                runs.len() == rest.len() + 1,
        ;
        assert((runs.len() - 1) * n == (rest.len() - 1) * n + n) by (nonlinear_arith)
            requires
                runs.len() == rest.len() + 1,
        ;
        assert forall|i: int| 0 <= i < runs.len() - 1 implies (#[trigger] runs[i]).len() == n by {
            if i > 0 {
                assert(runs[i] == rest[i - 1]);
            }
        }
    } else if all.len() > 0 {
        assert(runs.len() == 1);
        assert(runs.len() * n == n && (runs.len() - 1) * n == 0) by (nonlinear_arith)
            requires
                runs.len() == 1,
        ;
    } else {
        assert(runs.len() * n == 0) by (nonlinear_arith)
            requires
                runs.len() == 0,
        ;
    }
}

/// Schemas are taken down ten at a time, the last time as many as are left, and
/// all of them together are the schemas that were listed, in their order.
pub proof fn law_schemas_go_ten_at_a_time(plan: Seq<Statement>, names: Seq<Seq<char>>)
    requires
        sweeps(plan, names),
    ensures
        forall|i: int|
            0 <= i < plan.len() ==> (#[trigger] plan[i]) is DropSchemas && 0 < plan[i]->names@.len() <= 10,
        forall|i: int| 0 <= i < plan.len() - 1 ==> (#[trigger] plan[i])->names@.len() == 10,
        plan.len() * 10 >= names.len(),
        names.len() > 0 ==> (plan.len() - 1) * 10 < names.len(),
        flat(plan.map_values(|statement: Statement| texts(statement->names@))) == names,
{
    let runs = chunks(names, 10);
    law_runs_are_the_whole(names, 10);
    lemma_chunk_count(names, 10);
    assert forall|i: int| 0 <= i < plan.len() implies (#[trigger] plan[i]) is DropSchemas
        && 0 < plan[i]->names@.len() <= 10 && plan[i]->names@.len() == runs[i].len() by {
        assert(texts(plan[i]->names@) == runs[i]);
        assert(0 < runs[i].len() <= 10);
    }
    assert forall|i: int| 0 <= i < plan.len() - 1 implies (#[trigger] plan[i])->names@.len() == 10 by {
        assert(runs[i].len() == 10);
    }
    assert(plan.map_values(|statement: Statement| texts(statement->names@)) =~= runs);
}

/// What is run to take a snapshot is this and nothing else.
pub proof fn law_a_snapshot_is_taken_in_these_steps(template: String, name: String, snapshot: Snapshot)
    ensures
        ({
            let drop = Statement::DropSchema { name };
            let create = Statement::CreateSchema { name };
            let replay = Statement::Replay { apply: snapshot.apply, ddl: snapshot.ddl, name };
            let store = Statement::Store {
                fingerprint: snapshot.fingerprint,
                ddl: snapshot.ddl,
                shape: snapshot.shape,
                apply: snapshot.apply,
            };
            &&& snapshot.apply is SearchPath ==> captured_sql(name, snapshot) == seq![
                drop,
                create,
                replay,
                drop,
                store,
            ]
            &&& snapshot.apply is Placeholder ==> captured_sql(name, snapshot) == seq![
                drop,
                create,
                replay,
                Statement::ResetPath,
                drop,
                store,
            ]
            &&& captured_command(template, name, snapshot) == seq![
                Statement::DropSchema { name: template },
                Statement::CreateSchema { name: template },
                Statement::DropSchema { name: template },
            ] + captured_sql(name, snapshot)
        }),
{
    let drop = Statement::DropSchema { name };
    let create = Statement::CreateSchema { name };
    let replay = Statement::Replay { apply: snapshot.apply, ddl: snapshot.ddl, name };
    let store = Statement::Store {
        fingerprint: snapshot.fingerprint,
        ddl: snapshot.ddl,
        shape: snapshot.shape,
        apply: snapshot.apply,
    };
    if snapshot.apply is SearchPath {
        assert(captured_sql(name, snapshot) =~= seq![drop, create, replay, drop, store]);
    } else {
        assert(captured_sql(name, snapshot) =~= seq![
            drop,
            create,
            replay,
            Statement::ResetPath,
            drop,
            store,
        ]);
    }
    assert(captured_command(template, name, snapshot) =~= seq![
        Statement::DropSchema { name: template },
        Statement::CreateSchema { name: template },
        Statement::DropSchema { name: template },
    ] + captured_sql(name, snapshot));
}

} // verus!
