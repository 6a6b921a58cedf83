//! What the pool decides. The pool itself lives in the database; each
//! function here takes what the database has just said, and returns what is
//! to be said to it next.

use vstd::prelude::*;

use crate::error::Error;
use crate::holder::{claim_in, is_gone, law_a_claim_is_three_pieces, written, Claim, Holder};
use crate::lease::Lease;
use crate::number::{decimal, number_in};
use crate::snapshot::{apply_named, Apply};
use crate::statement::Statement;
use crate::text::texts;
use crate::url::pointed_at;

verus! {

/// How many schemas one `DROP` takes down. Each is every table in it, and
/// every table is a lock held to the end of the statement; all of them at
/// once has run a server out of shared memory.
pub const SWEEP_AT_A_TIME: usize = 10;

/// On the way to the current snapshot.
pub enum Finding {
    /// It is this one.
    Found(String),
    /// The database has to say.
    Ask(Statement),
}

/// On the way to a schema with the tables already in it.
pub enum Claiming {
    /// The database may have one ready.
    Ask(Statement),
    /// One has to be built.
    Build { leased: bool, burn: bool },
    /// It is this one.
    Have(String),
}

/// On the way to a schema of the current snapshot.
pub enum Wanting {
    /// The database has to say which snapshot is current.
    Ask(Statement),
    /// It is this one, and this is the first step to a schema of it.
    From { fingerprint: String, first: Claiming },
}

/// The first step to a schema of a snapshot: one that is ready is leased to
/// `me`, unless one of the test's own is asked for, which has to be built.
pub open spec fn is_first_step(step: Claiming, fingerprint: String, burn: bool, me: Claim) -> bool {
    if burn {
        step == (Claiming::Build { leased: true, burn: true })
    } else {
        step matches Claiming::Ask(Statement::Claim { fingerprint: named, holder }) && named == fingerprint
            && holder@ == written(me)
    }
}

/// Runs of at most `n`, in order, that together are the whole.
pub open spec fn chunks<T>(all: Seq<T>, n: nat) -> Seq<Seq<T>>
    decreases all.len(),
{
    if all.len() == 0 {
        Seq::<Seq<T>>::empty()
    } else if n == 0 || all.len() <= n {
        seq![all]
    } else {
        seq![all.take(n as int)] + chunks(all.skip(n as int), n)
    }
}

/// Whether statements take down these schemas, run by run.
pub open spec fn sweeps(plan: Seq<Statement>, names: Seq<Seq<char>>) -> bool {
    let runs = chunks(names, SWEEP_AT_A_TIME as nat);
    &&& plan.len() == runs.len()
    &&& forall|i: int|
        0 <= i < plan.len() ==> (#[trigger] plan[i]) is DropSchemas && texts(plan[i]->names@) == runs[i]
}

/// Copies of texts.
fn copied(all: &Vec<String>) -> (r: Vec<String>)
    ensures
        r@ == all@,
{
    let mut r: Vec<String> = Vec::new();
    for i in 0..all.len()
        invariant
            r@ == all@.take(i as int),
    {
        proof {
            assert(all@.take(i + 1) =~= all@.take(i as int).push(all@[i as int]));
        }
        r.push(all[i].clone());
    }
    proof {
        assert(all@.take(all@.len() as int) =~= all@);
    }
    r
}

/// The statements that take down schemas, a few at a time.
pub fn sweep(names: &Vec<String>) -> (r: Vec<Statement>)
    ensures
        sweeps(r@, texts(names@)),
{
    let mut r: Vec<Statement> = Vec::new();
    let mut at: usize = 0;
    let ghost all = texts(names@);
    let ghost n = SWEEP_AT_A_TIME as nat;
    proof {
        assert(all.skip(0) =~= all);
    }
    while at < names.len()
        invariant
            at <= names@.len(),
            all == texts(names@),
            n == SWEEP_AT_A_TIME as nat,
            r@.len() + chunks(all.skip(at as int), n).len() == chunks(all, n).len(),
            forall|i: int|
                0 <= i < r@.len() ==> (#[trigger] r@[i]) is DropSchemas && texts(r@[i]->names@) == chunks(all, n)[i],
            forall|i: int|
                0 <= i < chunks(all.skip(at as int), n).len() ==> #[trigger] chunks(all.skip(at as int), n)[i]
                    == chunks(all, n)[r@.len() + i],
        decreases names@.len() - at,
    {
        let ghost rest = all.skip(at as int);
        let end: usize = if names.len() - at <= SWEEP_AT_A_TIME {
            names.len()
        } else {
            at + SWEEP_AT_A_TIME
        };
        let mut some: Vec<String> = Vec::new();
        for i in at..end
            invariant
                at <= end <= names@.len(),
                all == texts(names@),
                texts(some@) == all.subrange(at as int, i as int),
        {
            proof {
                assert(all.subrange(at as int, i + 1) =~= all.subrange(at as int, i as int).push(names@[i as int]@));
            }
            let name = names[i].clone();
            proof {
                assert(texts(some@.push(name)) =~= texts(some@).push(name@));
            }
            some.push(name);
        }
        let ghost run = texts(some@);
        let ghost done = r@;
        r.push(Statement::DropSchemas { names: some });
        proof {
            assert(all.skip(end as int) =~= rest.skip(end - at));
            assert(run =~= rest.take(end - at));
            assert(chunks(rest, n)[0] == run) by {
                if rest.len() <= n {
                    assert(rest.take(end - at) =~= rest);
                }
            }
            if rest.len() <= n {
                assert(chunks(all.skip(end as int), n).len() == 0);
            } else {
                assert(chunks(rest, n).skip(1) =~= chunks(rest.skip(n as int), n));
            }
            assert forall|i: int| 0 <= i < r@.len() implies (#[trigger] r@[i]) is DropSchemas && texts(
                r@[i]->names@,
            ) == chunks(all, n)[i] by {
                if i == done.len() {
                    assert(chunks(rest, n)[0] == chunks(all, n)[done.len() as int]);
                } else {
                    assert(r@[i] == done[i]);
                }
            }
            assert forall|i: int| 0 <= i < chunks(all.skip(end as int), n).len() implies #[trigger] chunks(
                all.skip(end as int),
                n,
            )[i] == chunks(all, n)[r@.len() + i] by {
                assert(chunks(rest, n)[i + 1] == chunks(all, n)[done.len() + i + 1]);
            }
        }
        at = end;
    }
    r
}

/// A lease, as the books have it.
pub struct Held {
    pub schema: String,
    pub holder: Option<String>,
    pub burn: bool,
    pub overdue: Option<bool>,
}

/// Whether a lease's holder has finished with it, as `me` sees it: by the
/// holder's process where that can be judged, else by the lease's age. A
/// claim that cannot be read is not one this wrote, and only its age can
/// speak for it.
pub open spec fn is_finished(held: Held, me: Claim, running: Option<bool>) -> bool {
    let by_age = held.overdue == Some(true);
    match held.holder {
        Some(text) => match claim_in(text@) {
            Some(claim) => match is_gone(claim, me, running) {
                Some(gone) => gone,
                None => by_age,
            },
            None => by_age,
        },
        None => by_age,
    }
}

/// The leases whose holders have finished with them, in order. Beside each
/// lease stands whether a process with its holder's number is running.
pub open spec fn finished_among(held: Seq<(Held, Option<bool>)>, me: Claim) -> Seq<Held> {
    held.filter(|one: (Held, Option<bool>)| is_finished(one.0, me, one.1)).map_values(
        |one: (Held, Option<bool>)| one.0,
    )
}

impl Held {
    /// The process that holds the lease, where the claim says.
    pub fn pid(&self) -> (r: Option<u32>)
        ensures
            r == (match self.holder {
                Some(text) => match claim_in(text@) {
                    Some(claim) => Some(claim.pid),
                    None => None,
                },
                None => None,
            }),
    {
        match &self.holder {
            Some(text) => match Holder::parse(text.as_str()) {
                Some(holder) => Some(holder.pid),
                None => None,
            },
            None => None,
        }
    }

    /// Whether the holder has finished with the lease. `running` says whether
    /// a process with the holder's number is running on this machine, where
    /// the machine can say.
    pub fn finished(&self, me: &Holder, running: Option<bool>) -> (r: bool)
        ensures
            r == is_finished(*self, me@, running),
    {
        let by_age = match self.overdue {
            Some(overdue) => overdue,
            None => false,
        };
        match &self.holder {
            Some(text) => match Holder::parse(text.as_str()) {
                Some(holder) => match holder.gone(me, running) {
                    Some(gone) => gone,
                    None => by_age,
                },
                None => by_age,
            },
            None => by_age,
        }
    }
}

/// On the way back into the pool.
pub enum Returning {
    /// The database has to say whether the schema is still what it was.
    Ask(Statement),
    /// These are to be run, in order, up to the first that fails.
    Run(Vec<Statement>),
}

/// What throws a schema away.
pub open spec fn discarding(name: String) -> Seq<Statement> {
    seq![Statement::DropSchema { name }, Statement::ForgetSchema { name }]
}

/// What empties a schema and makes it ready. Emptying takes out what the
/// migrations wrote as well as what the test did, and only the second of
/// those was the test's to lose. So the rows the migrations wrote are put
/// back between the two, out of the seed of the schema's snapshot. Where no
/// seed is recorded nothing is put back, and the tables stay empty; taking a
/// snapshot records none.
pub open spec fn recycling(name: String) -> Seq<Statement> {
    seq![Statement::Wipe { name }, Statement::Reseed { name }, Statement::MakeReady { name }]
}

/// Throws a schema away.
fn discard(name: String) -> (r: Vec<Statement>)
    ensures
        r@ == discarding(name),
{
    let mut r: Vec<Statement> = Vec::new();
    r.push(Statement::DropSchema { name: name.clone() });
    r.push(Statement::ForgetSchema { name });
    proof {
        assert(r@ =~= discarding(name));
    }
    r
}

/// A schema as it will stand in the books.
pub struct Entry {
    pub name: String,
    pub fingerprint: String,
    pub leased: bool,
    pub burn: bool,
    pub holder: Option<String>,
}

impl Entry {
    /// A schema that is about to be built: leased to `me`, or ready.
    pub fn new(name: String, fingerprint: String, leased: bool, burn: bool, me: &Holder) -> (r: Entry)
        ensures
            r.name == name,
            r.fingerprint == fingerprint,
            r.leased == leased,
            r.burn == burn,
            match r.holder {
                Some(holder) => leased && holder@ == written(me@),
                None => !leased,
            },
    {
        let holder = if leased {
            Some(me.to_string())
        } else {
            None
        };
        Entry { name, fingerprint, leased, burn, holder }
    }
}

/// What writes a schema into the books.
pub open spec fn recording(entry: Entry) -> Statement {
    Statement::Record {
        name: entry.name,
        fingerprint: entry.fingerprint,
        leased: entry.leased,
        burn: entry.burn,
        holder: entry.holder,
    }
}

/// How far the building of a schema has come.
pub enum Building {
    /// The schema is being made.
    Creating { entry: Entry, apply: Apply, ddl: String },
    /// The snapshot's text is being run in it.
    Replaying { entry: Entry, apply: Apply },
    /// The search path is being put back.
    Resetting { entry: Entry },
    /// The schema is being written into the books.
    Recording { name: String },
    /// What was half made is being taken down, because of this.
    Clearing { why: Error },
}

/// What to do next to build a schema.
pub enum BuildStep {
    /// Run this, and say how it went.
    Run(Building, Statement),
    /// Run these, whatever comes of each.
    Attempt(Building, Vec<Statement>),
    /// The schema is there, or it is not.
    Done(Result<String, Error>),
}

/// What clears away a schema that was half made. The search path is the
/// connection's, not the statement's, and a snapshot that failed half way
/// through has left it somewhere.
pub open spec fn clearing(name: String) -> Seq<Statement> {
    seq![Statement::ResetPath, Statement::DropSchema { name }]
}

/// Whether a step is this one.
pub open spec fn is_step(step: BuildStep, wanted: BuildWanted) -> bool {
    match (step, wanted) {
        (BuildStep::Run(state, statement), BuildWanted::Run(state2, statement2)) => state == state2
            && statement == statement2,
        (BuildStep::Attempt(state, plan), BuildWanted::Attempt(state2, plan2)) => state == state2
            && plan@ == plan2,
        (BuildStep::Done(result), BuildWanted::Done(result2)) => result == result2,
        _ => false,
    }
}

/// A step, with what is attempted as a sequence.
pub enum BuildWanted {
    Run(Building, Statement),
    Attempt(Building, Seq<Statement>),
    Done(Result<String, Error>),
}

/// How the building of a schema goes on after each outcome.
pub open spec fn building_goes_on(state: Building, outcome: Result<(), Error>) -> BuildWanted {
    match (state, outcome) {
        (Building::Creating { entry, apply, ddl }, Ok(_)) => BuildWanted::Run(
            Building::Replaying { entry, apply },
            Statement::Replay { apply, ddl, name: entry.name },
        ),
        (Building::Creating { .. }, Err(why)) => BuildWanted::Done(Err(why)),
        // What was dumped empties the search path itself, and puts nothing
        // back; what is run as written ends by putting it back.
        (Building::Replaying { entry, apply }, Ok(_)) => if apply == Apply::Placeholder {
            BuildWanted::Run(Building::Resetting { entry }, Statement::ResetPath)
        } else {
            BuildWanted::Run(Building::Recording { name: entry.name }, recording(entry))
        },
        (Building::Replaying { entry, .. }, Err(why)) => BuildWanted::Attempt(
            Building::Clearing { why },
            clearing(entry.name),
        ),
        (Building::Resetting { entry }, Ok(_)) => BuildWanted::Run(
            Building::Recording { name: entry.name },
            recording(entry),
        ),
        (Building::Resetting { entry }, Err(why)) => BuildWanted::Attempt(
            Building::Clearing { why },
            clearing(entry.name),
        ),
        (Building::Recording { name }, Ok(_)) => BuildWanted::Done(Ok(name)),
        (Building::Recording { .. }, Err(why)) => BuildWanted::Done(Err(why)),
        (Building::Clearing { why }, _) => BuildWanted::Done(Err(why)),
    }
}

/// Clears away a schema that was half made.
fn clear(name: String, why: Error) -> (r: BuildStep)
    ensures
        is_step(r, BuildWanted::Attempt(Building::Clearing { why }, clearing(name))),
{
    let mut plan: Vec<Statement> = Vec::new();
    plan.push(Statement::ResetPath);
    plan.push(Statement::DropSchema { name });
    proof {
        assert(plan@ =~= clearing(name));
    }
    BuildStep::Attempt(Building::Clearing { why }, plan)
}

/// Writes a schema into the books.
fn record(entry: Entry) -> (r: BuildStep)
    ensures
        r == BuildStep::Run(Building::Recording { name: entry.name }, recording(entry)),
{
    let name = entry.name.clone();
    BuildStep::Run(
        Building::Recording { name },
        Statement::Record {
            name: entry.name,
            fingerprint: entry.fingerprint,
            leased: entry.leased,
            burn: entry.burn,
            holder: entry.holder,
        },
    )
}

impl Building {
    /// The next step, once the last one has been taken.
    pub fn next(self, outcome: Result<(), Error>) -> (r: BuildStep)
        ensures
            is_step(r, building_goes_on(self, outcome)),
    {
        match self {
            Building::Creating { entry, apply, ddl } => match outcome {
                Ok(_) => {
                    let name = entry.name.clone();
                    BuildStep::Run(
                        Building::Replaying { entry, apply },
                        Statement::Replay { apply, ddl, name },
                    )
                },
                Err(why) => BuildStep::Done(Err(why)),
            },
            Building::Replaying { entry, apply } => match outcome {
                Ok(_) => match apply {
                    Apply::Placeholder => BuildStep::Run(
                        Building::Resetting { entry },
                        Statement::ResetPath,
                    ),
                    Apply::SearchPath => record(entry),
                },
                Err(why) => clear(entry.name, why),
            },
            Building::Resetting { entry } => match outcome {
                Ok(_) => record(entry),
                Err(why) => clear(entry.name, why),
            },
            Building::Recording { name } => match outcome {
                Ok(_) => BuildStep::Done(Ok(name)),
                Err(why) => BuildStep::Done(Err(why)),
            },
            Building::Clearing { why } => BuildStep::Done(Err(why)),
        }
    }
}

/// What is known of the current snapshot without asking the database: the one
/// that was found before, or the one that is named.
pub open spec fn known(found: Option<String>, named: Option<String>) -> Option<String> {
    match found {
        Some(fingerprint) => Some(fingerprint),
        None => match named {
            Some(fingerprint) if fingerprint@.len() > 0 => Some(fingerprint),
            _ => None,
        },
    }
}

/// What is known of the current snapshot once the database has said: the one
/// that was found before, whatever was said, or else the one that was said.
pub open spec fn learnt(found: Option<String>, told: Option<String>) -> Option<String> {
    match found {
        Some(fingerprint) => Some(fingerprint),
        None => told,
    }
}

/// What a pool comes to hear of the current snapshot.
pub enum Heard {
    /// What `HAZIR_FINGERPRINT` names, as it is asked for.
    Named(Option<String>),
    /// What the database says, after it was asked.
    Told(Option<String>),
}

/// What is known of the current snapshot after all that was heard, in order.
/// Those who ask may overlap, so any number may be told after the first was.
pub open spec fn known_after(found: Option<String>, heard: Seq<Heard>) -> Option<String>
    decreases heard.len(),
{
    if heard.len() == 0 {
        found
    } else {
        let before = known_after(found, heard.drop_last());
        match heard.last() {
            Heard::Named(named) => known(before, named),
            Heard::Told(told) => learnt(before, told),
        }
    }
}

/// The current snapshot cannot change while a run is going on: once it is
/// known, it stays what it is, whatever is named and whatever the database
/// says after that.
pub proof fn law_the_first_answer_stays(found: Option<String>, heard: Seq<Heard>, n: int)
    requires
        0 <= n <= heard.len(),
        known_after(found, heard.take(n)) is Some,
    ensures
        known_after(found, heard) == known_after(found, heard.take(n)),
    decreases heard.len() - n,
{
    if n == heard.len() {
        assert(heard.take(n) =~= heard);
    } else {
        assert(heard.take(n + 1).drop_last() =~= heard.take(n));
        law_the_first_answer_stays(found, heard, n + 1);
    }
}

/// The pool, as a process that leases from it knows it: where it is, and the
/// current snapshot, once that has been found.
pub struct Pool {
    url: String,
    /// Found once. It cannot change while a run is going on, and asking per
    /// lease is a round trip spent learning what is already known.
    fingerprint: Option<String>,
}

impl Pool {
    /// Where the pool is.
    pub closed spec fn place(&self) -> Seq<char> {
        self.url@
    }

    /// The current snapshot, once it has been found.
    pub closed spec fn found(&self) -> Option<String> {
        self.fingerprint
    }

    /// The pool in the database at a url.
    pub fn new(url: String) -> (r: Pool)
        ensures
            r.place() == url@,
            r.found() is None,
    {
        Pool { url, fingerprint: None }
    }

    /// Where the pool is.
    pub fn url(&self) -> (r: &str)
        ensures
            r@ == self.place(),
    {
        self.url.as_str()
    }

    /// Makes the tables the pool keeps, out of `body`, if they are not there.
    ///
    /// Behind a lock, and in one transaction, because `IF NOT EXISTS` is not
    /// the same as "safe to run twice at once": two processes reaching this
    /// together get `tuple concurrently updated` out of the catalogue. Two
    /// processes reaching it together is the ordinary case.
    pub fn bootstrap(body: String) -> (r: Statement)
        ensures
            r == (Statement::Bootstrap { body }),
    {
        Statement::Bootstrap { body }
    }

    /// Which snapshot a lease that names none is given: the one that was
    /// found before, or the one that `HAZIR_FINGERPRINT` names, or the one
    /// that the database says.
    pub fn current(&mut self, named: Option<String>) -> (r: Finding)
        ensures
            final(self).place() == old(self).place(),
            final(self).found() == known(old(self).found(), named),
            r == (match known(old(self).found(), named) {
                Some(fingerprint) => Finding::Found(fingerprint),
                None => Finding::Ask(Statement::FindCurrent),
            }),
    {
        if let Some(found) = &self.fingerprint {
            return Finding::Found(found.clone());
        }
        match named {
            Some(fingerprint) => {
                if fingerprint.as_str().is_empty() {
                    Finding::Ask(Statement::FindCurrent)
                } else {
                    self.fingerprint = Some(fingerprint.clone());
                    Finding::Found(fingerprint)
                }
            },
            None => Finding::Ask(Statement::FindCurrent),
        }
    }

    /// The current snapshot, once the database has said. Where it was found in
    /// the meantime, what was found first stays. That there is none is not
    /// remembered: the next call asks again.
    pub fn current_told(&mut self, told: Option<String>) -> (r: Result<String, Error>)
        ensures
            final(self).place() == old(self).place(),
            final(self).found() == learnt(old(self).found(), told),
            r == (match learnt(old(self).found(), told) {
                Some(fingerprint) => Ok(fingerprint),
                None => Err(Error::NoSnapshot),
            }),
    {
        if let Some(found) = &self.fingerprint {
            return Ok(found.clone());
        }
        match told {
            Some(fingerprint) => {
                self.fingerprint = Some(fingerprint.clone());
                Ok(fingerprint)
            },
            None => Err(Error::NoSnapshot),
        }
    }

    /// Says which snapshot a lease that names none should be given.
    ///
    /// Apart from taking one, because taking a snapshot is a local matter and
    /// this is the only part of it every other run of the suite can see.
    pub fn set_current(fingerprint: String) -> (r: Statement)
        ensures
            r == (Statement::SetCurrent { fingerprint }),
    {
        Statement::SetCurrent { fingerprint }
    }

    /// The first step to the name of a schema with the tables already in it,
    /// of the current snapshot. Where it is not known which that is, the
    /// database has to say first, and `claim_from` goes on from there.
    pub fn claim(&mut self, named: Option<String>, burn: bool, me: &Holder) -> (r: Wanting)
        ensures
            final(self).place() == old(self).place(),
            final(self).found() == known(old(self).found(), named),
            match known(old(self).found(), named) {
                Some(current) => r matches Wanting::From { fingerprint, first } && fingerprint == current
                    && is_first_step(first, current, burn, me@),
                None => r == Wanting::Ask(Statement::FindCurrent),
            },
    {
        match self.current(named) {
            Finding::Found(fingerprint) => {
                let first = Pool::claim_from(fingerprint.clone(), burn, me);
                Wanting::From { fingerprint, first }
            },
            Finding::Ask(statement) => Wanting::Ask(statement),
        }
    }

    /// The first step to the name of a schema of a snapshot, with the tables
    /// already in it.
    ///
    /// One that is ready, in one round trip, in the ordinary case.
    ///
    /// `burn` asks for one of this test's own, dropped rather than recycled
    /// when it comes back. For a test that changes the shape of what it is
    /// given: recycling one of those would hand the next test a schema that
    /// is no longer what the snapshot says it is.
    pub fn claim_from(fingerprint: String, burn: bool, me: &Holder) -> (r: Claiming)
        ensures
            is_first_step(r, fingerprint, burn, me@),
    {
        if burn {
            Claiming::Build { leased: true, burn: true }
        } else {
            Claiming::Ask(Statement::Claim { fingerprint, holder: me.to_string() })
        }
    }

    /// The next step, once the database has said which schema it leased, if
    /// any was ready.
    pub fn claim_told(told: Option<String>) -> (r: Claiming)
        ensures
            r == (match told {
                Some(name) => Claiming::Have(name),
                None => Claiming::Build { leased: true, burn: false },
            }),
    {
        match told {
            Some(name) => Claiming::Have(name),
            None => Claiming::Build { leased: true, burn: false },
        }
    }

    /// The lease of a schema that was claimed, to be passed on afterwards.
    pub fn lease(&self, schema: String) -> (r: Lease)
        ensures
            r.reached_on() == pointed_at(self.place(), schema@),
            r.leased() == schema@,
            !r.is_fresh(),
    {
        Lease::new(self.url.clone(), schema, false)
    }

    /// The lease of a schema that was claimed, to be thrown away afterwards.
    pub fn lease_fresh(&self, schema: String) -> (r: Lease)
        ensures
            r.reached_on() == pointed_at(self.place(), schema@),
            r.leased() == schema@,
            r.is_fresh(),
    {
        Lease::new(self.url.clone(), schema, true)
    }

    /// How many schemas have to be made to bring the number there is of a
    /// snapshot up to `want`.
    pub fn warm(have: i64, want: usize) -> (r: usize)
        ensures
            r == (if have <= 0 {
                want as int
            } else if have >= want {
                0
            } else {
                want - have
            }),
            have >= 0 ==> have + r == (if have >= want {
                have as int
            } else {
                want as int
            }),
    {
        if have <= 0 {
            want
        } else if have as u64 >= want as u64 {
            0
        } else {
            want - have as usize
        }
    }

    /// Throws away every snapshot but the ones named, and the schemas built from
    /// them: the statements that do, given the schemas and the seeds of the
    /// others, and how many schemas of the pool they drop.
    pub fn forget(keep: &Vec<String>, schemas: &Vec<String>, seeds: &Vec<String>) -> (r: (Vec<Statement>, usize))
        ensures
            r.1 == schemas@.len(),
            r.0@.len() >= 2,
            sweeps(r.0@.take(r.0@.len() - 2), texts(schemas@) + texts(seeds@)),
            r.0@[r.0@.len() - 2] is ForgetSchemasOfOthers,
            r.0@[r.0@.len() - 2]->ForgetSchemasOfOthers_keep@ == keep@,
            r.0@[r.0@.len() - 1] is ForgetOthers,
            r.0@[r.0@.len() - 1]->ForgetOthers_keep@ == keep@,
    {
        let mut going = copied(schemas);
        let mut more = copied(seeds);
        going.append(&mut more);
        proof {
            assert(texts(going@) =~= texts(schemas@) + texts(seeds@));
        }
        let mut plan = sweep(&going);
        let ghost swept = plan@;
        plan.push(Statement::ForgetSchemasOfOthers { keep: copied(keep) });
        plan.push(Statement::ForgetOthers { keep: copied(keep) });
        proof {
            assert(plan@.take(plan@.len() - 2) =~= swept);
        }
        (plan, schemas.len())
    }

    /// Asks for the leases, and which of them have been held for longer than
    /// this, or than a second if this is less.
    pub fn ask_held(seconds: u64, nanos: u32) -> (r: Statement)
        ensures
            r == (if seconds == 0 {
                Statement::Held { seconds: 1, nanos: 0 }
            } else {
                Statement::Held { seconds, nanos }
            }),
    {
        if seconds == 0 {
            Statement::Held { seconds: 1, nanos: 0 }
        } else {
            Statement::Held { seconds, nanos }
        }
    }

    /// The leases to take back: those whose holders have finished with them, in
    /// order. Beside each lease stands whether a process with its holder's
    /// number is running on this machine, where the machine can say.
    pub fn reclaim(held: Vec<(Held, Option<bool>)>, me: &Holder) -> (r: Vec<Held>)
        ensures
            r@ == finished_among(held@, me@),
    {
        let ghost all = held@;
        let ghost judged = |one: (Held, Option<bool>)| is_finished(one.0, me@, one.1);
        let ghost lease = |one: (Held, Option<bool>)| one.0;
        let mut r: Vec<Held> = Vec::new();
        proof {
            reveal_with_fuel(Seq::filter, 1);
            assert(all.take(0).filter(judged).map_values(lease) =~= r@);
        }
        for one in it: held
            invariant
                it.seq() == all,
                judged == |one: (Held, Option<bool>)| is_finished(one.0, me@, one.1),
                lease == |one: (Held, Option<bool>)| one.0,
                r@ == all.take(it.index() as int).filter(judged).map_values(lease),
        {
            let ghost before = all.take(it.index() as int).filter(judged);
            proof {
                let i = it.index() as int;
                reveal_with_fuel(Seq::filter, 1);
                assert(all.take(i + 1).drop_last() =~= all.take(i));
                assert(before.push(one).map_values(lease) =~= before.map_values(lease).push(one.0));
            }
            let (held, running) = one;
            if held.finished(me, running) {
                r.push(held);
            }
        }
        proof {
            assert(all.take(all.len() as int) =~= all);
        }
        r
    }

    /// The first step of a schema's return to the pool.
    pub fn give_back(schema: String, burn: bool) -> (r: Returning)
        ensures
            match r {
                Returning::Ask(statement) => !burn && statement == (Statement::SameShape { name: schema }),
                Returning::Run(plan) => burn && plan@ == discarding(schema),
            },
    {
        if burn {
            Returning::Run(discard(schema))
        } else {
            Returning::Ask(Statement::SameShape { name: schema })
        }
    }

    /// The rest, once the database has said whether the schema still looks as its
    /// snapshot does.
    ///
    /// Emptied rather than dropped, and given back the rows the migrations
    /// wrote where its snapshot has a seed. Unless its shape has moved away from the
    /// snapshot's, in which case it is not the thing the next test asked for and
    /// there is nothing to do but throw it away. A schema of which the database
    /// cannot say is thrown away too.
    pub fn shape_told(schema: String, told: Option<Option<bool>>) -> (r: Vec<Statement>)
        ensures
            r@ == (if told == Some(Some(true)) {
                recycling(schema)
            } else {
                discarding(schema)
            }),
    {
        let right = match told {
            Some(Some(same)) => same,
            _ => false,
        };
        if right {
            let mut r: Vec<Statement> = Vec::new();
            r.push(Statement::Wipe { name: schema.clone() });
            r.push(Statement::Reseed { name: schema.clone() });
            r.push(Statement::MakeReady { name: schema });
            proof {
                assert(r@ =~= recycling(schema));
            }
            r
        } else {
            discard(schema)
        }
    }

    /// How a snapshot is rebuilt, once the database has said: its text, and what
    /// has to happen to it.
    pub fn snapshot_told(fingerprint: String, told: Option<(String, String)>) -> (r: Result<(String, Apply), Error>)
        ensures
            r == (match told {
                Some((ddl, apply)) => Ok((ddl, apply_named(apply@))),
                None => Err(Error::UnknownSnapshot(fingerprint)),
            }),
    {
        match told {
            Some((ddl, apply)) => Ok((ddl, Apply::from_name(apply.as_str()))),
            None => Err(Error::UnknownSnapshot(fingerprint)),
        }
    }

    /// Builds one schema from a stored snapshot and writes it into the books: the
    /// first step.
    ///
    /// Nothing is reseeded here: the ddl carries the rows the migrations
    /// wrote, whether it is sql somebody wrote or a dump taken with
    /// `--inserts`. Putting them in twice is a duplicate key. Restoring is for
    /// the schema that comes back emptied: see `shape_told`.
    pub fn build_one(entry: Entry, apply: Apply, ddl: String) -> (r: BuildStep)
        ensures
            r == BuildStep::Run(
                Building::Creating { entry, apply, ddl },
                Statement::CreateSchema { name: entry.name },
            ),
    {
        let name = entry.name.clone();
        BuildStep::Run(Building::Creating { entry, apply, ddl }, Statement::CreateSchema { name })
    }
}

/// Where nothing was found before, a snapshot that is named is the current one
/// whatever its name is, as long as that says anything, and every name that
/// `fingerprint` returns does; nothing, and a name that says nothing, leave it
/// to the database, and what the database says is it. What was found before is
/// it in any case.
pub proof fn law_a_named_snapshot_is_the_current_one(
    found: String,
    named: String,
    maybe: Option<String>,
    told: Option<String>,
)
    ensures
        named@ != Seq::<char>::empty() ==> known(None, Some(named)) == Some(named),
        named@ == Seq::<char>::empty() ==> known(None, Some(named)) is None,
        known(None, None) is None,
        learnt(None, told) == told,
        known(Some(found), maybe) == Some(found),
        learnt(Some(found), told) == Some(found),
{
    if named@.len() == 0 {
        assert(named@ =~= Seq::<char>::empty());
    }
}

/// A schema that is leased is asked for by the snapshot it is to be of, in the
/// name of whoever asks, which is written down in full; one of the test's own
/// is always built, and always to be thrown away.
pub proof fn law_a_claim_says_of_what_and_for_whom(step: Claiming, fingerprint: String, burn: bool, me: Claim)
    requires
        is_first_step(step, fingerprint, burn, me),
    ensures
        burn <==> step is Build,
        step matches Claiming::Build { leased, burn: fresh } ==> leased && fresh,
        !burn ==> step is Ask,
        step matches Claiming::Ask(statement) ==> statement is Claim && statement->Claim_fingerprint
            == fingerprint && statement->Claim_holder@ == me.host + "/"@ + me.boot + "/"@ + decimal(me.pid as nat),
{
    law_a_claim_is_three_pieces(Seq::<char>::empty(), me.host, me.boot, Seq::<char>::empty());
    assert(me == (Claim { host: me.host, boot: me.boot, pid: me.pid }));
}

/// Who has finished with a lease. A claim on this boot of this machine is
/// judged by the process alone: the one that asks has not finished, and any
/// other has exactly where none of its number runs. All other leases, and
/// those that name nobody that can be read, are judged by age alone.
pub proof fn law_a_lease_is_finished_by_process_or_by_age(
    held: Held,
    me: Claim,
    running: Option<bool>,
    host: Seq<char>,
    boot: Seq<char>,
    digits: Seq<char>,
)
    ensures
        held.holder is None ==> is_finished(held, me, running) == (held.overdue == Some(true)),
        held.holder matches Some(text) && text@ == host + "/"@ + boot + "/"@ + digits && !host.contains('/')
            && !boot.contains('/') && number_in(digits) is Some ==> is_finished(held, me, running) == (if host
            == me.host && boot == me.boot && number_in(digits) == Some(me.pid) {
            false
        } else if host == me.host && boot == me.boot && running is Some {
            running == Some(false)
        } else {
            held.overdue == Some(true)
        }),
        held.holder matches Some(text) && claim_in(text@) is None ==> is_finished(held, me, running) == (
        held.overdue == Some(true)),
{
    law_a_claim_is_three_pieces(Seq::<char>::empty(), host, boot, digits);
}

/// Each lease is judged by itself: those that are taken back of several are
/// those of the first and those of the rest, however many there are.
pub proof fn law_each_lease_is_judged_by_itself(
    front: Seq<(Held, Option<bool>)>,
    one: (Held, Option<bool>),
    back: Seq<(Held, Option<bool>)>,
    me: Claim,
)
    ensures
        finished_among(Seq::<(Held, Option<bool>)>::empty(), me).len() == 0,
        finished_among(front + seq![one] + back, me) == finished_among(front, me) + (if is_finished(
            one.0,
            me,
            one.1,
        ) {
            seq![one.0]
        } else {
            Seq::<Held>::empty()
        }) + finished_among(back, me),
{
    let judged = |one: (Held, Option<bool>)| is_finished(one.0, me, one.1);
    let lease = |one: (Held, Option<bool>)| one.0;
    reveal_with_fuel(Seq::filter, 2);
    Seq::filter_distributes_over_add(front + seq![one], back, judged);
    Seq::filter_distributes_over_add(front, seq![one], judged);
    assert(seq![one].drop_last() =~= Seq::<(Held, Option<bool>)>::empty());
    let middle = seq![one].filter(judged);
    assert(middle =~= if judged(one) {
        seq![one]
    } else {
        Seq::<(Held, Option<bool>)>::empty()
    });
    let whole = (front + seq![one] + back).filter(judged);
    assert(whole == front.filter(judged) + middle + back.filter(judged));
    assert(whole.map_values(lease) =~= front.filter(judged).map_values(lease) + middle.map_values(lease)
        + back.filter(judged).map_values(lease));
}

/// What is run for a schema is about that schema and nothing else.
pub proof fn law_a_schema_goes_in_these_steps(name: String)
    ensures
        discarding(name).len() == 2,
        discarding(name)[0] == (Statement::DropSchema { name }),
        discarding(name)[1] == (Statement::ForgetSchema { name }),
        recycling(name).len() == 3,
        recycling(name)[0] == (Statement::Wipe { name }),
        recycling(name)[1] == (Statement::Reseed { name }),
        recycling(name)[2] == (Statement::MakeReady { name }),
        clearing(name).len() == 2,
        clearing(name)[0] == Statement::ResetPath,
        clearing(name)[1] == (Statement::DropSchema { name }),
{
}

/// A schema is built in these steps, each after the one before has succeeded:
/// it was made, the snapshot's whole text is run in it as the snapshot says,
/// the search path is put back where that has not happened, and it is written
/// into the books as it was asked for. What fails is reported as it failed,
/// and once there is something to clear away that is done first.
pub proof fn law_a_schema_is_built_in_these_steps(entry: Entry, apply: Apply, ddl: String, why: Error)
    ensures
        ({
            let name = entry.name;
            let creating = Building::Creating { entry, apply, ddl };
            let replaying = Building::Replaying { entry, apply };
            let resetting = Building::Resetting { entry };
            let last = BuildWanted::Run(
                Building::Recording { name },
                Statement::Record {
                    name,
                    fingerprint: entry.fingerprint,
                    leased: entry.leased,
                    burn: entry.burn,
                    holder: entry.holder,
                },
            );
            let cleared = BuildWanted::Attempt(
                Building::Clearing { why },
                seq![Statement::ResetPath, Statement::DropSchema { name }],
            );
            let failed = BuildWanted::Done(Err(why));
            &&& building_goes_on(creating, Ok(())) == BuildWanted::Run(
                replaying,
                Statement::Replay { apply, ddl, name },
            )
            &&& building_goes_on(creating, Err(why)) == failed
            &&& apply is SearchPath ==> building_goes_on(replaying, Ok(())) == last
            &&& apply is Placeholder ==> building_goes_on(replaying, Ok(())) == BuildWanted::Run(
                resetting,
                Statement::ResetPath,
            )
            &&& building_goes_on(replaying, Err(why)) == cleared
            &&& building_goes_on(resetting, Ok(())) == last
            &&& building_goes_on(resetting, Err(why)) == cleared
            &&& building_goes_on(Building::Recording { name }, Ok(())) == BuildWanted::Done(Ok(name))
            &&& building_goes_on(Building::Recording { name }, Err(why)) == failed
            &&& building_goes_on(Building::Clearing { why }, Ok(())) == failed
        }),
{
}

/// A step that is the one that was wanted is it in everything: what is run,
/// what is attempted, and what is reported.
pub proof fn law_a_step_is_what_was_wanted(step: BuildStep, wanted: BuildWanted)
    ensures
        is_step(step, wanted) ==> (match step {
            BuildStep::Run(state, statement) => wanted == BuildWanted::Run(state, statement),
            BuildStep::Attempt(state, plan) => wanted == BuildWanted::Attempt(state, plan@),
            BuildStep::Done(result) => wanted == BuildWanted::Done(result),
        }),
{
}

} // verus!
