//! Taking a snapshot: building the schema once, and keeping the result.

use vstd::prelude::*;

use crate::error::Error;
use crate::outside::{lossy_of, utf8_lossy};
use crate::snapshot::{read_all, spliced, tidied, tidy, Apply, Recipe, Snapshot};
use crate::statement::Statement;
use crate::text::{texts, trim, trimmed};
use crate::url::{pointed_at, with_search_path};

verus! {

/// What makes an empty schema, in place of what was there under its name.
pub open spec fn preparing(name: String) -> Seq<Statement> {
    seq![Statement::DropSchema { name }, Statement::CreateSchema { name }]
}

/// What builds a snapshot's tables in an empty schema, and leaves the search
/// path as it was. What was dumped empties the search path itself, and puts
/// nothing back; what is run as written ends by putting it back.
pub open spec fn shaping(name: String, apply: Apply, ddl: String) -> Seq<Statement> {
    let built = preparing(name).push(Statement::Replay { apply, ddl, name });
    match apply {
        Apply::SearchPath => built,
        Apply::Placeholder => built.push(Statement::ResetPath),
    }
}

/// What writes a snapshot into the books, once the schema it was looked at in
/// is gone.
pub open spec fn storing(name: String, snapshot: Snapshot) -> Seq<Statement> {
    seq![
        Statement::DropSchema { name },
        Statement::Store {
            fingerprint: snapshot.fingerprint,
            ddl: snapshot.ddl,
            shape: snapshot.shape,
            apply: snapshot.apply,
        },
    ]
}

/// What every snapshot is taken with: its fingerprint, and the name of the
/// schema it is looked at in.
pub struct Subject {
    pub fingerprint: String,
    pub shape_name: String,
}

/// The sql files are being read.
pub struct Reading {
    pub subject: Subject,
}

/// A command is building in the template.
pub struct Migrating {
    pub subject: Subject,
    pub url: String,
    pub template: String,
}

/// The template is being dumped.
pub struct Dumping {
    pub subject: Subject,
    pub template: String,
}

/// What came of a snapshot is being looked at.
pub struct Looking {
    pub subject: Subject,
    pub ddl: String,
    pub apply: Apply,
}

/// Statements are being run.
pub enum Running {
    /// An empty template is being made for a command to build in.
    Preparing { subject: Subject, command: String, url: String, template: String },
    /// The template is being taken down.
    Clearing { subject: Subject, ddl: String },
    /// The snapshot is being built once more, to be looked at.
    Shaping { subject: Subject, ddl: String, apply: Apply },
    /// The snapshot is being written into the books.
    Storing { snapshot: Snapshot },
}

/// What to do next to take a snapshot.
pub enum CaptureStep {
    /// Read these files, as text.
    Read(Reading, Vec<Vec<u8>>),
    /// Run these, in order, up to the first that fails.
    Run(Running, Vec<Statement>),
    /// Run a command that builds in a schema, and hand it the url that
    /// reaches the schema.
    Migrate { state: Migrating, command: String, url: String, schema: String },
    /// Dump a schema of the database at a url.
    Dump { state: Dumping, url: String, template: String },
    /// Ask this.
    Ask(Looking, Statement),
    /// The snapshot is taken.
    Done(Snapshot),
}

/// The first step to a snapshot.
pub open spec fn is_first(
    step: CaptureStep,
    recipe: Recipe,
    fingerprint: String,
    url: String,
    template: String,
    shape_name: String,
) -> bool {
    let subject = Subject { fingerprint, shape_name };
    match recipe {
        Recipe::Sql(files) => step == CaptureStep::Read(Reading { subject }, files),
        Recipe::Command(command) => step matches CaptureStep::Run(state, plan) && state == (
        Running::Preparing { subject, command, url, template }) && plan@ == preparing(template),
    }
}

/// The step after the sql files have been read.
pub open spec fn is_after_files(step: CaptureStep, state: Reading, files: Seq<Seq<char>>) -> bool {
    &&& step matches CaptureStep::Run(Running::Shaping { subject: same, ddl, apply }, plan)
    &&& same == state.subject
    &&& ddl@ == spliced(files)
    &&& apply == Apply::SearchPath
    &&& plan@ == shaping(same.shape_name, apply, ddl)
}

/// The step after statements have been run.
pub open spec fn is_after_run(step: CaptureStep, state: Running) -> bool {
    match state {
        Running::Preparing { subject, command, url, template } => {
            &&& step matches CaptureStep::Migrate { state: next, command: told, url: scoped, schema }
            &&& next == (Migrating { subject, url, template })
            &&& told == command
            &&& scoped@ == pointed_at(url@, template@)
            &&& schema == template
        },
        Running::Clearing { subject, ddl } => {
            &&& step matches CaptureStep::Run(next, plan)
            &&& next == (Running::Shaping { subject, ddl, apply: Apply::Placeholder })
            &&& plan@ == shaping(subject.shape_name, Apply::Placeholder, ddl)
        },
        Running::Shaping { subject, ddl, apply } => step == CaptureStep::Ask(
            Looking { subject, ddl, apply },
            Statement::ShapeOf { name: subject.shape_name },
        ),
        Running::Storing { snapshot } => step == CaptureStep::Done(snapshot),
    }
}

/// The step after the command has built in the template.
pub open spec fn is_after_migrator(step: CaptureStep, state: Migrating) -> bool {
    step == (CaptureStep::Dump {
        state: Dumping { subject: state.subject, template: state.template },
        url: state.url,
        template: state.template,
    })
}

/// The step after the template has been dumped.
pub open spec fn is_after_dump(step: CaptureStep, state: Dumping, ddl: String) -> bool {
    &&& step matches CaptureStep::Run(next, plan)
    &&& next == (Running::Clearing { subject: state.subject, ddl })
    &&& plan@ == seq![Statement::DropSchema { name: state.template }]
}

/// The step after the database has said what the result looks like.
pub open spec fn is_after_look(step: CaptureStep, state: Looking, shape: String) -> bool {
    let snapshot = Snapshot {
        fingerprint: state.subject.fingerprint,
        ddl: state.ddl,
        shape,
        apply: state.apply,
    };
    &&& step matches CaptureStep::Run(next, plan)
    &&& next == (Running::Storing { snapshot })
    &&& plan@ == storing(state.subject.shape_name, snapshot)
}

/// Makes an empty schema, in place of what was there under its name.
fn prepare(name: &String) -> (r: Vec<Statement>)
    ensures
        r@ == preparing(*name),
{
    let mut r: Vec<Statement> = Vec::new();
    r.push(Statement::DropSchema { name: name.clone() });
    r.push(Statement::CreateSchema { name: name.clone() });
    proof {
        assert(r@ =~= preparing(*name));
    }
    r
}

/// Builds the snapshot once more, into a schema of its own, purely to record
/// what the result looks like.
///
/// That record is what tells a returning schema apart from one a test has
/// altered, and it has to come from the snapshot rather than from the
/// migrator; otherwise a dump that loses something would go unnoticed,
/// because the shape it is compared against would have lost it too.
fn shape(subject: Subject, ddl: String, apply: Apply) -> (r: CaptureStep)
    ensures
        r matches CaptureStep::Run(state, plan) && state == (Running::Shaping { subject, ddl, apply })
            && plan@ == shaping(subject.shape_name, apply, ddl),
{
    let mut plan = prepare(&subject.shape_name);
    plan.push(Statement::Replay { apply, ddl: ddl.clone(), name: subject.shape_name.clone() });
    match apply {
        Apply::SearchPath => {},
        Apply::Placeholder => {
            plan.push(Statement::ResetPath);
        },
    }
    proof {
        assert(plan@ =~= shaping(subject.shape_name, apply, ddl));
    }
    CaptureStep::Run(Running::Shaping { subject, ddl, apply }, plan)
}

/// Builds the schema once and keeps the result: the first step.
///
/// `url` is where the pool is, `template` names the schema a command builds
/// in, and `shape_name` the schema the result is looked at in.
///
/// Storing a snapshot does not make it the one a test gets. Deciding that is
/// `SetCurrent`, and it is separate because it is the only part of this that
/// every other run of the suite can see.
pub fn capture(
    recipe: Recipe,
    fingerprint: String,
    url: String,
    template: String,
    shape_name: String,
) -> (r: CaptureStep)
    ensures
        is_first(r, recipe, fingerprint, url, template, shape_name),
{
    let subject = Subject { fingerprint, shape_name };
    match recipe {
        Recipe::Sql(files) => CaptureStep::Read(Reading { subject }, files),
        Recipe::Command(command) => {
            let plan = prepare(&template);
            CaptureStep::Run(Running::Preparing { subject, command, url, template }, plan)
        },
    }
}

impl Reading {
    /// The next step, once the sql files have been read.
    pub fn files_read(self, files: &Vec<String>) -> (r: CaptureStep)
        ensures
            is_after_files(r, self, texts(files@)),
    {
        shape(self.subject, read_all(files), Apply::SearchPath)
    }
}

impl Running {
    /// The next step, once the statements have been run.
    pub fn ran(self) -> (r: CaptureStep)
        ensures
            is_after_run(r, self),
    {
        match self {
            Running::Preparing { subject, command, url, template } => {
                let scoped = with_search_path(url.as_str(), template.as_str());
                let schema = template.clone();
                CaptureStep::Migrate {
                    state: Migrating { subject, url, template },
                    command,
                    url: scoped,
                    schema,
                }
            },
            Running::Clearing { subject, ddl } => shape(subject, ddl, Apply::Placeholder),
            Running::Shaping { subject, ddl, apply } => {
                let name = subject.shape_name.clone();
                CaptureStep::Ask(Looking { subject, ddl, apply }, Statement::ShapeOf { name })
            },
            Running::Storing { snapshot } => CaptureStep::Done(snapshot),
        }
    }
}

impl Migrating {
    /// The next step, once the command has built in the template.
    pub fn migrated(self) -> (r: CaptureStep)
        ensures
            is_after_migrator(r, self),
    {
        let template = self.template.clone();
        CaptureStep::Dump {
            state: Dumping { subject: self.subject, template: self.template },
            url: self.url,
            template,
        }
    }
}

impl Dumping {
    /// The next step, once the template has been dumped.
    pub fn dumped(self, ddl: String) -> (r: CaptureStep)
        ensures
            is_after_dump(r, self, ddl),
    {
        let mut plan: Vec<Statement> = Vec::new();
        plan.push(Statement::DropSchema { name: self.template });
        proof {
            assert(plan@ =~= seq![Statement::DropSchema { name: self.template }]);
        }
        CaptureStep::Run(Running::Clearing { subject: self.subject, ddl }, plan)
    }
}

impl Looking {
    /// The next step, once the database has said what the result looks like.
    pub fn looks(self, shape: String) -> (r: CaptureStep)
        ensures
            is_after_look(r, self, shape),
    {
        let Looking { subject, ddl, apply } = self;
        let mut plan: Vec<Statement> = Vec::new();
        plan.push(Statement::DropSchema { name: subject.shape_name });
        plan.push(
            Statement::Store {
                fingerprint: subject.fingerprint.clone(),
                ddl: ddl.clone(),
                shape: shape.clone(),
                apply,
            },
        );
        let snapshot = Snapshot { fingerprint: subject.fingerprint, ddl, shape, apply };
        proof {
            assert(plan@ =~= storing(subject.shape_name, snapshot));
        }
        CaptureStep::Run(Running::Storing { snapshot }, plan)
    }
}

/// What is run to take a snapshot of sql files.
pub open spec fn captured_sql(name: String, snapshot: Snapshot) -> Seq<Statement> {
    shaping(name, snapshot.apply, snapshot.ddl) + storing(name, snapshot)
}

/// What is run to take a snapshot of what a command built.
pub open spec fn captured_command(template: String, name: String, snapshot: Snapshot) -> Seq<Statement> {
    preparing(template).push(Statement::DropSchema { name: template }) + captured_sql(name, snapshot)
}

/// What a step runs, other than questions.
pub open spec fn run_by(step: CaptureStep) -> Seq<Statement> {
    match step {
        CaptureStep::Run(_, plan) => plan@,
        _ => Seq::<Statement>::empty(),
    }
}

/// Taking a snapshot of sql files reads the files, builds what they say in a
/// schema, asks what came of it, and stores exactly that; the schema is made
/// for it and taken down again.
pub proof fn law_a_snapshot_of_sql_is_taken(
    files: Vec<Vec<u8>>,
    fingerprint: String,
    url: String,
    template: String,
    shape_name: String,
    contents: Seq<Seq<char>>,
    shape: String,
    steps: Seq<CaptureStep>,
)
    requires
        steps.len() == 5,
        is_first(steps[0], Recipe::Sql(files), fingerprint, url, template, shape_name),
        is_after_files(steps[1], steps[0]->Read_0, contents),
        is_after_run(steps[2], steps[1]->Run_0),
        is_after_look(steps[3], steps[2]->Ask_0, shape),
        is_after_run(steps[4], steps[3]->Run_0),
    ensures
        steps[0] matches CaptureStep::Read(_, read) && read == files,
        steps[2] matches CaptureStep::Ask(_, asked) && asked == (Statement::ShapeOf { name: shape_name }),
        steps[4] matches CaptureStep::Done(snapshot) && snapshot.fingerprint == fingerprint && snapshot.ddl@
            == spliced(contents) && snapshot.shape == shape && snapshot.apply == Apply::SearchPath && run_by(
            steps[1],
        ) + run_by(steps[3]) == captured_sql(shape_name, snapshot),
{
}

/// Taking a snapshot of what a command builds makes an empty template, has
/// the command build in it and nowhere else, dumps it and takes it down;
/// then what was dumped is built in a schema of its own, and what came of
/// that is stored beside it.
pub proof fn law_a_snapshot_of_a_command_is_taken(
    command: String,
    fingerprint: String,
    url: String,
    template: String,
    shape_name: String,
    ddl: String,
    shape: String,
    steps: Seq<CaptureStep>,
)
    requires
        steps.len() == 8,
        is_first(steps[0], Recipe::Command(command), fingerprint, url, template, shape_name),
        is_after_run(steps[1], steps[0]->Run_0),
        is_after_migrator(steps[2], steps[1]->Migrate_state),
        is_after_dump(steps[3], steps[2]->Dump_state, ddl),
        is_after_run(steps[4], steps[3]->Run_0),
        is_after_run(steps[5], steps[4]->Run_0),
        is_after_look(steps[6], steps[5]->Ask_0, shape),
        is_after_run(steps[7], steps[6]->Run_0),
    ensures
        steps[1] matches CaptureStep::Migrate { command: told, url: scoped, schema, .. } && told == command
            && scoped@ == pointed_at(url@, template@) && schema == template,
        steps[2] matches CaptureStep::Dump { url: whole, template: dumped, .. } && whole == url && dumped
            == template,
        steps[5] matches CaptureStep::Ask(_, asked) && asked == (Statement::ShapeOf { name: shape_name }),
        steps[7] matches CaptureStep::Done(snapshot) && snapshot == (Snapshot {
            fingerprint,
            ddl,
            shape,
            apply: Apply::Placeholder,
        }) && run_by(steps[0]) + run_by(steps[3]) + run_by(steps[4]) + run_by(steps[6]) == captured_command(
            template,
            shape_name,
            snapshot,
        ),
{
    let snapshot = Snapshot { fingerprint, ddl, shape, apply: Apply::Placeholder };
    assert(run_by(steps[0]) + run_by(steps[3]) =~= preparing(template).push(
        Statement::DropSchema { name: template },
    ));
    assert(run_by(steps[0]) + run_by(steps[3]) + run_by(steps[4]) + run_by(steps[6]) =~= captured_command(
        template,
        shape_name,
        snapshot,
    ));
}

/// What a migrator is told in its environment: the url under three names,
/// because a migrator reads whichever one its project happens to use, and
/// being told to set a fourth is how a migration ends up running against the
/// wrong database.
pub fn migrator_env(scoped_url: &str, schema: &str) -> (r: Vec<(String, String)>)
    ensures
        r@.map_values(|pair: (String, String)| (pair.0@, pair.1@)) == seq![
            ("DATABASE_URL"@, scoped_url@),
            ("TEST_DATABASE_URL"@, scoped_url@),
            ("HAZIR_URL"@, scoped_url@),
            ("HAZIR_SCHEMA"@, schema@),
        ],
{
    let mut r: Vec<(String, String)> = Vec::new();
    r.push(("DATABASE_URL".to_owned(), scoped_url.to_owned()));
    r.push(("TEST_DATABASE_URL".to_owned(), scoped_url.to_owned()));
    r.push(("HAZIR_URL".to_owned(), scoped_url.to_owned()));
    r.push(("HAZIR_SCHEMA".to_owned(), schema.to_owned()));
    proof {
        assert(r@.map_values(|pair: (String, String)| (pair.0@, pair.1@)) =~= seq![
            ("DATABASE_URL"@, scoped_url@),
            ("TEST_DATABASE_URL"@, scoped_url@),
            ("HAZIR_URL"@, scoped_url@),
            ("HAZIR_SCHEMA"@, schema@),
        ]);
    }
    r
}

/// What a migrator that failed is reported as.
pub open spec fn migrate_text(command: Seq<char>, status: Seq<char>, stderr: Seq<char>) -> Seq<char> {
    seq!['`'] + command + "` exited "@ + status + ": "@ + trimmed(stderr)
}

/// What a migrator that failed is reported as: how it ended, and what it
/// complained of.
pub fn migrate_failure(command: &str, status: &str, stderr: &str) -> (r: String)
    ensures
        r@ == migrate_text(command@, status@, stderr@),
{
    let mut what = String::new();
    what.push('`');
    what.append(command);
    what.append("` exited ");
    what.append(status);
    what.append(": ");
    what.append(trim(stderr).as_str());
    proof {
        assert(what@ =~= migrate_text(command@, status@, stderr@));
    }
    what
}

/// What came of the command that builds the schema.
pub fn migrate_told(command: &str, success: bool, status: &str, stderr: &[u8]) -> (r: Result<(), Error>)
    ensures
        match r {
            Ok(_) => success,
            Err(Error::Migrate(what)) => !success && what@ == migrate_text(
                command@,
                status@,
                utf8_lossy(stderr@),
            ),
            Err(_) => false,
        },
{
    if success {
        Ok(())
    } else {
        Err(Error::Migrate(migrate_failure(command, status, lossy_of(stderr).as_str())))
    }
}

/// What pg_dump is asked: for one schema, the tables and the rows the
/// migrations wrote into them, the rows as `INSERT`s, which a driver can
/// replay where it could not a `COPY`.
pub open spec fn dump_words(url: Seq<char>, template: Seq<char>) -> Seq<Seq<char>> {
    seq![
        "--dbname"@,
        url,
        "--inserts"@,
        "--no-owner"@,
        "--no-privileges"@,
        "--no-comments"@,
        "--quote-all-identifiers"@,
        "--schema"@,
        template,
    ]
}

/// What pg_dump is asked: for one schema, its tables and its rows.
pub fn dump_args(url: &str, template: &str) -> (r: Vec<String>)
    ensures
        texts(r@) == dump_words(url@, template@),
{
    let mut r: Vec<String> = Vec::new();
    r.push("--dbname".to_owned());
    r.push(url.to_owned());
    r.push("--inserts".to_owned());
    r.push("--no-owner".to_owned());
    r.push("--no-privileges".to_owned());
    r.push("--no-comments".to_owned());
    r.push("--quote-all-identifiers".to_owned());
    r.push("--schema".to_owned());
    r.push(template.to_owned());
    proof {
        assert(texts(r@) =~= dump_words(url@, template@));
    }
    r
}

/// What came of running pg_dump.
pub enum Dumped {
    /// There is none.
    NotFound,
    /// It could not be run.
    Failed(String),
    /// It ran.
    Ended { success: bool, stdout: Vec<u8>, stderr: Vec<u8> },
}

/// What is said where there is no pg_dump.
pub const NO_PG_DUMP: &'static str = "not on PATH. It comes with the Postgres client tools; without it `--migrate` is run once per schema instead of once in total";

/// The schema as text, its rows included, with its own name taken out of it.
///
/// The name is replaced by a token rather than by anything clever, and the
/// token is what every new schema substitutes itself into. It is a long,
/// generated identifier, so a literal replacement of it cannot hit anything
/// else in the dump.
pub fn dump_told(told: Dumped, template: &str) -> (r: Result<String, Error>)
    ensures
        match told {
            Dumped::NotFound => r matches Err(Error::Dump(what)) && what@ == NO_PG_DUMP@,
            Dumped::Failed(what) => r == Err::<String, Error>(Error::Io(what)),
            Dumped::Ended { success, stdout, stderr } => if success {
                r matches Ok(text) && text@ == tidied(utf8_lossy(stdout@), template@)
            } else {
                r matches Err(Error::Dump(what)) && what@ == trimmed(utf8_lossy(stderr@))
            },
        },
{
    match told {
        Dumped::NotFound => Err(Error::Dump(NO_PG_DUMP.to_owned())),
        Dumped::Failed(what) => Err(Error::Io(what)),
        Dumped::Ended { success, stdout, stderr } => if success {
            Ok(tidy(lossy_of(stdout.as_slice()).as_str(), template))
        } else {
            Err(Error::Dump(trim(lossy_of(stderr.as_slice()).as_str())))
        },
    }
}

/// A migrator that failed is reported with the whole command, how it ended, and
/// what it complained of, less the white space around that.
pub proof fn law_a_failure_is_reported_in_full(command: Seq<char>, status: Seq<char>, stderr: Seq<char>)
    ensures
        migrate_text(command, status, stderr) == "`"@ + command + "` exited "@ + status + ": "@ + trimmed(stderr),
{
    reveal_strlit("`");
    assert("`"@ =~= seq!['`']);
}

/// Of what pg_dump is asked, only which database and which schema depend on
/// anything; whatever those are called, they are asked for as they are.
pub proof fn law_a_dump_is_of_that_schema(
    url: Seq<char>,
    template: Seq<char>,
    other_url: Seq<char>,
    other: Seq<char>,
)
    ensures
        dump_words(url, template).len() == 9,
        dump_words(url, template)[0] == "--dbname"@,
        dump_words(url, template)[1] == url,
        dump_words(url, template)[7] == "--schema"@,
        dump_words(url, template)[8] == template,
        dump_words(url, template).contains("--inserts"@),
        dump_words(url, template) == dump_words(other_url, other).update(1, url).update(8, template),
{
    let words = dump_words(url, template);
    assert(words[2] == "--inserts"@);
    assert(words =~= dump_words(other_url, other).update(1, url).update(8, template));
}

} // verus!
