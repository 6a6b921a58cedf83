//! What the program decides and what it says.

use vstd::prelude::*;
use vstd::utf8::{encode_utf8, is_ascii_chars};

use crate::name::{
    can_clip, clip, clipped, clips, is_words, law_a_text_can_be_cut_between_characters,
    law_what_is_cut_off_is_the_front, lemma_clip_ascii, SHOWN,
};
use crate::number::{decimal, signed_decimal, write_decimal, write_signed};
use crate::outside::{lossy_of, utf8_lossy};
use crate::pool::{sweep, sweeps};
use crate::snapshot::Recipe;
use crate::statement::Statement;
use crate::text::{chars_of, texts};

verus! {

/// How much of a fingerprint is printed.
pub const PRINTED: usize = 12;

/// Whether as much of a fingerprint as is printed can be cut off.
pub open spec fn prints(fingerprint: Seq<char>) -> bool {
    encode_utf8(fingerprint).len() >= PRINTED && clips(fingerprint, PRINTED as nat)
}

/// Whether as much of a fingerprint as is printed can be cut off.
pub fn can_print(fingerprint: &str) -> (r: bool)
    ensures
        r == prints(fingerprint@),
{
    fingerprint.as_bytes().len() >= PRINTED && can_clip(fingerprint, PRINTED)
}

/// What `fingerprint` returns can always be cut, for a name and for print: it
/// is not too short, and never cut inside a character.
pub proof fn law_a_fingerprint_can_be_shown(fingerprint: Seq<char>)
    requires
        is_words(fingerprint),
        fingerprint.len() == 64,
    ensures
        prints(fingerprint),
        clip(fingerprint, PRINTED as nat) == fingerprint.take(PRINTED as int),
        clips(fingerprint, SHOWN as nat),
        clip(fingerprint, SHOWN as nat) == fingerprint.take(SHOWN as int),
{
    assert(is_ascii_chars(fingerprint));
    vstd::utf8::is_ascii_chars_encode_utf8(fingerprint);
    lemma_clip_ascii(fingerprint, PRINTED as nat);
    lemma_clip_ascii(fingerprint, SHOWN as nat);
}

/// What is said of a command without sources.
pub const NO_SOURCE: &'static str = "--migrate wants at least one --source: the files that decide whether the snapshot still stands";

/// What is said of a machine without pg_dump.
pub const NEEDS_PG_DUMP: &'static str = "--migrate needs pg_dump on PATH to take the snapshot. Install the Postgres client tools, or point --sql at a directory of .sql migrations instead";

/// The recipe for a directory of sql files, and the sources that decide
/// whether its snapshot still stands: those that were named, or else the
/// directory. A directory without sql files is refused.
pub fn sql_recipe(dir: Vec<u8>, files: Vec<Vec<u8>>, sources: Vec<Vec<u8>>) -> (r: Result<
    (Recipe, Vec<Vec<u8>>),
    String,
>)
    ensures
        match r {
            Ok((recipe, chosen)) => files@.len() > 0 && recipe == Recipe::Sql(files) && (if sources@.len() > 0 {
                chosen == sources
            } else {
                chosen@ == seq![dir]
            }),
            Err(what) => files@.len() == 0 && what@ == "no .sql files under "@ + utf8_lossy(dir@),
        },
{
    if files.len() == 0 {
        let mut what = "no .sql files under ".to_owned();
        what.append(lossy_of(dir.as_slice()).as_str());
        return Err(what);
    }
    if sources.len() > 0 {
        Ok((Recipe::Sql(files), sources))
    } else {
        let mut chosen: Vec<Vec<u8>> = Vec::new();
        chosen.push(dir);
        proof {
            assert(chosen@ =~= seq![dir]);
        }
        Ok((Recipe::Sql(files), chosen))
    }
}

/// Whether a command was given sources that decide whether its snapshot still
/// stands.
pub fn wants_sources(sources: &Vec<Vec<u8>>) -> (r: Result<(), String>)
    ensures
        match r {
            Ok(_) => sources@.len() > 0,
            Err(what) => sources@.len() == 0 && what@ == NO_SOURCE@,
        },
{
    if sources.len() == 0 {
        Err(NO_SOURCE.to_owned())
    } else {
        Ok(())
    }
}

/// The recipe for a command, on a machine that has pg_dump or has not.
pub fn command_recipe(command: String, have_pg_dump: bool) -> (r: Result<Recipe, String>)
    ensures
        match r {
            Ok(recipe) => have_pg_dump && recipe == Recipe::Command(command),
            Err(what) => !have_pg_dump && what@ == NEEDS_PG_DUMP@,
        },
{
    if have_pg_dump {
        Ok(Recipe::Command(command))
    } else {
        Err(NEEDS_PG_DUMP.to_owned())
    }
}

/// Whether the snapshot has to be taken, given how many there are with its
/// fingerprint, and what is said of it.
pub fn take_snapshot(fingerprint: &str, known: i64, force: bool) -> (r: (bool, String))
    requires
        prints(fingerprint@),
    ensures
        r.0 == (known == 0 || force),
        r.1@ == (if known == 0 || force {
            "building the schema once ("@
        } else {
            "the schema is unchanged ("@
        }) + clip(fingerprint@, PRINTED as nat) + ")"@,
{
    let take = known == 0 || force;
    let mut said = if take {
        "building the schema once (".to_owned()
    } else {
        "the schema is unchanged (".to_owned()
    };
    said.append(clipped(fingerprint, PRINTED).as_str());
    said.append(")");
    (take, said)
}

/// What is said of a pool that has been stocked.
pub open spec fn stocked_text(want: nat, back: nat, made: nat) -> Seq<char> {
    "pool of "@ + decimal(want) + ": "@ + decimal(back) + " taken back, "@ + decimal(made) + " made"@
}

/// What is said of a pool that has been stocked.
pub fn stocked(want: usize, back: usize, made: usize) -> (r: String)
    ensures
        r@ == stocked_text(want as nat, back as nat, made as nat),
{
    let mut r = "pool of ".to_owned();
    write_decimal(&mut r, want as u64);
    r.append(": ");
    write_decimal(&mut r, back as u64);
    r.append(" taken back, ");
    write_decimal(&mut r, made as u64);
    r.append(" made");
    r
}

/// What nextest is told, for the environment of every test it then runs.
pub fn export_line(fingerprint: &str) -> (r: String)
    ensures
        r@ == "HAZIR_FINGERPRINT="@ + fingerprint@,
{
    let mut r = "HAZIR_FINGERPRINT=".to_owned();
    r.append(fingerprint);
    r
}

/// What is said of leases that were taken back: nothing where there were
/// none.
pub fn took_back(taken: usize) -> (r: Option<String>)
    ensures
        match r {
            Some(said) => taken > 0 && said@ == "took back "@ + decimal(taken as nat),
            None => taken == 0,
        },
{
    if taken == 0 {
        return None;
    }
    let mut said = "took back ".to_owned();
    write_decimal(&mut said, taken as u64);
    Some(said)
}

/// What follows once leases have been taken back: what is said of them, and
/// after how many seconds to look again, where that was asked for. Where it
/// was not, once is enough.
pub fn after_reclaim(taken: usize, every: Option<u64>) -> (r: (Option<String>, Option<u64>))
    ensures
        match r.0 {
            Some(said) => taken > 0 && said@ == "took back "@ + decimal(taken as nat),
            None => taken == 0,
        },
        r.1 == every,
{
    (took_back(taken), every)
}

/// How long, in seconds, a lease may be held by something this cannot ask
/// about before a warm-up takes it back.
pub const STALE: u64 = 900;

/// The books are being asked for the snapshot.
pub struct Counting {
    pub fingerprint: String,
    pub want: usize,
    pub force: bool,
}

/// The snapshot is being taken.
pub struct Capturing {
    pub fingerprint: String,
    pub want: usize,
}

/// The snapshot is being made the current one.
pub struct Setting {
    pub fingerprint: String,
    pub want: usize,
}

/// An earlier run's leftovers are being taken back.
pub struct Reclaiming {
    pub fingerprint: String,
    pub want: usize,
}

/// The pool is being stocked.
pub struct Stocking {
    pub fingerprint: String,
    pub want: usize,
    pub back: usize,
}

/// What to do next to warm the pool.
pub enum WarmStep {
    /// Ask this.
    Ask(Counting, Statement),
    /// Say this, and take the snapshot.
    Capture(Capturing, String),
    /// Say this, where there is anything to say, and run this.
    Run(Setting, Option<String>, Statement),
    /// Take back the leases whose holders have finished, or cannot be judged
    /// and have held them for this many seconds.
    Reclaim(Reclaiming, u64),
    /// Bring the schemas of a snapshot up to this many.
    Stock { state: Stocking, fingerprint: String, want: usize },
    /// Say this, and let the tests know of that.
    Done { said: String, export: String },
}

/// Builds the schema once, if it has to be, and stocks the pool from it: the
/// first step.
pub fn warm_up(fingerprint: String, want: usize, force: bool) -> (r: WarmStep)
    ensures
        r == WarmStep::Ask(
            Counting { fingerprint, want, force },
            Statement::CountSnapshots { fingerprint },
        ),
{
    let asked = fingerprint.clone();
    WarmStep::Ask(
        Counting { fingerprint, want, force },
        Statement::CountSnapshots { fingerprint: asked },
    )
}

/// The step after the books have said how many snapshots there are with the
/// fingerprint.
pub open spec fn is_after_count(step: WarmStep, state: Counting, known: i64) -> bool {
    let Counting { fingerprint, want, force } = state;
    if known == 0 || force {
        &&& step matches WarmStep::Capture(next, said)
        &&& next == (Capturing { fingerprint, want })
        &&& said@ == "building the schema once ("@ + clip(fingerprint@, PRINTED as nat) + ")"@
    } else {
        &&& step matches WarmStep::Run(next, Some(said), statement)
        &&& next == (Setting { fingerprint, want })
        &&& said@ == "the schema is unchanged ("@ + clip(fingerprint@, PRINTED as nat) + ")"@
        &&& statement == (Statement::SetCurrent { fingerprint })
    }
}

/// The step after the snapshot has been taken.
pub open spec fn is_after_capture(step: WarmStep, state: Capturing) -> bool {
    let Capturing { fingerprint, want } = state;
    step == WarmStep::Run(Setting { fingerprint, want }, None, Statement::SetCurrent { fingerprint })
}

/// The step after the snapshot has been made the current one.
pub open spec fn is_after_set(step: WarmStep, state: Setting) -> bool {
    let Setting { fingerprint, want } = state;
    step == WarmStep::Reclaim(Reclaiming { fingerprint, want }, STALE)
}

/// The step after leases have been taken back.
pub open spec fn is_after_reclaim(step: WarmStep, state: Reclaiming, back: usize) -> bool {
    let Reclaiming { fingerprint, want } = state;
    step == (WarmStep::Stock { state: Stocking { fingerprint, want, back }, fingerprint, want })
}

/// The last step, after schemas have been made.
pub open spec fn is_after_stock(step: WarmStep, state: Stocking, made: usize) -> bool {
    &&& step matches WarmStep::Done { said, export }
    &&& said@ == stocked_text(state.want as nat, state.back as nat, made as nat)
    &&& export@ == "HAZIR_FINGERPRINT="@ + state.fingerprint@
}

/// However a warm-up goes, it ends with the snapshot it was for as the
/// current one, and with the tests told of that one; what an earlier run left
/// is taken back before anything is made; and a snapshot that is there is
/// taken again only where that is forced.
pub proof fn law_a_warm_up_makes_its_snapshot_current(
    fingerprint: String,
    want: usize,
    force: bool,
    known: i64,
    back: usize,
    made: usize,
    counted: WarmStep,
    set: WarmStep,
    reclaimed: WarmStep,
    stocked: WarmStep,
    done: WarmStep,
)
    requires
        is_after_count(counted, (Counting { fingerprint, want, force }), known),
        counted matches WarmStep::Capture(state, _) ==> is_after_capture(set, state),
        counted !is Capture ==> set == counted,
        set matches WarmStep::Run(state, _, _) ==> is_after_set(reclaimed, state),
        reclaimed matches WarmStep::Reclaim(state, _) ==> is_after_reclaim(stocked, state, back),
        stocked matches WarmStep::Stock { state, .. } ==> is_after_stock(done, state, made),
    ensures
        counted is Capture <==> known == 0 || force,
        set matches WarmStep::Run(_, _, statement) && statement == (Statement::SetCurrent { fingerprint }),
        reclaimed matches WarmStep::Reclaim(_, seconds) && seconds == STALE,
        stocked matches WarmStep::Stock { fingerprint: named, want: wanted, .. } && named == fingerprint && wanted
            == want,
        done matches WarmStep::Done { export, .. } && export@ == "HAZIR_FINGERPRINT="@ + fingerprint@,
{
}

impl Counting {
    /// The next step, once the books have said how many snapshots there are
    /// with the fingerprint. One that is there and not to be taken again is
    /// made the current one as it is.
    pub fn counted(self, known: i64) -> (r: WarmStep)
        requires
            prints(self.fingerprint@),
        ensures
            is_after_count(r, self, known),
    {
        let Counting { fingerprint, want, force } = self;
        let (take, said) = take_snapshot(fingerprint.as_str(), known, force);
        if take {
            WarmStep::Capture(Capturing { fingerprint, want }, said)
        } else {
            let named = fingerprint.clone();
            WarmStep::Run(
                Setting { fingerprint, want },
                Some(said),
                Statement::SetCurrent { fingerprint: named },
            )
        }
    }
}

impl Capturing {
    /// The next step, once the snapshot has been taken. Storing it did not
    /// make it the one a test gets.
    pub fn captured(self) -> (r: WarmStep)
        ensures
            is_after_capture(r, self),
    {
        let Capturing { fingerprint, want } = self;
        let named = fingerprint.clone();
        WarmStep::Run(
            Setting { fingerprint, want },
            None,
            Statement::SetCurrent { fingerprint: named },
        )
    }
}

impl Setting {
    /// The next step, once the snapshot is the current one.
    ///
    /// Before stocking, not after: an earlier run's leftovers are schemas
    /// that are already built, and taking them back is free where making
    /// their replacements is not.
    pub fn set(self) -> (r: WarmStep)
        ensures
            is_after_set(r, self),
    {
        let Setting { fingerprint, want } = self;
        WarmStep::Reclaim(Reclaiming { fingerprint, want }, STALE)
    }
}

impl Reclaiming {
    /// The next step, once this many leases have been taken back.
    pub fn reclaimed(self, back: usize) -> (r: WarmStep)
        ensures
            is_after_reclaim(r, self, back),
    {
        let Reclaiming { fingerprint, want } = self;
        let named = fingerprint.clone();
        WarmStep::Stock { state: Stocking { fingerprint, want, back }, fingerprint: named, want }
    }
}

impl Stocking {
    /// The last step, once this many schemas have been made.
    pub fn stocked(self, made: usize) -> (r: WarmStep)
        ensures
            is_after_stock(r, self, made),
    {
        WarmStep::Done {
            said: stocked(self.want, self.back, made),
            export: export_line(self.fingerprint.as_str()),
        }
    }
}

/// A text, with spaces after it where it is shorter than `width`.
pub open spec fn padded(text: Seq<char>, width: nat) -> Seq<char>
    decreases width - text.len(),
{
    if text.len() >= width {
        text
    } else {
        padded(text.push(' '), width)
    }
}

/// Puts a text at the end of `out`, with spaces after it where it is shorter
/// than `width`.
fn write_padded(out: &mut String, text: &str, width: usize)
    ensures
        final(out)@ == old(out)@ + padded(text@, width as nat),
{
    let ghost before = out@;
    let mut n: usize = chars_of(text).len();
    let ghost mut so_far = text@;
    out.append(text);
    while n < width
        invariant
            n == so_far.len(),
            out@ == before + so_far,
            padded(so_far, width as nat) == padded(text@, width as nat),
        decreases width - n,
    {
        out.push(' ');
        n = n + 1;
        proof {
            so_far = so_far.push(' ');
            assert(out@ =~= before + so_far);
        }
    }
}

/// How many schemas there are of one snapshot in one state.
pub struct Tally {
    pub fingerprint: String,
    pub state: String,
    pub count: i64,
}

/// One line of what is in the pool.
pub open spec fn tally_text(tally: Tally) -> Seq<char> {
    padded(clip(tally.fingerprint@, PRINTED as nat), PRINTED as nat) + "  "@ + padded(tally.state@, 6)
        + "  "@ + signed_decimal(tally.count as int)
}

/// What is said of an empty pool.
pub const NOTHING_WARMED: &'static str = "nothing warmed here";

/// What is in the pool, line by line.
pub open spec fn status_text(all: Seq<Tally>) -> Seq<Seq<char>> {
    if all.len() == 0 {
        seq![NOTHING_WARMED@]
    } else {
        all.map_values(|tally: Tally| tally_text(tally))
    }
}

/// What is in the pool, line by line.
pub fn status(all: &Vec<Tally>) -> (r: Vec<String>)
    requires
        forall|i: int| 0 <= i < all@.len() ==> prints(#[trigger] all@[i].fingerprint@),
    ensures
        texts(r@) == status_text(all@),
{
    let mut r: Vec<String> = Vec::new();
    if all.len() == 0 {
        r.push(NOTHING_WARMED.to_owned());
        proof {
            assert(texts(r@) =~= seq![NOTHING_WARMED@]);
        }
        return r;
    }
    let ghost lines = all@.map_values(|tally: Tally| tally_text(tally));
    for i in 0..all.len()
        invariant
            forall|i: int| 0 <= i < all@.len() ==> prints(#[trigger] all@[i].fingerprint@),
            lines == all@.map_values(|tally: Tally| tally_text(tally)),
            texts(r@) == lines.take(i as int),
    {
        let tally = &all[i];
        proof {
            assert(prints(all@[i as int].fingerprint@));
        }
        let mut line = String::new();
        write_padded(&mut line, clipped(tally.fingerprint.as_str(), PRINTED).as_str(), PRINTED);
        line.append("  ");
        write_padded(&mut line, tally.state.as_str(), 6);
        line.append("  ");
        write_signed(&mut line, tally.count);
        proof {
            assert(line@ =~= tally_text(all@[i as int]));
            assert(texts(r@.push(line)) =~= texts(r@).push(line@));
            assert(lines.take(i + 1) =~= lines.take(i as int).push(line@));
        }
        r.push(line);
    }
    proof {
        assert(lines.take(lines.len() as int) =~= lines);
    }
    r
}

/// Drops every schema in the books, a few at a time, and then the books: what
/// does, and what is said of it.
pub fn clean(names: &Vec<String>) -> (r: (Vec<Statement>, String))
    ensures
        r.0@.len() >= 1,
        sweeps(r.0@.drop_last(), texts(names@)),
        r.0@.last() == Statement::DropBooks,
        r.1@ == "dropped "@ + decimal(names@.len()) + " schemas"@,
{
    let mut plan = sweep(names);
    let ghost swept = plan@;
    plan.push(Statement::DropBooks);
    proof {
        assert(plan@.drop_last() =~= swept);
    }
    let mut said = "dropped ".to_owned();
    write_decimal(&mut said, names.len() as u64);
    said.append(" schemas");
    (plan, said)
}

/// A column is the text, whole, with nothing but spaces behind it, as many as
/// bring it to the width of the column, and none where it is as wide already.
pub proof fn law_a_column_is_filled_with_spaces(text: Seq<char>, width: nat)
    ensures
        text.is_prefix_of(padded(text, width)),
        padded(text, width).len() == (if text.len() < width {
            width
        } else {
            text.len()
        }),
        forall|i: int| text.len() <= i < padded(text, width).len() ==> #[trigger] padded(text, width)[i] == ' ',
    decreases width - text.len(),
{
    let r = padded(text, width);
    if text.len() < width {
        law_a_column_is_filled_with_spaces(text.push(' '), width);
        assert(text.push(' ') =~= r.subrange(0, (text.len() + 1) as int));
        assert(text =~= r.subrange(0, text.len() as int)) by {
            assert forall|i: int| 0 <= i < text.len() implies text[i] == r[i] by {
                assert(text.push(' ')[i] == r.subrange(0, (text.len() + 1) as int)[i]);
            }
        }
        assert(r[text.len() as int] == r.subrange(0, (text.len() + 1) as int)[text.len() as int]);
    } else {
        assert(text =~= text.subrange(0, text.len() as int));
    }
}

/// An empty pool is said to be that. Of any other there is a line for every
/// count, in the order of the counts, and each line depends on its count alone:
/// twelve bytes of the fingerprint, the state, and the number.
pub proof fn law_the_pool_is_listed_line_by_line(all: Seq<Tally>)
    ensures
        all.len() == 0 ==> status_text(all) == seq!["nothing warmed here"@],
        all.len() > 0 ==> status_text(all).len() == all.len(),
        forall|i: int|
            0 <= i < all.len() ==> #[trigger] status_text(all)[i] == padded(clip(all[i].fingerprint@, 12), 12)
                + "  "@ + padded(all[i].state@, 6) + "  "@ + signed_decimal(all[i].count as int),
{
}

/// What is said at the end of a warm-up gives the three numbers as they are.
pub proof fn law_a_warm_up_says_what_it_did(want: nat, back: nat, made: nat)
    ensures
        stocked_text(want, back, made) == "pool of "@ + decimal(want) + ": "@ + decimal(back) + " taken back, "@
            + decimal(made) + " made"@,
{
}

/// What is said when the books have been asked tells whether the snapshot is
/// taken, and of which fingerprint.
pub proof fn law_a_warm_up_says_what_it_does(step: WarmStep, state: Counting, known: i64)
    requires
        is_after_count(step, state, known),
    ensures
        known == 0 || state.force ==> (match step {
            WarmStep::Capture(next, said) => said@ == "building the schema once ("@ + clip(
                state.fingerprint@,
                12,
            ) + ")"@ && next.fingerprint == state.fingerprint && next.want == state.want,
            _ => false,
        }),
        known != 0 && !state.force ==> (match step {
            WarmStep::Run(next, Some(said), statement) => said@ == "the schema is unchanged ("@ + clip(
                state.fingerprint@,
                12,
            ) + ")"@ && next.fingerprint == state.fingerprint && next.want == state.want && statement == (
            Statement::SetCurrent { fingerprint: state.fingerprint }),
            _ => false,
        }),
{
}

/// What is said and what is stocked at each later step is what was asked for
/// and what came back.
pub proof fn law_a_warm_up_carries_its_numbers(
    setting: Setting,
    reclaiming: Reclaiming,
    stocking: Stocking,
    back: usize,
    made: usize,
    reclaim: WarmStep,
    stock: WarmStep,
    done: WarmStep,
)
    requires
        is_after_set(reclaim, setting),
        is_after_reclaim(stock, reclaiming, back),
        is_after_stock(done, stocking, made),
    ensures
        reclaim == WarmStep::Reclaim(
            Reclaiming { fingerprint: setting.fingerprint, want: setting.want },
            900,
        ),
        stock == (WarmStep::Stock {
            state: Stocking { fingerprint: reclaiming.fingerprint, want: reclaiming.want, back },
            fingerprint: reclaiming.fingerprint,
            want: reclaiming.want,
        }),
        done matches WarmStep::Done { said, export } && said@ == stocked_text(
            stocking.want as nat,
            stocking.back as nat,
            made as nat,
        ) && export@ == "HAZIR_FINGERPRINT="@ + stocking.fingerprint@,
{
}

/// As much of a fingerprint as is printed can be cut off exactly where there
/// are twelve bytes of it and the twelfth ends a character.
pub proof fn law_a_fingerprint_prints_where_it_can_be_cut(fingerprint: Seq<char>, k: int)
    requires
        0 <= k <= fingerprint.len(),
    ensures
        encode_utf8(fingerprint.take(k)).len() == 12 ==> prints(fingerprint),
        prints(fingerprint) ==> encode_utf8(clip(fingerprint, 12)).len() == 12 && clip(
            fingerprint,
            12,
        ).is_prefix_of(fingerprint),
{
    law_a_text_can_be_cut_between_characters(fingerprint, k, 12);
    if encode_utf8(fingerprint.take(k)).len() == 12 && encode_utf8(fingerprint).len() < 12 {
        lemma_front_is_no_longer(fingerprint, k);
    }
    if prints(fingerprint) {
        law_what_is_cut_off_is_the_front(fingerprint, 12);
    }
}

proof fn lemma_front_is_no_longer(text: Seq<char>, k: int)
    requires
        0 <= k <= text.len(),
    ensures
        encode_utf8(text.take(k)).len() <= encode_utf8(text).len(),
    decreases k,
{
    if k > 0 {
        vstd::utf8::encode_utf8_first_scalar(text);
        vstd::utf8::encode_utf8_first_scalar(text.take(k));
        assert(text.take(k).drop_first() =~= text.drop_first().take(k - 1));
        lemma_front_is_no_longer(text.drop_first(), k - 1);
    } else {
        assert(text.take(k) =~= Seq::<char>::empty());
    }
}

} // verus!
