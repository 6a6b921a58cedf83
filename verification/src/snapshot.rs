//! A schema, built once, kept as the text that rebuilds it.

use vstd::prelude::*;

use crate::name::{is_words, lemma_a_name_is_words, quote, quoted, scratch, Stamp};
use crate::text::{
    chars_of, clash, found_at, holds, join, join_chars, law_joining_puts_the_mark_between,
    law_lines_are_what_stands_between_line_feeds, law_replacing_swaps_what_is_found,
    lemma_first_replacement, lemma_join_holds, lemma_replace_join, lemma_replace_nothing,
    lemma_replaced_is_gone, lemma_split_join, lemma_suffix_holds, lines, lines_of, replace, replace_chars,
    same, split, stands_at, string_of, texts, views,
};

verus! {

/// The token a stored snapshot carries where the schema name goes.
///
/// Public because it is part of what is written into `hazir.snapshot`, and
/// anything that reads or writes one of those rows has to name it.
pub const PLACEHOLDER: &'static str = "@hazir_schema@";

/// How the tables get made.
#[derive(Debug, Clone)]
pub enum Recipe {
    /// Plain `.sql` files, applied in name order.
    ///
    /// The quick path, and the one with nothing outside this process in it:
    /// sql written by hand names no schema, so it can be pointed at one with
    /// `search_path` and applied exactly as written. Nothing is dumped and
    /// nothing is rewritten, so there is nothing to get subtly wrong.
    Sql(Vec<Vec<u8>>),
    /// Any migrator at all, run once against a template and dumped.
    ///
    /// For the projects whose migrations are code. It wants `pg_dump`.
    Command(String),
}

/// A schema, built once, kept as the text that rebuilds it.
#[derive(Debug, Clone)]
pub struct Snapshot {
    pub fingerprint: String,
    pub ddl: String,
    pub shape: String,
    pub apply: Apply,
}

/// What has to happen to a snapshot's text before it will build a schema.
#[derive(Debug, Clone, Copy, PartialEq, Eq, Structural)]
pub enum Apply {
    /// Point the session at the schema and run it as written.
    SearchPath,
    /// Swap the token for the schema's name.
    Placeholder,
}

/// How an `Apply` is written down.
pub open spec fn apply_name(apply: Apply) -> &'static str {
    match apply {
        Apply::SearchPath => "search_path",
        Apply::Placeholder => "placeholder",
    }
}

/// The `Apply` that a name stands for.
pub open spec fn apply_named(name: Seq<char>) -> Apply {
    if name == "placeholder"@ {
        Apply::Placeholder
    } else {
        Apply::SearchPath
    }
}

/// The text that builds one schema.
pub open spec fn statements_of(apply: Apply, ddl: Seq<char>, schema: Seq<char>) -> Seq<char> {
    match apply {
        Apply::SearchPath => "SET search_path TO "@ + quoted(schema) + ";\n"@ + ddl
            + "\n;RESET search_path;"@,
        Apply::Placeholder => replace(ddl, PLACEHOLDER@, quoted(schema)),
    }
}

impl Apply {
    /// How this is written down.
    pub fn name(self) -> (r: &'static str)
        ensures
            r == apply_name(self),
    {
        match self {
            Apply::SearchPath => "search_path",
            Apply::Placeholder => "placeholder",
        }
    }

    /// What a name stands for. One that is not known is taken to mean that
    /// the text is run as written.
    pub fn from_name(name: &str) -> (r: Apply)
        ensures
            r == apply_named(name@),
    {
        if same(name, "placeholder") {
            Apply::Placeholder
        } else {
            Apply::SearchPath
        }
    }

    /// The text that builds one schema.
    pub fn statements(self, ddl: &str, schema: &str) -> (r: String)
        ensures
            r@ == statements_of(self, ddl@, schema@),
    {
        match self {
            Apply::SearchPath => {
                let mut r = "SET search_path TO ".to_owned();
                r.append(quote(schema).as_str());
                r.append(";\n");
                r.append(ddl);
                r.append("\n;RESET search_path;");
                r
            },
            Apply::Placeholder => {
                let text = replace_chars(
                    chars_of(ddl).as_slice(),
                    chars_of(PLACEHOLDER).as_slice(),
                    chars_of(quote(schema).as_str()).as_slice(),
                );
                string_of(text.as_slice())
            },
        }
    }
}

/// How to apply a snapshot survives being written down.
pub proof fn law_how_to_apply_survives_being_written_down(apply: Apply)
    ensures
        apply_named(apply_name(apply)@) == apply,
{
    reveal_strlit("search_path");
    reveal_strlit("placeholder");
    assert("search_path"@[0] != "placeholder"@[0]);
}

/// Several files as one text, each of them ended.
pub open spec fn spliced(files: Seq<Seq<char>>) -> Seq<char>
    decreases files.len(),
{
    if files.len() == 0 {
        Seq::<char>::empty()
    } else {
        let text = spliced(files.drop_last()) + files.last();
        if text.len() > 0 && text.last() == '\n' {
            text + ";\n"@
        } else {
            text + "\n;\n"@
        }
    }
}

/// Several files as one text: one after the other, each brought to the end
/// of its line and ended by a semicolon on a line of its own.
pub fn read_all(files: &Vec<String>) -> (r: String)
    ensures
        r@ == spliced(texts(files@)),
{
    let mut r = String::new();
    // What the text ends with, if it holds anything.
    let mut last: Option<char> = None;
    for i in 0..files.len()
        invariant
            r@ == spliced(texts(files@).take(i as int)),
            last == (if r@.len() > 0 {
                Some(r@.last())
            } else {
                None
            }),
    {
        let ghost so_far = texts(files@).take(i + 1);
        let ghost before = r@;
        proof {
            assert(so_far.drop_last() =~= texts(files@).take(i as int));
            reveal_strlit(";\n");
            reveal_strlit("\n;\n");
        }
        let chars = chars_of(files[i].as_str());
        r.append(files[i].as_str());
        if chars.len() > 0 {
            last = Some(chars[chars.len() - 1]);
        }
        let ended = match last {
            Some(c) => c == '\n',
            None => false,
        };
        proof {
            assert(r@ =~= before + so_far.last());
        }
        if ended {
            r.append(";\n");
        } else {
            r.append("\n;\n");
        }
        last = Some('\n');
    }
    proof {
        assert(texts(files@).take(files@.len() as int) =~= texts(files@));
    }
    r
}

/// Whether a line of a dump stays. The dump makes the schema, and whoever
/// replays it has already made it; and what begins with a backslash is
/// psql's own, not the server's.
pub open spec fn stays(line: Seq<char>) -> bool {
    !"CREATE SCHEMA"@.is_prefix_of(line) && !(line.len() > 0 && line[0] == '\\')
}

/// A line with the template's name taken out of it, quoted or not.
pub open spec fn named_out(line: Seq<char>, template: Seq<char>) -> Seq<char> {
    replace(replace(line, quoted(template), PLACEHOLDER@), template, PLACEHOLDER@)
}

/// The lines of a dump that stay.
pub open spec fn staying(dumped: Seq<char>) -> Seq<Seq<char>> {
    lines(dumped).filter(|line: Seq<char>| stays(line))
}

/// A dump made into something a driver can replay.
pub open spec fn tidied(dumped: Seq<char>, template: Seq<char>) -> Seq<char> {
    join(staying(dumped).map_values(|line: Seq<char>| named_out(line, template)), seq!['\n'])
}

/// What comes back from pg_dump, made into something a driver can replay.
///
/// At the start of the line rather than anywhere in it: pg_dump writes its
/// own statements at column zero, and a dollar-quoted function body is
/// indented. Being lenient here would quietly delete a line out of
/// somebody's trigger.
pub fn tidy(dumped: &str, template: &str) -> (r: String)
    ensures
        r@ == tidied(dumped@, template@),
{
    let plain = chars_of(template);
    let in_quotes = chars_of(quote(template).as_str());
    let token = chars_of(PLACEHOLDER);
    let create = chars_of("CREATE SCHEMA");
    let found = lines_of(chars_of(dumped).as_slice());
    let mut parts: Vec<Vec<char>> = Vec::new();
    let ghost all = lines(dumped@);
    let ghost keep = |line: Seq<char>| stays(line);
    let ghost take_out = |line: Seq<char>| named_out(line, template@);
    proof {
        reveal_with_fuel(Seq::filter, 1);
        assert(views(parts@) =~= all.take(0).filter(keep).map_values(take_out));
    }
    for i in 0..found.len()
        invariant
            plain@ == template@,
            in_quotes@ == quoted(template@),
            token@ == PLACEHOLDER@,
            create@ == "CREATE SCHEMA"@,
            views(found@) == all,
            keep == |line: Seq<char>| stays(line),
            take_out == |line: Seq<char>| named_out(line, template@),
            views(parts@) == all.take(i as int).filter(keep).map_values(take_out),
    {
        let line = &found[i];
        let ghost so_far = all.take(i + 1);
        proof {
            reveal_with_fuel(Seq::filter, 1);
            assert(so_far.drop_last() =~= all.take(i as int));
            assert(so_far.last() == line@);
        }
        if !stands_at(line.as_slice(), 0, create.as_slice()) && !(line.len() > 0 && line[0] == '\\') {
            let once = replace_chars(line.as_slice(), in_quotes.as_slice(), token.as_slice());
            let twice = replace_chars(once.as_slice(), plain.as_slice(), token.as_slice());
            proof {
                assert(views(parts@.push(twice)) =~= views(parts@).push(twice@));
                assert(all.take(i as int).filter(keep).push(line@).map_values(take_out) =~= views(parts@).push(
                    twice@,
                ));
            }
            parts.push(twice);
        }
    }
    let feed: Vec<char> = vec!['\n'];
    proof {
        assert(all.take(all.len() as int) =~= all);
        assert(feed@ =~= seq!['\n']);
    }
    string_of(join_chars(&parts, feed.as_slice()).as_slice())
}

/// The template's name is nowhere left in a tidied dump, quoted or not. The
/// name has to be on one line, and must not be able to meet the token it is
/// swapped for: to stand inside it, around it, or over an end of it.
pub proof fn law_the_name_is_taken_out(dumped: Seq<char>, template: Seq<char>)
    requires
        template.len() > 0,
        !template.contains('\n'),
        !clash(template, PLACEHOLDER@),
    ensures
        !holds(tidied(dumped, template), template),
{
    reveal_strlit("@hazir_schema@");
    let parts = staying(dumped).map_values(|line: Seq<char>| named_out(line, template));
    if holds(tidied(dumped, template), template) {
        lemma_join_holds(parts, '\n', template);
        let i = choose|i: int| 0 <= i < parts.len() && holds(#[trigger] parts[i], template);
        let line = staying(dumped)[i];
        lemma_replaced_is_gone(replace(line, quoted(template), PLACEHOLDER@), template, PLACEHOLDER@);
    }
}

/// A name without an at sign that does not stand inside the token cannot
/// meet it.
proof fn lemma_names_do_not_meet_the_token(template: Seq<char>)
    requires
        !template.contains('@'),
        !holds(PLACEHOLDER@, template),
    ensures
        !clash(template, PLACEHOLDER@),
{
    reveal_strlit("@hazir_schema@");
    let token = PLACEHOLDER@;
    if clash(template, token) {
        let o = choose|o: int| crate::text::agree_at(template, token, o);
        if o <= 0 {
            assert(token[0] == template[0 - o]);
        } else if o + template.len() >= token.len() {
            assert(token[token.len() - 1] == template[token.len() - 1 - o]);
        } else {
            assert(token.subrange(o, o + template.len()) =~= template);
            assert(found_at(token, template, o));
        }
    }
}

/// The name of a template made for a fingerprint of letters, digits and
/// underscores is nowhere left in the dump of it.
pub proof fn law_a_template_is_taken_out(dumped: Seq<char>, fingerprint: Seq<char>, stamp: Stamp)
    requires
        is_words(fingerprint),
    ensures
        !holds(tidied(dumped, scratch("template"@, fingerprint, stamp)), scratch("template"@, fingerprint, stamp)),
{
    reveal_strlit("hazir_");
    reveal_strlit("template");
    reveal_strlit("@hazir_schema@");
    let template = scratch("template"@, fingerprint, stamp);
    lemma_a_name_is_words("template"@, fingerprint, stamp);
    assert(template.len() > PLACEHOLDER@.len());
    lemma_names_do_not_meet_the_token(template);
    law_the_name_is_taken_out(dumped, template);
}

/// Whether a line of a dump can be put back together: the token does not
/// stand in it, nothing in front of the name would complete one, and the
/// template's name stands in it in quotes or not at all.
pub open spec fn restores(line: Seq<char>, template: Seq<char>) -> bool {
    &&& !holds(line, PLACEHOLDER@)
    &&& !holds(line, "@hazir_schema"@ + quoted(template))
    &&& !holds(replace(line, quoted(template), PLACEHOLDER@), template)
}

proof fn lemma_token_there_and_back(line: Seq<char>, from: Seq<char>, to: Seq<char>)
    requires
        from.len() > 0,
        !holds(line, PLACEHOLDER@),
        !holds(line, "@hazir_schema"@ + from),
    ensures
        replace(replace(line, from, PLACEHOLDER@), PLACEHOLDER@, to) == replace(line, from, to),
    decreases line.len(),
{
    reveal_strlit("@hazir_schema@");
    reveal_strlit("@hazir_schema");
    let token = PLACEHOLDER@;
    let n = token.len() as int;
    let swapped = replace(line, from, token);
    if line.len() < from.len() {
        lemma_replace_nothing(line, token, to);
    } else if line.take(from.len() as int) == from {
        let rest = line.skip(from.len() as int);
        lemma_suffix_holds(line, from.len() as int, token);
        lemma_suffix_holds(line, from.len() as int, "@hazir_schema"@ + from);
        lemma_token_there_and_back(rest, from, to);
        assert(swapped.take(n) =~= token);
        assert(swapped.skip(n) =~= replace(rest, from, token));
    } else {
        let rest = line.skip(1);
        lemma_suffix_holds(line, 1, token);
        lemma_suffix_holds(line, 1, "@hazir_schema"@ + from);
        lemma_token_there_and_back(rest, from, to);
        let after = replace(rest, from, token);
        assert(swapped.skip(1) =~= after);
        if swapped.len() >= n {
            if swapped.take(n) == token {
                let j = lemma_first_replacement(line, from, token);
                if swapped == line || j >= n {
                    assert forall|k: int| 0 <= k < n implies line[k] == token[k] by {
                        if swapped != line {
                            assert(swapped.take(j)[k] == line.take(j)[k]);
                        }
                        assert(swapped.take(n)[k] == swapped[k]);
                    }
                    assert(line.subrange(0, n) =~= token);
                    assert(found_at(line, token, 0));
                } else if j == 0 {
                    assert(line.skip(0) =~= line);
                    assert(line.take(from.len() as int) =~= line.skip(0).subrange(0, from.len() as int));
                } else {
                    assert(swapped.skip(j).subrange(0, n)[0] == swapped[j]);
                    assert(swapped.take(n)[j] == swapped[j]);
                    assert(token[j] == '@');
                    assert(j == 13);
                    let marked = "@hazir_schema"@ + from;
                    assert forall|k: int| 0 <= k < marked.len() implies line[k] == marked[k] by {
                        if k < 13 {
                            assert(swapped.take(j)[k] == line.take(j)[k]);
                            assert(swapped.take(n)[k] == swapped[k]);
                        } else {
                            assert(line.skip(j).subrange(0, from.len() as int)[k - 13] == line[k]);
                        }
                    }
                    assert(line.subrange(0, marked.len() as int) =~= marked);
                    assert(found_at(line, marked, 0));
                }
                assert(false);
            }
            assert(replace(swapped, token, to) =~= seq![line[0]] + replace(after, token, to));
        } else {
            lemma_replace_short_token(after, to);
            assert(replace(swapped, token, to) =~= seq![line[0]] + replace(after, token, to));
        }
    }
}

proof fn lemma_replace_short_token(s: Seq<char>, to: Seq<char>)
    requires
        s.len() < PLACEHOLDER@.len(),
    ensures
        replace(s, PLACEHOLDER@, to) == s,
{
}

/// A snapshot taken from a dump rebuilds, in whatever schema it is replayed
/// into, the lines of the dump that stay, with that schema's name wherever
/// the template's stood.
pub proof fn law_a_dump_is_rebuilt_under_another_name(
    dumped: Seq<char>,
    template: Seq<char>,
    schema: Seq<char>,
)
    requires
        template.len() > 0,
        forall|i: int|
            0 <= i < staying(dumped).len() ==> restores(#[trigger] staying(dumped)[i], template),
    ensures
        statements_of(Apply::Placeholder, tidied(dumped, template), schema) == join(
            staying(dumped).map_values(
                |line: Seq<char>| replace(line, quoted(template), quoted(schema)),
            ),
            seq!['\n'],
        ),
{
    reveal_strlit("@hazir_schema@");
    let token = PLACEHOLDER@;
    let to = quoted(schema);
    let kept = staying(dumped);
    let parts = kept.map_values(|line: Seq<char>| named_out(line, template));
    let wanted = kept.map_values(|line: Seq<char>| replace(line, quoted(template), to));
    assert(!token.contains('\n'));
    lemma_replace_join(parts, '\n', token, to);
    let rebuilt = parts.map_values(|part: Seq<char>| replace(part, token, to));
    assert forall|i: int| 0 <= i < kept.len() implies rebuilt[i] == wanted[i] by {
        let line = kept[i];
        assert(restores(line, template));
        lemma_replace_nothing(replace(line, quoted(template), token), template, token);
        lemma_token_there_and_back(line, quoted(template), to);
    }
    assert(rebuilt =~= wanted);
}

/// Only one name means that the token is swapped.
pub proof fn law_only_a_placeholder_is_rewritten(name: Seq<char>)
    ensures
        apply_named(name) == Apply::Placeholder <==> name == "placeholder"@,
        apply_name(Apply::Placeholder)@ == "placeholder"@,
        apply_name(Apply::SearchPath)@ == "search_path"@,
{
}

/// A snapshot that is run as written is run exactly as written: whatever its
/// text is, it stands whole in what is run, behind what points the session at
/// the schema and in front of what puts the search path back. What stands in
/// front depends on the schema alone, and what stands behind on nothing.
pub proof fn law_sql_is_run_exactly_as_written(
    ddl: Seq<char>,
    other: Seq<char>,
    schema: Seq<char>,
    another: Seq<char>,
)
    ensures
        ({
            let run = statements_of(Apply::SearchPath, ddl, schema);
            let head = "SET search_path TO "@ + quoted(schema) + ";\n"@;
            let n = head.len() as int;
            &&& head.is_prefix_of(run)
            &&& run.subrange(n, n + ddl.len()) == ddl
            &&& run.skip(n + ddl.len()) == "\n;RESET search_path;"@
            &&& run.take(n) == statements_of(Apply::SearchPath, other, schema).take(n)
            &&& run.skip(n + ddl.len()) == statements_of(Apply::SearchPath, other, another).skip(
                n - quoted(schema).len() + quoted(another).len() + other.len(),
            )
        }),
{
    let run = statements_of(Apply::SearchPath, ddl, schema);
    let head = "SET search_path TO "@ + quoted(schema) + ";\n"@;
    let n = head.len() as int;
    let tail = "\n;RESET search_path;"@;
    assert(run =~= head + ddl + tail);
    assert(run.subrange(0, n) =~= head);
    assert(run.subrange(n, n + ddl.len()) =~= ddl);
    assert(run.skip(n + ddl.len()) =~= tail);
    let second = statements_of(Apply::SearchPath, other, schema);
    assert(second =~= head + other + tail);
    assert(run.take(n) =~= second.take(n));
    let head2 = "SET search_path TO "@ + quoted(another) + ";\n"@;
    let third = statements_of(Apply::SearchPath, other, another);
    assert(third =~= head2 + other + tail);
    assert(third.skip((head2.len() + other.len()) as int) =~= tail);
}

/// In a snapshot that was dumped every token is the schema's name, and nothing
/// else is touched: up to the first token the text stays, the token is
/// swapped, and what follows is built in the same way.
pub proof fn law_a_token_stands_for_the_schema(a: Seq<char>, b: Seq<char>, schema: Seq<char>)
    ensures
        ({
            let token = "@hazir_schema@"@;
            &&& (forall|i: int| 0 <= i <= a.len() ==> !token.is_prefix_of(#[trigger] a.skip(i)))
                ==> statements_of(Apply::Placeholder, a, schema) == a
            &&& (forall|i: int| 0 <= i < a.len() ==> !token.is_prefix_of(#[trigger] (a + token + b).skip(i)))
                ==> statements_of(Apply::Placeholder, a + token + b, schema) == a + quoted(schema)
                + statements_of(Apply::Placeholder, b, schema)
        }),
{
    reveal_strlit("@hazir_schema@");
    law_replacing_swaps_what_is_found(a, "@hazir_schema@"@, quoted(schema), b);
}

proof fn lemma_spliced_ends(files: Seq<Seq<char>>)
    requires
        files.len() > 0,
    ensures
        spliced(files).len() > 0,
        spliced(files).last() == '\n',
{
    reveal_strlit(";\n");
    reveal_strlit("\n;\n");
}

/// Of several files made one text, every file stands in it whole and in its
/// place. Behind each is a semicolon on a line of its own, and the line it
/// ends on is ended first where the file has not.
pub proof fn law_each_file_stands_whole(files: Seq<Seq<char>>, file: Seq<char>)
    ensures
        spliced(Seq::<Seq<char>>::empty()) == Seq::<char>::empty(),
        file.len() > 0 && file.last() == '\n' ==> spliced(files.push(file)) == spliced(files) + file + ";\n"@,
        file.len() > 0 && file.last() != '\n' ==> spliced(files.push(file)) == spliced(files) + file
            + "\n;\n"@,
        file.len() == 0 && files.len() > 0 ==> spliced(files.push(file)) == spliced(files) + ";\n"@,
        spliced(seq![Seq::<char>::empty()]) == "\n;\n"@,
{
    let all = files.push(file);
    assert(all.drop_last() =~= files);
    assert(all.last() == file);
    if file.len() > 0 {
        assert((spliced(files) + file).last() == file.last());
    } else {
        assert(spliced(files) + file =~= spliced(files));
        if files.len() > 0 {
            lemma_spliced_ends(files);
        }
    }
    let one = seq![Seq::<char>::empty()];
    assert(one.drop_last() =~= Seq::<Seq<char>>::empty());
    assert(spliced(one.drop_last()) + one.last() =~= Seq::<char>::empty());
    assert(Seq::<char>::empty() + "\n;\n"@ =~= "\n;\n"@);
}

/// A line as it is read: less the carriage return in front of its line feed.
spec fn as_read(piece: Seq<char>) -> Seq<char> {
    if piece.len() > 0 && piece.last() == '\r' {
        piece.drop_last()
    } else {
        piece
    }
}

proof fn lemma_lines_of_joined(pieces: Seq<Seq<char>>)
    requires
        pieces.len() > 0,
        forall|i: int| 0 <= i < pieces.len() ==> !(#[trigger] pieces[i]).contains('\n'),
    ensures
        lines(join(pieces, seq!['\n']) + seq!['\n']) == pieces.map_values(|piece: Seq<char>| as_read(piece)),
        pieces.last().len() > 0 ==> lines(join(pieces, seq!['\n'])) == pieces.drop_last().map_values(
            |piece: Seq<char>| as_read(piece),
        ).push(pieces.last()),
    decreases pieces.len(),
{
    let cut = |piece: Seq<char>| as_read(piece);
    let feed = seq!['\n'];
    let none = Seq::<char>::empty();
    let first = pieces[0];
    assert(!first.contains('\n'));
    if pieces.len() == 1 {
        law_lines_are_what_stands_between_line_feeds(first, none);
        assert(first + feed + none =~= join(pieces, feed) + feed);
        assert(pieces.map_values(cut) =~= seq![as_read(first)] + Seq::<Seq<char>>::empty());
        if first.len() > 0 {
            assert(seq![first] =~= pieces.drop_last().map_values(cut).push(pieces.last()));
        }
    } else {
        let rest = pieces.skip(1);
        assert forall|i: int| 0 <= i < rest.len() implies !(#[trigger] rest[i]).contains('\n') by {
            assert(rest[i] == pieces[i + 1]);
        }
        lemma_lines_of_joined(rest);
        law_joining_puts_the_mark_between(seq![first], rest, first, feed);
        assert(pieces =~= seq![first] + rest);
        let tail = join(rest, feed);
        law_lines_are_what_stands_between_line_feeds(first, tail + feed);
        assert(join(pieces, feed) + feed =~= first + feed + (tail + feed));
        assert(pieces.map_values(cut) =~= seq![as_read(first)] + rest.map_values(cut));
        if pieces.last().len() > 0 {
            assert(rest.last() == pieces.last());
            law_lines_are_what_stands_between_line_feeds(first, tail);
            assert(pieces.drop_last().map_values(cut).push(pieces.last()) =~= seq![as_read(first)]
                + rest.drop_last().map_values(cut).push(rest.last()));
        }
    }
}

proof fn lemma_stays(line: Seq<char>)
    ensures
        stays(line) <==> !("CREATE SCHEMA"@.is_prefix_of(line) || seq!['\\'].is_prefix_of(line)),
{
    if line.len() > 0 && line[0] == '\\' {
        assert(line.subrange(0, 1) =~= seq!['\\']);
    } else if seq!['\\'].is_prefix_of(line) {
        assert(line.subrange(0, 1)[0] == '\\');
    }
}

/// Of a dump, exactly the lines that begin with `CREATE SCHEMA`, all of it, or
/// with a backslash go. Every other line stays, in its place and whole but for
/// the template's name, which is the token wherever it stands, in quotes or
/// not. A carriage return in front of a line feed is no part of a line, and
/// whether the last line is ended makes no other difference.
pub proof fn law_every_other_line_of_a_dump_stays(pieces: Seq<Seq<char>>, template: Seq<char>)
    requires
        pieces.len() > 0,
        forall|i: int| 0 <= i < pieces.len() ==> !(#[trigger] pieces[i]).contains('\n'),
    ensures
        ({
            let goes = |it: Seq<char>| "CREATE SCHEMA"@.is_prefix_of(it) || seq!['\\'].is_prefix_of(it);
            let named = |it: Seq<char>|
                replace(
                    replace(it, quoted(template), "@hazir_schema@"@),
                    template,
                    "@hazir_schema@"@,
                );
            let ended = |it: Seq<char>|
                if it.len() > 0 && it.last() == '\r' {
                    it.drop_last()
                } else {
                    it
                };
            let read = pieces.map_values(ended);
            let open = pieces.drop_last().map_values(ended).push(pieces.last());
            &&& tidied(join(pieces, "\n"@) + "\n"@, template) == join(
                read.filter(|it: Seq<char>| !goes(it)).map_values(named),
                "\n"@,
            )
            &&& pieces.last().len() > 0 ==> tidied(join(pieces, "\n"@), template) == join(
                open.filter(|it: Seq<char>| !goes(it)).map_values(named),
                "\n"@,
            )
        }),
{
    reveal_strlit("\n");
    assert("\n"@ =~= seq!['\n']);
    lemma_lines_of_joined(pieces);
    let cut = |piece: Seq<char>| as_read(piece);
    let ended = |it: Seq<char>|
        if it.len() > 0 && it.last() == '\r' {
            it.drop_last()
        } else {
            it
        };
    assert(cut =~= ended);
    let goes = |it: Seq<char>| "CREATE SCHEMA"@.is_prefix_of(it) || seq!['\\'].is_prefix_of(it);
    let raw = |it: Seq<char>| !goes(it);
    let keep = |line: Seq<char>| stays(line);
    assert forall|it: Seq<char>| #[trigger] raw(it) == keep(it) by {
        lemma_stays(it);
    }
    assert(raw =~= keep);
    let named = |it: Seq<char>|
        replace(replace(it, quoted(template), "@hazir_schema@"@), template, "@hazir_schema@"@);
    let take_out = |line: Seq<char>| named_out(line, template);
    assert(named =~= take_out);
}

/// A carriage return in front of a line feed is no part of a line of a dump.
pub proof fn law_a_carriage_return_ends_no_line(pieces: Seq<Seq<char>>, template: Seq<char>)
    requires
        pieces.len() > 0,
        forall|i: int| 0 <= i < pieces.len() ==> !(#[trigger] pieces[i]).contains('\n'),
        forall|i: int| 0 <= i < pieces.len() && pieces[i].len() > 0 ==> (#[trigger] pieces[i]).last() != '\r',
    ensures
        tidied(
            join(pieces.map_values(|line: Seq<char>| line.push('\r')), "\n"@) + "\n"@,
            template,
        ) == tidied(join(pieces, "\n"@) + "\n"@, template),
{
    reveal_strlit("\n");
    assert("\n"@ =~= seq!['\n']);
    let returned = pieces.map_values(|line: Seq<char>| line.push('\r'));
    assert forall|i: int| 0 <= i < returned.len() implies !(#[trigger] returned[i]).contains('\n') by {
        if returned[i].contains('\n') {
            let k = choose|k: int| 0 <= k < returned[i].len() && returned[i][k] == '\n';
            assert(pieces[i][k] == '\n');
            assert(pieces[i].contains('\n'));
        }
    }
    lemma_lines_of_joined(pieces);
    lemma_lines_of_joined(returned);
    let cut = |piece: Seq<char>| as_read(piece);
    assert forall|i: int| 0 <= i < pieces.len() implies as_read(#[trigger] pieces[i]) == pieces[i]
        && as_read(returned[i]) == pieces[i] by {
        assert(returned[i].drop_last() =~= pieces[i]);
    }
    assert(pieces.map_values(cut) =~= returned.map_values(cut));
}

proof fn lemma_replace_adds_none(s: Seq<char>, from: Seq<char>, to: Seq<char>, c: char)
    requires
        !s.contains(c),
        !to.contains(c),
    ensures
        !replace(s, from, to).contains(c),
    decreases s.len(),
{
    let r = replace(s, from, to);
    if s.len() > 0 {
        assert(s.contains(s[0]));
        assert forall|k: int| 0 < k <= s.len() implies !(#[trigger] s.skip(k)).contains(c) by {
            if s.skip(k).contains(c) {
                let j = choose|j: int| 0 <= j < s.skip(k).len() && s.skip(k)[j] == c;
                assert(s[k + j] == c);
            }
        }
        lemma_replace_adds_none(s.skip(1), from, to, c);
        if 0 < from.len() <= s.len() {
            lemma_replace_adds_none(s.skip(from.len() as int), from, to, c);
        }
    }
    if r.contains(c) {
        let k = choose|k: int| 0 <= k < r.len() && r[k] == c;
        if from.len() == 0 {
            if s.len() > 0 {
                let more = replace(s.skip(1), from, to);
                if k < to.len() {
                    assert(to[k] == c);
                } else if k > to.len() {
                    assert(more[k - to.len() - 1] == c);
                }
            }
        } else if s.len() >= from.len() {
            if s.take(from.len() as int) == from {
                if k < to.len() {
                    assert(to[k] == c);
                } else {
                    assert(replace(s.skip(from.len() as int), from, to)[k - to.len()] == c);
                }
            } else if k > 0 {
                assert(replace(s.skip(1), from, to)[k - 1] == c);
            }
        }
    }
}

/// No line of a dump is lost that has to be replayed: where none begins with
/// `CREATE SCHEMA` or with a backslash, there are as many lines afterwards as
/// there were.
pub proof fn law_a_dump_keeps_its_lines(pieces: Seq<Seq<char>>, template: Seq<char>)
    requires
        pieces.len() > 0,
        forall|i: int| 0 <= i < pieces.len() ==> !(#[trigger] pieces[i]).contains('\n'),
        forall|i: int| 0 <= i < pieces.len() && pieces[i].len() > 0 ==> (#[trigger] pieces[i]).last() != '\r',
        forall|i: int| 0 <= i < pieces.len() ==> !"CREATE SCHEMA"@.is_prefix_of(#[trigger] pieces[i]),
        forall|i: int| 0 <= i < pieces.len() ==> !seq!['\\'].is_prefix_of(#[trigger] pieces[i]),
    ensures
        split(tidied(join(pieces, "\n"@) + "\n"@, template), '\n').len() == pieces.len(),
        forall|i: int|
            0 <= i < pieces.len() && !holds(pieces[i], quoted(template)) && !holds(pieces[i], template)
                && template.len() > 0 ==> split(tidied(join(pieces, "\n"@) + "\n"@, template), '\n')[i]
                == #[trigger] pieces[i],
{
    reveal_strlit("\n");
    reveal_strlit("@hazir_schema@");
    assert("\n"@ =~= seq!['\n']);
    law_every_other_line_of_a_dump_stays(pieces, template);
    let ended = |it: Seq<char>|
        if it.len() > 0 && it.last() == '\r' {
            it.drop_last()
        } else {
            it
        };
    assert forall|i: int| 0 <= i < pieces.len() implies ended(#[trigger] pieces[i]) == pieces[i] by {}
    assert(pieces.map_values(ended) =~= pieces);
    let goes = |it: Seq<char>| "CREATE SCHEMA"@.is_prefix_of(it) || seq!['\\'].is_prefix_of(it);
    lemma_all_stay(pieces, |it: Seq<char>| !goes(it));
    let token = "@hazir_schema@"@;
    let swap = |line: Seq<char>| replace(replace(line, quoted(template), token), template, token);
    let swapped = pieces.map_values(swap);
    assert(!token.contains('\n'));
    assert forall|i: int| 0 <= i < swapped.len() implies !(#[trigger] swapped[i]).contains('\n') by {
        lemma_replace_adds_none(pieces[i], quoted(template), token, '\n');
        lemma_replace_adds_none(replace(pieces[i], quoted(template), token), template, token, '\n');
    }
    lemma_split_join(swapped, '\n');
    assert forall|i: int|
        0 <= i < pieces.len() && !holds(pieces[i], quoted(template)) && !holds(pieces[i], template)
            && template.len() > 0 implies swapped[i] == #[trigger] pieces[i] by {
        lemma_replace_nothing(pieces[i], quoted(template), token);
        lemma_replace_nothing(pieces[i], template, token);
    }
}

proof fn lemma_all_stay(all: Seq<Seq<char>>, keep: spec_fn(Seq<char>) -> bool)
    requires
        forall|i: int| 0 <= i < all.len() ==> keep(#[trigger] all[i]),
    ensures
        all.filter(keep) == all,
    decreases all.len(),
{
    reveal_with_fuel(Seq::filter, 1);
    if all.len() > 0 {
        assert(keep(all[all.len() - 1]));
        lemma_all_stay(all.drop_last(), keep);
        assert(all.drop_last().push(all.last()) =~= all);
    }
}

} // verus!
