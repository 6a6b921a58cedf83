//! What a schema is built from, and the hash of it.

use vstd::prelude::*;
use vstd::utf8::{encode_utf8, valid_utf8};

use crate::name::is_words;
use crate::number::{digit, digit_of, lemma_digit_injective};
use crate::outside::{lossy_of, sha256, sha256_of, utf8_lossy};
use crate::path::{
    ends_in_sql, file_name, is_build_output, is_name, is_sql, is_target, law_a_path_ends_with_its_name,
    law_files_are_known_by_their_names, lemma_not_after, lemma_parts_total, parts, path_before, path_less,
    runs,
};
use crate::snapshot::Recipe;
use crate::text::{join, lemma_split_join, split};

verus! {

/// A file: where it is, and what it holds.
pub struct SourceFile {
    pub path: Vec<u8>,
    pub content: Vec<u8>,
}

/// What stands at a path.
pub enum Tree {
    /// A file.
    File(SourceFile),
    /// A directory, and what is in it.
    Directory { path: Vec<u8>, entries: Vec<Tree> },
    /// Nothing, or something that is neither of those.
    Other,
}

/// Whether an entry of a directory is what a build wrote.
pub open spec fn is_skipped(entry: Tree) -> bool {
    match entry {
        Tree::File(file) => is_target(file.path@),
        Tree::Directory { path, .. } => is_target(path@),
        Tree::Other => false,
    }
}

/// Every file under a path, in the order they are come upon.
pub open spec fn files_of(at: Tree) -> Seq<SourceFile>
    decreases at,
{
    match at {
        Tree::File(file) => seq![file],
        Tree::Directory { entries, .. } => files_in(entries@),
        Tree::Other => Seq::<SourceFile>::empty(),
    }
}

/// Every file among the entries of a directory.
pub open spec fn files_in(entries: Seq<Tree>) -> Seq<SourceFile>
    decreases entries,
{
    if entries.len() == 0 {
        Seq::<SourceFile>::empty()
    } else if is_skipped(entries.last()) {
        files_in(entries.drop_last())
    } else {
        files_in(entries.drop_last()) + files_of(entries.last())
    }
}

/// Every file under several paths.
pub open spec fn files_under(sources: Seq<Tree>) -> Seq<SourceFile>
    decreases sources.len(),
{
    if sources.len() == 0 {
        Seq::<SourceFile>::empty()
    } else {
        files_under(sources.drop_last()) + files_of(sources.last())
    }
}

/// Puts every file under a path at the end of `into`.
pub fn collect(at: Tree, into: &mut Vec<SourceFile>)
    ensures
        final(into)@ == old(into)@ + files_of(at),
    decreases at,
{
    let ghost before = into@;
    match at {
        Tree::File(file) => {
            into.push(file);
            proof {
                assert(into@ =~= before + files_of(at));
            }
        },
        Tree::Directory { path, entries } => {
            let ghost all = entries@;
            proof {
                assert(before + files_in(all.take(0)) =~= before);
            }
            for entry in it: entries
                invariant
                    it.seq() == all,
                    at == (Tree::Directory { path, entries }),
                    all == entries@,
                    into@ == before + files_in(all.take(it.index() as int)),
            {
                let ghost i = it.index() as int;
                proof {
                    assert(all.take(i + 1).drop_last() =~= all.take(i));
                    assert(all.take(i + 1).last() == entry);
                    assert(entry == all[i]);
                    assert(decreases_to!(at => at->entries));
                    assert(decreases_to!(at->entries => at->entries@));
                    assert(decreases_to!(at->entries@ => at->entries@[i]));
                }
                let skipped = match &entry {
                    Tree::File(file) => is_build_output(file.path.as_slice()),
                    Tree::Directory { path, .. } => is_build_output(path.as_slice()),
                    Tree::Other => false,
                };
                if !skipped {
                    collect(entry, into);
                    proof {
                        assert(into@ =~= before + files_in(all.take(i + 1)));
                    }
                }
            }
            proof {
                assert(all.take(all.len() as int) =~= all);
            }
        },
        Tree::Other => {
            proof {
                assert(before + files_of(at) =~= before);
            }
        },
    }
}

/// Whether one file sorts before another.
pub open spec fn file_less(a: SourceFile, b: SourceFile) -> bool {
    path_less(a.path@, b.path@)
}

/// Whether no file sorts before one that stands in front of it.
pub open spec fn is_in_order(files: Seq<SourceFile>) -> bool {
    forall|i: int, j: int| 0 <= i < j < files.len() ==> !file_less(#[trigger] files[j], #[trigger] files[i])
}

/// The files in one place, however their paths are spelt.
pub open spec fn placed(files: Seq<SourceFile>, place: Seq<Seq<u8>>) -> Seq<SourceFile> {
    files.filter(|file: SourceFile| parts(file.path@) == place)
}

/// Whether one run holds the files of another in the order of their paths,
/// and those in one place in the order they came in.
pub open spec fn sorts(sorted: Seq<SourceFile>, files: Seq<SourceFile>) -> bool {
    &&& sorted.to_multiset() == files.to_multiset()
    &&& is_in_order(sorted)
    &&& forall|place: Seq<Seq<u8>>| #[trigger] placed(sorted, place) == placed(files, place)
}

/// Files in the order of their paths, those in one place in the order they
/// came in. There is exactly one such run: see `law_sorting_sorts`.
pub open spec fn in_order(files: Seq<SourceFile>) -> Seq<SourceFile> {
    choose|sorted: Seq<SourceFile>| sorts(sorted, files)
}

/// Two sorted runs made one, those of the first before their equals in the
/// second.
spec fn merged(first: Seq<SourceFile>, second: Seq<SourceFile>) -> Seq<SourceFile>
    decreases first.len() + second.len(),
{
    if first.len() == 0 {
        second
    } else if second.len() == 0 {
        first
    } else if file_less(second.last(), first.last()) {
        merged(first.drop_last(), second).push(first.last())
    } else {
        merged(first, second.drop_last()).push(second.last())
    }
}

/// The last of two sorted runs goes last.
fn merge(first: Vec<SourceFile>, second: Vec<SourceFile>) -> (r: Vec<SourceFile>)
    ensures
        r@ == merged(first@, second@),
{
    let mut a = first;
    let mut b = second;
    let mut back: Vec<SourceFile> = Vec::new();
    let ghost whole = merged(first@, second@);
    proof {
        assert(merged(a@, b@) + back@.reverse() =~= whole);
    }
    while a.len() > 0 || b.len() > 0
        invariant
            merged(a@, b@) + back@.reverse() == whole,
        decreases a@.len() + b@.len(),
    {
        let ghost a0 = a@;
        let ghost b0 = b@;
        let ghost back0 = back@;
        let from_first = if a.len() == 0 {
            false
        } else if b.len() == 0 {
            true
        } else {
            path_before(b[b.len() - 1].path.as_slice(), a[a.len() - 1].path.as_slice())
        };
        if from_first {
            if let Some(file) = a.pop() {
                back.push(file);
            }
        } else {
            if let Some(file) = b.pop() {
                back.push(file);
            }
        }
        proof {
            let moved = back@.last();
            assert(back@ =~= back0.push(moved));
            assert(merged(a0, b0) =~= merged(a@, b@).push(moved)) by {
                if a0.len() == 0 {
                    assert(b0 =~= b@.push(moved));
                    assert(merged(a@, b@) == b@);
                } else if b0.len() == 0 {
                    assert(a0 =~= a@.push(moved));
                    assert(merged(a@, b@) =~= a@);
                }
            }
            assert(back@.reverse() =~= seq![moved] + back0.reverse());
            assert(merged(a@, b@) + back@.reverse() =~= merged(a0, b0) + back0.reverse());
        }
    }
    let mut r: Vec<SourceFile> = Vec::new();
    proof {
        assert(merged(a@, b@) =~= Seq::<SourceFile>::empty());
        assert(r@ + back@.reverse() =~= whole);
    }
    while back.len() > 0
        invariant
            r@ + back@.reverse() == whole,
        decreases back@.len(),
    {
        let ghost back0 = back@;
        let ghost r0 = r@;
        if let Some(file) = back.pop() {
            r.push(file);
        }
        proof {
            assert(back0.reverse() =~= seq![r@.last()] + back@.reverse());
            assert(r@ + back@.reverse() =~= r0 + back0.reverse());
        }
    }
    proof {
        assert(back@.reverse() =~= Seq::<SourceFile>::empty());
        assert(r@ + Seq::<SourceFile>::empty() =~= r@);
    }
    r
}

/// Files in the order of their paths, those in one place in the order they
/// came in.
pub fn sort(files: Vec<SourceFile>) -> (r: Vec<SourceFile>)
    ensures
        r@ == in_order(files@),
        sorts(r@, files@),
    decreases files@.len(),
{
    let n = files.len();
    proof {
        law_sorting_sorts(files@);
    }
    if n <= 1 {
        proof {
            lemma_short_is_sorted(files@);
        }
        return files;
    }
    let mut first = files;
    let ghost all = first@;
    let second = first.split_off(n / 2);
    proof {
        assert(first@ + second@ =~= all);
        law_sorting_sorts(first@);
        law_sorting_sorts(second@);
        lemma_halves(first@, second@, in_order(first@), in_order(second@));
    }
    merge(sort(first), sort(second))
}

proof fn lemma_merged(first: Seq<SourceFile>, second: Seq<SourceFile>)
    ensures
        merged(first, second).to_multiset() == first.to_multiset().add(second.to_multiset()),
        is_in_order(first) && is_in_order(second) ==> is_in_order(merged(first, second)),
    decreases first.len() + second.len(),
{
    broadcast use vstd::seq_lib::group_to_multiset_ensures;

    let r = merged(first, second);
    if first.len() == 0 {
        assert(r.to_multiset() =~= first.to_multiset().add(second.to_multiset()));
    } else if second.len() == 0 {
        assert(r.to_multiset() =~= first.to_multiset().add(second.to_multiset()));
    } else if file_less(second.last(), first.last()) {
        let short = first.drop_last();
        lemma_merged(short, second);
        assert(first =~= short.push(first.last()));
        assert(r.to_multiset() =~= first.to_multiset().add(second.to_multiset()));
        if is_in_order(first) && is_in_order(second) {
            assert(is_in_order(short));
            lemma_parts_total(parts(second.last().path@), parts(first.last().path@));
            lemma_push_last(short, second, first.last());
        }
    } else {
        let short = second.drop_last();
        lemma_merged(first, short);
        assert(second =~= short.push(second.last()));
        assert(r.to_multiset() =~= first.to_multiset().add(second.to_multiset()));
        if is_in_order(first) && is_in_order(second) {
            assert(is_in_order(short));
            lemma_push_last(first, short, second.last());
        }
    }
}

/// A file that no other sorts after can stand last.
proof fn lemma_push_last(first: Seq<SourceFile>, second: Seq<SourceFile>, last: SourceFile)
    requires
        is_in_order(merged(first, second)),
        merged(first, second).to_multiset() == first.to_multiset().add(second.to_multiset()),
        first.len() > 0 ==> !file_less(last, first.last()),
        second.len() > 0 ==> !file_less(last, second.last()),
        is_in_order(first),
        is_in_order(second),
    ensures
        is_in_order(merged(first, second).push(last)),
{
    broadcast use vstd::seq_lib::group_to_multiset_ensures;

    let r = merged(first, second);
    assert forall|i: int| 0 <= i < r.len() implies !file_less(last, #[trigger] r[i]) by {
        assert(r.contains(r[i]));
        assert(r.to_multiset().count(r[i]) > 0);
        if first.to_multiset().count(r[i]) > 0 {
            assert(first.contains(r[i]));
            let k = choose|k: int| 0 <= k < first.len() && first[k] == r[i];
            lemma_last_is_last(first, k);
            lemma_not_after(first[k].path@, first.last().path@, last.path@);
        } else {
            assert(second.contains(r[i]));
            let k = choose|k: int| 0 <= k < second.len() && second[k] == r[i];
            lemma_last_is_last(second, k);
            lemma_not_after(second[k].path@, second.last().path@, last.path@);
        }
    }
}

proof fn lemma_last_is_last(files: Seq<SourceFile>, k: int)
    requires
        is_in_order(files),
        0 <= k < files.len(),
    ensures
        !file_less(files.last(), files[k]),
{
    if k == files.len() - 1 {
        lemma_parts_total(parts(files[k].path@), parts(files[k].path@));
    }
}

proof fn lemma_placed_push(files: Seq<SourceFile>, file: SourceFile, place: Seq<Seq<u8>>)
    ensures
        placed(files.push(file), place) == (if parts(file.path@) == place {
            placed(files, place).push(file)
        } else {
            placed(files, place)
        }),
{
    reveal_with_fuel(Seq::filter, 1);
    assert(files.push(file).drop_last() =~= files);
}

proof fn lemma_placed_concat(a: Seq<SourceFile>, b: Seq<SourceFile>, place: Seq<Seq<u8>>)
    ensures
        placed(a + b, place) == placed(a, place) + placed(b, place),
{
    Seq::filter_distributes_over_add(a, b, |file: SourceFile| parts(file.path@) == place);
}

/// Where every file sorts before `last`, none is in its place.
proof fn lemma_placed_before(files: Seq<SourceFile>, last: SourceFile)
    requires
        is_in_order(files),
        files.len() > 0 ==> file_less(files.last(), last),
    ensures
        placed(files, parts(last.path@)) == Seq::<SourceFile>::empty(),
    decreases files.len(),
{
    reveal_with_fuel(Seq::filter, 1);
    let place = parts(last.path@);
    if files.len() > 0 {
        let short = files.drop_last();
        lemma_parts_total(parts(files.last().path@), place);
        if short.len() > 0 {
            assert(!file_less(files.last(), short.last()));
            lemma_parts_total(parts(short.last().path@), place);
            if !file_less(short.last(), last) {
                lemma_not_after(last.path@, short.last().path@, files.last().path@);
            }
        }
        lemma_placed_before(short, last);
    }
}

proof fn lemma_merged_keeps_places(first: Seq<SourceFile>, second: Seq<SourceFile>, place: Seq<Seq<u8>>)
    requires
        is_in_order(first),
        is_in_order(second),
    ensures
        placed(merged(first, second), place) == placed(first, place) + placed(second, place),
    decreases first.len() + second.len(),
{
    if first.len() == 0 {
        lemma_placed_concat(first, second, place);
        assert(first + second =~= second);
    } else if second.len() == 0 {
        lemma_placed_concat(first, second, place);
        assert(first + second =~= first);
    } else if file_less(second.last(), first.last()) {
        let short = first.drop_last();
        let x = first.last();
        lemma_merged_keeps_places(short, second, place);
        lemma_placed_push(merged(short, second), x, place);
        lemma_placed_push(short, x, place);
        assert(first =~= short.push(x));
        lemma_placed_before(second, x);
        assert(placed(merged(first, second), place) =~= placed(first, place) + placed(second, place));
    } else {
        let short = second.drop_last();
        let x = second.last();
        lemma_merged_keeps_places(first, short, place);
        lemma_placed_push(merged(first, short), x, place);
        lemma_placed_push(short, x, place);
        assert(second =~= short.push(x));
        assert(placed(merged(first, second), place) =~= placed(first, place) + placed(second, place));
    }
}

proof fn lemma_short_is_sorted(files: Seq<SourceFile>)
    requires
        files.len() <= 1,
    ensures
        sorts(files, files),
        in_order(files) == files,
{
    assert(sorts(files, files));
    lemma_one_sorting(in_order(files), files, files);
}

/// What is sorted in halves and merged is sorted.
proof fn lemma_halves(
    first: Seq<SourceFile>,
    second: Seq<SourceFile>,
    a: Seq<SourceFile>,
    b: Seq<SourceFile>,
)
    requires
        sorts(a, first),
        sorts(b, second),
    ensures
        sorts(merged(a, b), first + second),
        in_order(first + second) == merged(a, b),
{
    let r = merged(a, b);
    let files = first + second;
    lemma_merged(a, b);
    vstd::seq_lib::lemma_multiset_commutative(first, second);
    assert forall|place: Seq<Seq<u8>>| #[trigger] placed(r, place) == placed(files, place) by {
        lemma_merged_keeps_places(a, b, place);
        lemma_placed_concat(first, second, place);
        assert(placed(a, place) == placed(first, place));
        assert(placed(b, place) == placed(second, place));
    }
    assert(sorts(r, files));
    lemma_one_sorting(in_order(files), r, files);
}

/// Two runs that sort the same files are the same run.
proof fn lemma_one_sorting(a: Seq<SourceFile>, b: Seq<SourceFile>, files: Seq<SourceFile>)
    requires
        sorts(a, files),
        sorts(b, files),
    ensures
        a == b,
{
    assert forall|place: Seq<Seq<u8>>| #[trigger] placed(a, place) == placed(b, place) by {
        assert(placed(a, place) == placed(files, place));
        assert(placed(b, place) == placed(files, place));
    }
    lemma_one_order(a, b);
}

/// Two runs in order, of the same files, with those in one place in the same
/// order, are the same run.
proof fn lemma_one_order(a: Seq<SourceFile>, b: Seq<SourceFile>)
    requires
        is_in_order(a),
        is_in_order(b),
        a.to_multiset() == b.to_multiset(),
        forall|place: Seq<Seq<u8>>| #[trigger] placed(a, place) == placed(b, place),
    ensures
        a == b,
    decreases a.len(),
{
    broadcast use vstd::seq_lib::group_to_multiset_ensures;

    assert(a.len() == a.to_multiset().len());
    assert(b.len() == b.to_multiset().len());
    if a.len() == 0 {
        assert(a =~= b);
    } else {
        let x = a.last();
        let y = b.last();
        let a0 = a.drop_last();
        let b0 = b.drop_last();
        assert(a =~= a0.push(x));
        assert(b =~= b0.push(y));
        assert(a.contains(x));
        assert(b.contains(y));
        assert(b.to_multiset().count(x) > 0);
        assert(a.to_multiset().count(y) > 0);
        assert(b.contains(x));
        assert(a.contains(y));
        let i = choose|i: int| 0 <= i < b.len() && b[i] == x;
        let j = choose|j: int| 0 <= j < a.len() && a[j] == y;
        lemma_last_is_last(b, i);
        lemma_last_is_last(a, j);
        lemma_parts_total(parts(x.path@), parts(y.path@));
        let here = parts(x.path@);
        lemma_placed_push(a0, x, here);
        lemma_placed_push(b0, y, here);
        assert(placed(a, here) == placed(b, here));
        assert(placed(a, here).last() == x);
        assert(placed(b, here).last() == y);
        assert(a0.to_multiset() =~= a.to_multiset().remove(x));
        assert(b0.to_multiset() =~= b.to_multiset().remove(x));
        assert forall|place: Seq<Seq<u8>>| #[trigger] placed(a0, place) == placed(b0, place) by {
            lemma_placed_push(a0, x, place);
            lemma_placed_push(b0, y, place);
            assert(placed(a, place) == placed(b, place));
            if place == here {
                assert(placed(a, place).drop_last() =~= placed(a0, place));
                assert(placed(b, place).drop_last() =~= placed(b0, place));
            }
        }
        lemma_one_order(a0, b0);
    }
}

/// Putting files in order loses none, adds none, leaves none in front of one
/// that sorts before it, and keeps those in one place in the order they came
/// in; and no other run does all of that.
pub proof fn law_sorting_sorts(files: Seq<SourceFile>)
    ensures
        sorts(in_order(files), files),
        in_order(files).len() == files.len(),
        forall|other: Seq<SourceFile>| #[trigger] sorts(other, files) ==> other == in_order(files),
    decreases files.len(),
{
    broadcast use vstd::seq_lib::group_to_multiset_ensures;

    if files.len() <= 1 {
        lemma_short_is_sorted(files);
    } else {
        let half = files.len() as int / 2;
        let first = files.take(half);
        let second = files.skip(half);
        law_sorting_sorts(first);
        law_sorting_sorts(second);
        assert(first + second =~= files);
        lemma_halves(first, second, in_order(first), in_order(second));
    }
    assert(in_order(files).to_multiset().len() == files.to_multiset().len());
    assert forall|other: Seq<SourceFile>| #[trigger] sorts(other, files) implies other == in_order(files) by {
        lemma_one_sorting(other, in_order(files), files);
    }
}

/// Whether files that sort alike are one file.
pub open spec fn places_differ(files: Seq<SourceFile>) -> bool {
    forall|i: int, j: int|
        0 <= i < files.len() && 0 <= j < files.len() && parts(#[trigger] files[i].path@) == parts(
            #[trigger] files[j].path@,
        ) ==> files[i] == files[j]
}

/// Where files that sort alike are one file, the same files stand in one
/// place the same way, in whatever order they are come upon.
proof fn lemma_one_file_a_place(one: Seq<SourceFile>, other: Seq<SourceFile>, place: Seq<Seq<u8>>)
    requires
        one.to_multiset() == other.to_multiset(),
        places_differ(one),
    ensures
        placed(one, place) == placed(other, place),
{
    broadcast use vstd::seq_lib::group_to_multiset_ensures;

    let here = |file: SourceFile| parts(file.path@) == place;
    let a = placed(one, place);
    let b = placed(other, place);
    assert(a.to_multiset() =~= b.to_multiset()) by {
        assert forall|x: SourceFile| #[trigger] a.to_multiset().count(x) == b.to_multiset().count(x) by {
            lemma_filter_count(one, here, x);
            lemma_filter_count(other, here, x);
        }
    }
    assert(a.len() == a.to_multiset().len());
    assert(b.len() == b.to_multiset().len());
    if a.len() > 0 {
        let x = a[0];
        assert forall|i: int| 0 <= i < a.len() implies #[trigger] a[i] == x by {
            lemma_placed_member(one, place, i);
            lemma_placed_member(one, place, 0);
        }
        assert forall|i: int| 0 <= i < b.len() implies #[trigger] b[i] == x by {
            assert(b.contains(b[i]));
            assert(b.to_multiset().count(b[i]) > 0);
            assert(a.contains(b[i]));
        }
    }
    assert(a =~= b);
}

proof fn lemma_placed_member(files: Seq<SourceFile>, place: Seq<Seq<u8>>, i: int)
    requires
        0 <= i < placed(files, place).len(),
    ensures
        parts(placed(files, place)[i].path@) == place,
        files.contains(placed(files, place)[i]),
{
    broadcast use vstd::seq_lib::group_to_multiset_ensures;

    let here = |file: SourceFile| parts(file.path@) == place;
    let x = placed(files, place)[i];
    files.lemma_filter_pred(here, i);
    lemma_filter_count(files, here, x);
    assert(placed(files, place).contains(x));
    assert(placed(files, place).to_multiset().count(x) > 0);
    assert(files.to_multiset().count(x) > 0);
}

proof fn lemma_filter_count(files: Seq<SourceFile>, wanted: spec_fn(SourceFile) -> bool, x: SourceFile)
    ensures
        files.filter(wanted).to_multiset().count(x) == (if wanted(x) {
            files.to_multiset().count(x)
        } else {
            0
        }),
    decreases files.len(),
{
    broadcast use vstd::seq_lib::group_to_multiset_ensures;

    reveal_with_fuel(Seq::filter, 1);
    if files.len() == 0 {
        assert(!files.contains(x));
        assert(files.to_multiset().count(x) == 0);
    } else {
        let short = files.drop_last();
        let last = files.last();
        lemma_filter_count(short, wanted, x);
        assert(files =~= short.push(last));
        assert(files.to_multiset() == short.to_multiset().insert(last));
        if wanted(last) {
            assert(files.filter(wanted).to_multiset() == short.filter(wanted).to_multiset().insert(last));
        }
    }
}

/// The order in which files are come upon does not matter: the same files,
/// no two of them different files in one place, come out in one order.
pub proof fn law_the_order_of_the_walk_does_not_matter(one: Seq<SourceFile>, other: Seq<SourceFile>)
    requires
        one.to_multiset() == other.to_multiset(),
        places_differ(one),
    ensures
        in_order(one) == in_order(other),
{
    law_sorting_sorts(one);
    law_sorting_sorts(other);
    assert forall|place: Seq<Seq<u8>>| #[trigger] placed(in_order(one), place) == placed(other, place) by {
        lemma_one_file_a_place(one, other, place);
        assert(placed(in_order(one), place) == placed(one, place));
    }
    assert(sorts(in_order(one), other));
}

proof fn lemma_files_in_concat(a: Seq<Tree>, b: Seq<Tree>)
    ensures
        files_in(a + b) == files_in(a) + files_in(b),
    decreases b.len(),
{
    if b.len() == 0 {
        assert(a + b =~= a);
        assert(files_in(a) + files_in(b) =~= files_in(a));
    } else {
        lemma_files_in_concat(a, b.drop_last());
        assert((a + b).drop_last() =~= a + b.drop_last());
        assert(files_in(a + b) =~= files_in(a) + files_in(b));
    }
}

/// What a build wrote is not looked at: a directory holds the same files
/// with it as without it, wherever in the directory it is come upon.
pub proof fn law_a_target_directory_is_not_looked_at(before: Seq<Tree>, target: Tree, after: Seq<Tree>)
    requires
        is_skipped(target),
    ensures
        files_in(before + seq![target] + after) == files_in(before + after),
{
    lemma_files_in_concat(before + seq![target], after);
    lemma_files_in_concat(before, after);
    assert((before + seq![target]).drop_last() =~= before);
}

/// What is hashed of the recipe.
pub open spec fn recipe_bytes(recipe: Recipe) -> Seq<u8> {
    match recipe {
        Recipe::Sql(_) => encode_utf8("sql"@),
        Recipe::Command(command) => encode_utf8("command"@) + encode_utf8(command@),
    }
}

/// What is hashed of a file's path.
pub open spec fn path_bytes(file: SourceFile) -> Seq<u8> {
    encode_utf8(utf8_lossy(file.path@))
}

/// Whether, of each file whose path is UTF-8, the path itself is hashed.
pub open spec fn is_read_plainly(files: Seq<SourceFile>) -> bool {
    forall|i: int|
        0 <= i < files.len() && valid_utf8(files[i].path@) ==> path_bytes(#[trigger] files[i])
            == files[i].path@
}

/// What is hashed of files: each path and each content, with a zero byte
/// after it.
pub open spec fn framed(files: Seq<SourceFile>) -> Seq<u8>
    decreases files.len(),
{
    if files.len() == 0 {
        Seq::<u8>::empty()
    } else {
        let file = files.last();
        framed(files.drop_last()) + path_bytes(file) + seq![0u8] + file.content@ + seq![0u8]
    }
}

/// Everything that is hashed.
pub open spec fn hashed(recipe: Recipe, files: Seq<SourceFile>) -> Seq<u8> {
    recipe_bytes(recipe) + seq![0u8] + framed(files)
}

/// Bytes in hexadecimal, two digits a byte.
pub open spec fn hex_text(bytes: Seq<u8>) -> Seq<char>
    decreases bytes.len(),
{
    if bytes.len() == 0 {
        Seq::<char>::empty()
    } else {
        let b = bytes.last();
        hex_text(bytes.drop_last()).push(digit((b / 16) as int)).push(digit((b % 16) as int))
    }
}

/// The fingerprint of what a schema is built from.
pub open spec fn fingerprint_of(sources: Seq<Tree>, recipe: Recipe) -> Seq<char> {
    hex_text(sha256(hashed(recipe, in_order(files_under(sources)))))
}

/// Bytes in hexadecimal, two digits a byte.
pub fn hex(bytes: &[u8]) -> (r: String)
    ensures
        r@ == hex_text(bytes@),
{
    let mut r = String::new();
    for i in 0..bytes.len()
        invariant
            r@ == hex_text(bytes@.take(i as int)),
    {
        proof {
            assert(bytes@.take(i + 1).drop_last() =~= bytes@.take(i as int));
        }
        r.push(digit_of(bytes[i] / 16));
        r.push(digit_of(bytes[i] % 16));
    }
    proof {
        assert(bytes@.take(bytes@.len() as int) =~= bytes@);
    }
    r
}

/// All of `more` put at the end of `out`.
fn push_bytes(out: &mut Vec<u8>, more: &[u8])
    ensures
        final(out)@ == old(out)@ + more@,
{
    let ghost before = out@;
    proof {
        assert(before + more@.take(0) =~= before);
    }
    for i in 0..more.len()
        invariant
            out@ == before + more@.take(i as int),
    {
        proof {
            assert((before + more@.take(i as int)).push(more@[i as int]) =~= before + more@.take(i + 1));
        }
        out.push(more[i]);
    }
    proof {
        assert(more@.take(more@.len() as int) =~= more@);
    }
}

/// Everything that is hashed: the recipe, then each file's path and content,
/// with a zero byte after each.
pub fn hashed_bytes(recipe: &Recipe, files: &Vec<SourceFile>) -> (r: Vec<u8>)
    ensures
        r@ == hashed(*recipe, files@),
        is_read_plainly(files@),
{
    let mut data: Vec<u8> = Vec::new();
    match recipe {
        Recipe::Sql(_) => {
            push_bytes(&mut data, "sql".as_bytes());
        },
        Recipe::Command(command) => {
            push_bytes(&mut data, "command".as_bytes());
            push_bytes(&mut data, command.as_str().as_bytes());
        },
    }
    data.push(0);
    let ghost head = recipe_bytes(*recipe) + seq![0u8];
    proof {
        assert(data@ =~= head);
        assert(head + framed(files@.take(0)) =~= head);
    }
    for i in 0..files.len()
        invariant
            data@ == head + framed(files@.take(i as int)),
            forall|j: int|
                0 <= j < i && valid_utf8(files@[j].path@) ==> path_bytes(#[trigger] files@[j])
                    == files@[j].path@,
    {
        let ghost before = data@;
        proof {
            assert(files@.take(i + 1).drop_last() =~= files@.take(i as int));
        }
        let file = &files[i];
        push_bytes(&mut data, lossy_of(file.path.as_slice()).as_str().as_bytes());
        data.push(0);
        push_bytes(&mut data, file.content.as_slice());
        data.push(0);
        proof {
            assert(data@ =~= head + framed(files@.take(i + 1)));
            if valid_utf8(file.path@) {
                vstd::utf8::decode_utf8_encode_utf8(file.path@);
            }
        }
    }
    proof {
        assert(files@.take(files@.len() as int) =~= files@);
    }
    data
}

/// What the schema is built from, hashed.
///
/// The migration sources and the recipe that runs them, because a snapshot is
/// only reusable while both are what made it. Anything else changing, this
/// project's own code or its tests, leaves the schema alone and must not
/// throw the pool away.
pub fn fingerprint(sources: Vec<Tree>, recipe: &Recipe) -> (r: String)
    ensures
        r@ == fingerprint_of(sources@, *recipe),
        r@.len() == 64,
        is_words(r@),
        is_read_plainly(files_under(sources@)),
{
    let ghost all = sources@;
    let mut files: Vec<SourceFile> = Vec::new();
    for source in it: sources
        invariant
            it.seq() == all,
            files@ == files_under(all.take(it.index() as int)),
    {
        proof {
            let i = it.index() as int;
            assert(all.take(i + 1).drop_last() =~= all.take(i));
        }
        collect(source, &mut files);
    }
    proof {
        assert(all.take(all.len() as int) =~= all);
    }
    let ghost found = files@;
    let files = sort(files);

    let data = hashed_bytes(recipe, &files);
    let digest = sha256_of(data.as_slice());
    proof {
        lemma_hex_words(digest@);
        assert forall|i: int| 0 <= i < found.len() && valid_utf8(found[i].path@) implies path_bytes(
            #[trigger] found[i],
        ) == found[i].path@ by {
            let k = lemma_same_files(files@, found, i);
            assert(path_bytes(files@[k]) == files@[k].path@);
        }
    }
    hex(digest.as_slice())
}

/// A file of one run, where it stands in another that holds the same files.
proof fn lemma_same_files(a: Seq<SourceFile>, b: Seq<SourceFile>, i: int) -> (k: int)
    requires
        a.to_multiset() == b.to_multiset(),
        0 <= i < b.len(),
    ensures
        0 <= k < a.len(),
        a[k] == b[i],
{
    broadcast use vstd::seq_lib::group_to_multiset_ensures;

    assert(b.contains(b[i]));
    assert(b.to_multiset().count(b[i]) > 0);
    assert(a.contains(b[i]));
    choose|k: int| 0 <= k < a.len() && a[k] == b[i]
}

/// Two digits a byte, and nothing that may not stand in an identifier.
proof fn lemma_hex_words(bytes: Seq<u8>)
    ensures
        hex_text(bytes).len() == 2 * bytes.len(),
        is_words(hex_text(bytes)),
    decreases bytes.len(),
{
    if bytes.len() > 0 {
        lemma_hex_words(bytes.drop_last());
    }
}

/// The paths of the files whose names end in `.sql`, in order.
pub open spec fn sql_paths(at: Tree) -> Seq<Seq<u8>> {
    in_order(files_of(at).filter(|file: SourceFile| is_sql(file.path@))).map_values(
        |file: SourceFile| file.path@,
    )
}

/// Every `.sql` file under a path, in the order they should be applied.
pub fn sql_files(at: Tree) -> (r: Vec<Vec<u8>>)
    ensures
        runs(r@) == sql_paths(at),
{
    let mut found: Vec<SourceFile> = Vec::new();
    collect(at, &mut found);
    let ghost all = found@;
    let ghost wanted = |file: SourceFile| is_sql(file.path@);
    let mut files: Vec<SourceFile> = Vec::new();
    proof {
        assert(all =~= files_of(at));
        assert(all.take(0).filter(wanted) =~= files@) by {
            reveal_with_fuel(Seq::filter, 1);
        }
    }
    for file in it: found
        invariant
            it.seq() == all,
            wanted == |file: SourceFile| is_sql(file.path@),
            files@ == all.take(it.index() as int).filter(wanted),
    {
        proof {
            let i = it.index() as int;
            assert(all.take(i + 1).drop_last() =~= all.take(i));
            reveal_with_fuel(Seq::filter, 1);
        }
        if ends_in_sql(file.path.as_slice()) {
            files.push(file);
        }
    }
    proof {
        assert(all.take(all.len() as int) =~= all);
    }
    let files = sort(files);
    let ghost sorted = files@;
    let mut r: Vec<Vec<u8>> = Vec::new();
    for file in it: files
        invariant
            it.seq() == sorted,
            runs(r@) == sorted.take(it.index() as int).map_values(|file: SourceFile| file.path@),
    {
        proof {
            let i = it.index() as int;
            assert(sorted.take(i + 1) =~= sorted.take(i).push(file));
            assert(runs(r@.push(file.path)) =~= runs(r@).push(file.path@));
            assert(sorted.take(i + 1).map_values(|file: SourceFile| file.path@) =~= runs(r@).push(file.path@));
        }
        r.push(file.path);
    }
    proof {
        assert(sorted.take(sorted.len() as int) =~= sorted);
    }
    r
}

/// Whether two recipes are hashed as one: both of them sql files, whichever,
/// or both the same command.
pub open spec fn same_recipe(one: Recipe, other: Recipe) -> bool {
    match (one, other) {
        (Recipe::Sql(_), Recipe::Sql(_)) => true,
        (Recipe::Command(a), Recipe::Command(b)) => a@ == b@,
        _ => false,
    }
}

/// Different recipes are hashed as different bytes.
pub proof fn law_the_recipe_is_part_of_what_is_hashed(one: Recipe, other: Recipe, files: Seq<SourceFile>)
    ensures
        hashed(one, files) == hashed(other, files) <==> same_recipe(one, other),
        recipe_bytes(one) == recipe_bytes(other) <==> same_recipe(one, other),
{
    lemma_recipe_bytes(one, other);
    let rest = seq![0u8] + framed(files);
    let a = recipe_bytes(one);
    let b = recipe_bytes(other);
    assert(hashed(one, files) =~= a + rest);
    assert(hashed(other, files) =~= b + rest);
    if hashed(one, files) == hashed(other, files) {
        assert(a.len() == b.len());
        assert(a =~= (a + rest).take(a.len() as int));
        assert(b =~= (b + rest).take(b.len() as int));
    }
}

proof fn lemma_recipe_bytes(one: Recipe, other: Recipe)
    ensures
        recipe_bytes(one) == recipe_bytes(other) <==> same_recipe(one, other),
{
    reveal_strlit("sql");
    reveal_strlit("command");
    let sql = encode_utf8("sql"@);
    let command = encode_utf8("command"@);
    vstd::utf8::is_ascii_chars_encode_utf8("sql"@);
    vstd::utf8::is_ascii_chars_encode_utf8("command"@);
    assert(sql[0] == 115u8);
    assert(command[0] == 99u8);
    match (one, other) {
        (Recipe::Command(a), Recipe::Command(b)) => {
            assert(recipe_bytes(one).skip(command.len() as int) =~= encode_utf8(a@));
            assert(recipe_bytes(other).skip(command.len() as int) =~= encode_utf8(b@));
            vstd::utf8::encode_utf8_decode_utf8(a@);
            vstd::utf8::encode_utf8_decode_utf8(b@);
        },
        (Recipe::Sql(_), Recipe::Command(_)) => {
            assert(recipe_bytes(other)[0] == 99u8);
        },
        (Recipe::Command(_), Recipe::Sql(_)) => {
            assert(recipe_bytes(one)[0] == 99u8);
        },
        _ => {},
    }
}

proof fn lemma_framed_concat(a: Seq<SourceFile>, b: Seq<SourceFile>)
    ensures
        framed(a + b) == framed(a) + framed(b),
    decreases b.len(),
{
    if b.len() == 0 {
        assert(a + b =~= a);
        assert(framed(a) + framed(b) =~= framed(a));
    } else {
        lemma_framed_concat(a, b.drop_last());
        assert((a + b).drop_last() =~= a + b.drop_last());
        assert(framed(a + b) =~= framed(a) + framed(b));
    }
}

/// What is hashed in front of a file's content.
spec fn hashed_up_to(recipe: Recipe, before: Seq<SourceFile>, file: SourceFile) -> Seq<u8> {
    recipe_bytes(recipe) + seq![0u8] + framed(before) + path_bytes(file) + seq![0u8]
}

proof fn lemma_hashed_around(
    recipe: Recipe,
    before: Seq<SourceFile>,
    file: SourceFile,
    after: Seq<SourceFile>,
)
    ensures
        hashed(recipe, before + seq![file] + after) == hashed_up_to(recipe, before, file) + file.content@ + (
        seq![0u8] + framed(after)),
{
    lemma_framed_concat(before + seq![file], after);
    assert((before + seq![file]).drop_last() =~= before);
    assert((before + seq![file]).last() == file);
    let middle = framed(before) + path_bytes(file) + seq![0u8] + file.content@ + seq![0u8];
    assert(framed(before + seq![file]) == middle);
    assert(recipe_bytes(recipe) + seq![0u8] + (middle + framed(after)) =~= hashed_up_to(recipe, before, file)
        + file.content@ + (seq![0u8] + framed(after)));
}

/// Between the same ends, two wholes are the same exactly when what stands
/// between is.
proof fn lemma_cut_out(head: Seq<u8>, one: Seq<u8>, other: Seq<u8>, tail: Seq<u8>)
    ensures
        head + one + tail == head + other + tail <==> one == other,
{
    let a = head + one + tail;
    let b = head + other + tail;
    if a == b {
        let n = head.len() as int;
        assert(a.len() == b.len());
        assert(one.len() == other.len());
        assert(one =~= a.subrange(n, n + one.len()));
        assert(other =~= b.subrange(n, n + other.len()));
    }
}

/// A migration that changes is noticed: with everything else as it was, what
/// is hashed is the same exactly when the file's content is.
pub proof fn law_a_changed_file_changes_what_is_hashed(
    recipe: Recipe,
    before: Seq<SourceFile>,
    file: SourceFile,
    changed: SourceFile,
    after: Seq<SourceFile>,
)
    requires
        file.path@ == changed.path@,
    ensures
        hashed(recipe, before + seq![file] + after) == hashed(recipe, before + seq![changed] + after)
            <==> file.content@ == changed.content@,
{
    lemma_hashed_around(recipe, before, file, after);
    lemma_hashed_around(recipe, before, changed, after);
    lemma_cut_out(
        hashed_up_to(recipe, before, file),
        file.content@,
        changed.content@,
        seq![0u8] + framed(after),
    );
}

/// What is hashed, piece by piece.
pub open spec fn pieces_of(recipe: Recipe, files: Seq<SourceFile>) -> Seq<Seq<u8>>
    decreases files.len(),
{
    if files.len() == 0 {
        seq![recipe_bytes(recipe)]
    } else {
        pieces_of(recipe, files.drop_last()).push(path_bytes(files.last())).push(files.last().content@)
    }
}

/// Whether no piece holds a zero byte, which is what ends one.
pub open spec fn is_text(recipe: Recipe, files: Seq<SourceFile>) -> bool {
    forall|i: int|
        0 <= i < pieces_of(recipe, files).len() ==> !(#[trigger] pieces_of(recipe, files)[i]).contains(0u8)
}

proof fn lemma_pieces(recipe: Recipe, files: Seq<SourceFile>)
    ensures
        pieces_of(recipe, files).len() == 1 + 2 * files.len(),
        hashed(recipe, files) == join(pieces_of(recipe, files), seq![0u8]) + seq![0u8],
    decreases files.len(),
{
    let all = pieces_of(recipe, files);
    if files.len() == 0 {
        assert(hashed(recipe, files) =~= join(all, seq![0u8]) + seq![0u8]);
    } else {
        let short = pieces_of(recipe, files.drop_last());
        lemma_pieces(recipe, files.drop_last());
        let middle = short.push(path_bytes(files.last()));
        assert(all.drop_last() =~= middle);
        assert(middle.drop_last() =~= short);
        assert(join(middle, seq![0u8]) == join(short, seq![0u8]) + seq![0u8] + path_bytes(files.last()));
        assert(join(all, seq![0u8]) == join(middle, seq![0u8]) + seq![0u8] + files.last().content@);
        assert(hashed(recipe, files) =~= join(all, seq![0u8]) + seq![0u8]);
    }
}

proof fn lemma_piece_at(recipe: Recipe, files: Seq<SourceFile>, i: int)
    requires
        0 <= i < files.len(),
    ensures
        pieces_of(recipe, files).len() == 1 + 2 * files.len(),
        pieces_of(recipe, files)[1 + 2 * i] == path_bytes(files[i]),
        pieces_of(recipe, files)[2 + 2 * i] == files[i].content@,
    decreases files.len(),
{
    lemma_pieces(recipe, files);
    lemma_pieces(recipe, files.drop_last());
    if i < files.len() - 1 {
        lemma_piece_at(recipe, files.drop_last(), i);
    }
}

proof fn lemma_piece_first(recipe: Recipe, files: Seq<SourceFile>)
    ensures
        pieces_of(recipe, files).len() > 0,
        pieces_of(recipe, files)[0] == recipe_bytes(recipe),
    decreases files.len(),
{
    if files.len() > 0 {
        lemma_piece_first(recipe, files.drop_last());
    }
}

/// As long as none of it holds a zero byte, what is hashed tells sources
/// apart: from equal bytes the recipe, the number of files, and each file's
/// path and content are the same.
pub proof fn law_what_is_hashed_tells_sources_apart(
    recipe: Recipe,
    files: Seq<SourceFile>,
    other_recipe: Recipe,
    other_files: Seq<SourceFile>,
)
    requires
        is_text(recipe, files),
        is_text(other_recipe, other_files),
        hashed(recipe, files) == hashed(other_recipe, other_files),
    ensures
        same_recipe(recipe, other_recipe),
        files.len() == other_files.len(),
        forall|i: int|
            0 <= i < files.len() ==> path_bytes(#[trigger] files[i]) == path_bytes(other_files[i])
                && files[i].content@ == other_files[i].content@,
{
    let a = pieces_of(recipe, files);
    let b = pieces_of(other_recipe, other_files);
    lemma_pieces(recipe, files);
    lemma_pieces(other_recipe, other_files);
    let x = join(a, seq![0u8]);
    let y = join(b, seq![0u8]);
    assert((x + seq![0u8]).drop_last() =~= x);
    assert((y + seq![0u8]).drop_last() =~= y);
    lemma_split_join(a, 0u8);
    lemma_split_join(b, 0u8);
    assert(a == split(x, 0u8));
    assert(a == b);
    lemma_piece_first(recipe, files);
    lemma_piece_first(other_recipe, other_files);
    lemma_recipe_bytes(recipe, other_recipe);
    assert forall|i: int| 0 <= i < files.len() implies path_bytes(#[trigger] files[i]) == path_bytes(
        other_files[i],
    ) && files[i].content@ == other_files[i].content@ by {
        lemma_piece_at(recipe, files, i);
        lemma_piece_at(other_recipe, other_files, i);
    }
}

/// Whether what stands at two paths is the same to whoever looks for files:
/// the same file, or directories whose entries are, in whatever order they
/// are come upon and whatever a build wrote, at any depth.
pub open spec fn alike(a: Tree, b: Tree) -> bool
    decreases a,
{
    match (a, b) {
        (Tree::File(x), Tree::File(y)) => x == y,
        (Tree::Directory { entries: e, .. }, Tree::Directory { entries: f, .. }) => alike_in(e@, f@),
        (Tree::Other, Tree::Other) => true,
        _ => false,
    }
}

/// Whether the entries of two directories are alike, one for one and in
/// whatever order, but for what a build wrote.
pub open spec fn alike_in(e: Seq<Tree>, f: Seq<Tree>) -> bool
    decreases e,
{
    if e.len() == 0 {
        forall|j: int| 0 <= j < f.len() ==> is_skipped(#[trigger] f[j])
    } else if is_skipped(e.last()) {
        alike_in(e.drop_last(), f)
    } else {
        exists|j: int|
            0 <= j < f.len() && !is_skipped(#[trigger] f[j]) && alike(e.last(), f[j]) && alike_in(
                e.drop_last(),
                f.remove(j),
            )
    }
}

/// Whether sources are alike, one for one and in whatever order. A source
/// that is named is looked at whatever it is called.
pub open spec fn alike_sources(one: Seq<Tree>, other: Seq<Tree>) -> bool
    decreases one.len(),
{
    if one.len() == 0 {
        other.len() == 0
    } else {
        exists|j: int|
            0 <= j < other.len() && alike(one.last(), #[trigger] other[j]) && alike_sources(
                one.drop_last(),
                other.remove(j),
            )
    }
}

proof fn lemma_files_in_remove(f: Seq<Tree>, j: int)
    requires
        0 <= j < f.len(),
        !is_skipped(f[j]),
    ensures
        files_in(f).to_multiset() == files_in(f.remove(j)).to_multiset().add(files_of(f[j]).to_multiset()),
{
    let front = f.take(j);
    let back = f.skip(j + 1);
    assert(f =~= front + seq![f[j]] + back);
    assert(f.remove(j) =~= front + back);
    lemma_files_in_concat(front + seq![f[j]], back);
    lemma_files_in_concat(front, back);
    assert((front + seq![f[j]]).drop_last() =~= front);
    vstd::seq_lib::lemma_multiset_commutative(files_in(front + seq![f[j]]), files_in(back));
    vstd::seq_lib::lemma_multiset_commutative(files_in(front), files_of(f[j]));
    vstd::seq_lib::lemma_multiset_commutative(files_in(front), files_in(back));
    assert(files_in(f).to_multiset() =~= files_in(f.remove(j)).to_multiset().add(
        files_of(f[j]).to_multiset(),
    ));
}

proof fn lemma_all_skipped(f: Seq<Tree>)
    requires
        forall|j: int| 0 <= j < f.len() ==> is_skipped(#[trigger] f[j]),
    ensures
        files_in(f) == Seq::<SourceFile>::empty(),
    decreases f.len(),
{
    if f.len() > 0 {
        assert(is_skipped(f[f.len() - 1]));
        lemma_all_skipped(f.drop_last());
    }
}

proof fn lemma_alike(a: Tree, b: Tree)
    requires
        alike(a, b),
    ensures
        files_of(a).to_multiset() == files_of(b).to_multiset(),
    decreases a,
{
    match (a, b) {
        (Tree::Directory { entries: e, .. }, Tree::Directory { entries: f, .. }) => {
            lemma_alike_in(e@, f@);
        },
        _ => {},
    }
}

proof fn lemma_alike_in(e: Seq<Tree>, f: Seq<Tree>)
    requires
        alike_in(e, f),
    ensures
        files_in(e).to_multiset() == files_in(f).to_multiset(),
    decreases e,
{
    if e.len() == 0 {
        lemma_all_skipped(f);
    } else if is_skipped(e.last()) {
        lemma_alike_in(e.drop_last(), f);
    } else {
        let j = choose|j: int|
            0 <= j < f.len() && !is_skipped(#[trigger] f[j]) && alike(e.last(), f[j]) && alike_in(
                e.drop_last(),
                f.remove(j),
            );
        lemma_alike(e.last(), f[j]);
        lemma_alike_in(e.drop_last(), f.remove(j));
        lemma_files_in_remove(f, j);
        vstd::seq_lib::lemma_multiset_commutative(files_in(e.drop_last()), files_of(e.last()));
    }
}

proof fn lemma_files_under_concat(a: Seq<Tree>, b: Seq<Tree>)
    ensures
        files_under(a + b) == files_under(a) + files_under(b),
    decreases b.len(),
{
    if b.len() == 0 {
        assert(a + b =~= a);
        assert(files_under(a) + files_under(b) =~= files_under(a));
    } else {
        lemma_files_under_concat(a, b.drop_last());
        assert((a + b).drop_last() =~= a + b.drop_last());
        assert(files_under(a + b) =~= files_under(a) + files_under(b));
    }
}

proof fn lemma_alike_sources(one: Seq<Tree>, other: Seq<Tree>)
    requires
        alike_sources(one, other),
    ensures
        files_under(one).to_multiset() == files_under(other).to_multiset(),
    decreases one.len(),
{
    if one.len() > 0 {
        let j = choose|j: int|
            0 <= j < other.len() && alike(one.last(), #[trigger] other[j]) && alike_sources(
                one.drop_last(),
                other.remove(j),
            );
        lemma_alike(one.last(), other[j]);
        lemma_alike_sources(one.drop_last(), other.remove(j));
        let front = other.take(j);
        let back = other.skip(j + 1);
        assert(other =~= front + seq![other[j]] + back);
        assert(other.remove(j) =~= front + back);
        lemma_files_under_concat(front + seq![other[j]], back);
        lemma_files_under_concat(front, back);
        assert((front + seq![other[j]]).drop_last() =~= front);
        vstd::seq_lib::lemma_multiset_commutative(files_under(front + seq![other[j]]), files_under(back));
        vstd::seq_lib::lemma_multiset_commutative(files_under(front), files_of(other[j]));
        vstd::seq_lib::lemma_multiset_commutative(files_under(front), files_under(back));
        vstd::seq_lib::lemma_multiset_commutative(files_under(one.drop_last()), files_of(one.last()));
        assert(files_under(one).to_multiset() =~= files_under(other).to_multiset());
    }
}

/// Whatever stands at a path is like itself.
pub proof fn lemma_alike_itself(a: Tree)
    ensures
        alike(a, a),
    decreases a,
{
    match a {
        Tree::Directory { entries, .. } => {
            lemma_alike_in_itself(entries@);
        },
        _ => {},
    }
}

/// The entries of a directory are like themselves.
pub proof fn lemma_alike_in_itself(e: Seq<Tree>)
    ensures
        alike_in(e, e),
    decreases e,
{
    if e.len() > 0 {
        let n = e.len() - 1;
        let short = e.drop_last();
        lemma_alike_in_itself(short);
        if is_skipped(e.last()) {
            lemma_skipped_besides(short, short, e.last());
            assert(short.push(e.last()) =~= e);
        } else {
            lemma_alike_itself(e.last());
            assert(e.remove(n) =~= short);
            assert(!is_skipped(e[n]) && alike(e.last(), e[n]) && alike_in(e.drop_last(), e.remove(n)));
        }
    }
}

/// What a build wrote may stand beside the entries of a directory.
proof fn lemma_skipped_besides(e: Seq<Tree>, f: Seq<Tree>, more: Tree)
    requires
        alike_in(e, f),
        is_skipped(more),
    ensures
        alike_in(e, f.push(more)),
    decreases e.len(),
{
    if e.len() == 0 {
        assert forall|j: int| 0 <= j < f.push(more).len() implies is_skipped(#[trigger] f.push(more)[j]) by {
            if j < f.len() {
                assert(is_skipped(f[j]));
            }
        }
    } else if is_skipped(e.last()) {
        lemma_skipped_besides(e.drop_last(), f, more);
    } else {
        let j = choose|j: int|
            0 <= j < f.len() && !is_skipped(#[trigger] f[j]) && alike(e.last(), f[j]) && alike_in(
                e.drop_last(),
                f.remove(j),
            );
        lemma_skipped_besides(e.drop_last(), f.remove(j), more);
        assert(f.push(more).remove(j) =~= f.remove(j).push(more));
        assert(f.push(more)[j] == f[j]);
    }
}

/// Sources that are named in another order are alike.
pub proof fn law_reordered_sources_are_alike(one: Seq<Tree>, other: Seq<Tree>)
    requires
        one.to_multiset() == other.to_multiset(),
    ensures
        alike_sources(one, other),
    decreases one.len(),
{
    broadcast use vstd::seq_lib::group_to_multiset_ensures;

    assert(one.len() == one.to_multiset().len());
    assert(other.len() == other.to_multiset().len());
    if one.len() > 0 {
        let last = one.last();
        assert(one.contains(last));
        assert(other.to_multiset().count(last) > 0);
        assert(other.contains(last));
        let j = choose|j: int| 0 <= j < other.len() && other[j] == last;
        let short = one.drop_last();
        assert(one =~= short.push(last));
        assert(short.to_multiset() =~= one.to_multiset().remove(last));
        assert(other.remove(j).to_multiset() =~= other.to_multiset().remove(last));
        law_reordered_sources_are_alike(short, other.remove(j));
        lemma_alike_itself(last);
        assert(alike(one.last(), other[j]));
    }
}

/// A directory with something in it that a build wrote is like the directory
/// without it, wherever that is come upon.
pub proof fn law_what_a_build_wrote_is_alike(before: Seq<Tree>, target: Tree, after: Seq<Tree>)
    requires
        is_skipped(target),
    ensures
        alike_in(before + seq![target] + after, before + after),
        alike_in(before + after, before + seq![target] + after),
    decreases after.len(),
{
    let with = before + seq![target] + after;
    let without = before + after;
    if after.len() == 0 {
        lemma_alike_in_itself(before);
        assert(without =~= before);
        assert(with.drop_last() =~= before);
        assert(with =~= before.push(target));
        assert(with.last() == target);
        lemma_skipped_besides(before, before, target);
    } else {
        let last = after.last();
        let short = after.drop_last();
        law_what_a_build_wrote_is_alike(before, target, short);
        let with0 = before + seq![target] + short;
        let without0 = before + short;
        assert(with.drop_last() =~= with0);
        assert(without.drop_last() =~= without0);
        assert(with =~= with0.push(last));
        assert(without =~= without0.push(last));
        if is_skipped(last) {
            lemma_skipped_besides(with0, without0, last);
            lemma_skipped_besides(without0, with0, last);
        } else {
            lemma_alike_itself(last);
            let n = without0.len() as int;
            let m = with0.len() as int;
            assert(without.remove(n) =~= without0);
            assert(with.remove(m) =~= with0);
            assert(without[n] == last && with[m] == last);
        }
    }
}

/// The same files under the same recipe have the same fingerprint, in
/// whatever order they are come upon.
pub proof fn law_the_same_input_has_one_fingerprint(
    one: Seq<Tree>,
    other: Seq<Tree>,
    recipe: Recipe,
    other_recipe: Recipe,
)
    requires
        files_under(one).to_multiset() == files_under(other).to_multiset(),
        places_differ(files_under(one)),
        same_recipe(recipe, other_recipe),
    ensures
        fingerprint_of(one, recipe) == fingerprint_of(other, other_recipe),
{
    law_the_order_of_the_walk_does_not_matter(files_under(one), files_under(other));
    law_the_recipe_is_part_of_what_is_hashed(recipe, other_recipe, in_order(files_under(one)));
}

/// A fingerprint moves with nothing but what the schema is built from: not
/// with the order in which sources are named, nor with the order in which
/// directories are walked, nor with what a build wrote, at any depth.
pub proof fn law_alike_sources_have_one_fingerprint(
    one: Seq<Tree>,
    other: Seq<Tree>,
    recipe: Recipe,
    other_recipe: Recipe,
)
    requires
        alike_sources(one, other),
        places_differ(files_under(one)),
        same_recipe(recipe, other_recipe),
    ensures
        fingerprint_of(one, recipe) == fingerprint_of(other, other_recipe),
{
    lemma_alike_sources(one, other);
    law_the_same_input_has_one_fingerprint(one, other, recipe, other_recipe);
}

/// A file, as whoever reads it sees it: its path and what it holds.
pub open spec fn seen(file: SourceFile) -> (Seq<u8>, Seq<u8>) {
    (file.path@, file.content@)
}

/// The files there are, as a set: paths and what they hold.
pub open spec fn all_seen(files: Seq<SourceFile>) -> Set<(Seq<u8>, Seq<u8>)> {
    Set::new(|one: (Seq<u8>, Seq<u8>)| exists|i: int| 0 <= i < files.len() && seen(#[trigger] files[i]) == one)
}

/// Whether no place holds two files.
pub open spec fn each_once(files: Seq<SourceFile>) -> bool {
    forall|place: Seq<Seq<u8>>| (#[trigger] placed(files, place)).len() <= 1
}

/// Whether all of it is text: the paths are UTF-8, and no path, no file and no
/// command holds a zero byte.
pub open spec fn is_plain(recipe: Recipe, files: Seq<SourceFile>) -> bool {
    &&& recipe matches Recipe::Command(command) ==> !encode_utf8(command@).contains(0u8)
    &&& forall|i: int|
        0 <= i < files.len() ==> valid_utf8((#[trigger] files[i]).path@) && !files[i].path@.contains(0u8)
            && !files[i].content@.contains(0u8)
}

proof fn lemma_each_once(files: Seq<SourceFile>, i: int, j: int)
    requires
        each_once(files),
        0 <= i < files.len(),
        0 <= j < files.len(),
        parts(files[i].path@) == parts(files[j].path@),
    ensures
        i == j,
{
    if i < j {
        lemma_placed_twice(files, i, j);
    } else if j < i {
        lemma_placed_twice(files, j, i);
    }
}

proof fn lemma_placed_twice(files: Seq<SourceFile>, i: int, j: int)
    requires
        0 <= i < j < files.len(),
        parts(files[i].path@) == parts(files[j].path@),
    ensures
        placed(files, parts(files[i].path@)).len() >= 2,
{
    let place = parts(files[i].path@);
    let here = |file: SourceFile| parts(file.path@) == place;
    let front = files.take(i + 1);
    let back = files.skip(i + 1);
    assert(files =~= front + back);
    lemma_placed_concat(front, back, place);
    assert(front[i] == files[i]);
    assert(back[j - i - 1] == files[j]);
    front.lemma_filter_contains(here, i);
    back.lemma_filter_contains(here, j - i - 1);
}

proof fn lemma_all_seen_sorted(sorted: Seq<SourceFile>, files: Seq<SourceFile>)
    requires
        sorted.to_multiset() == files.to_multiset(),
    ensures
        all_seen(sorted) == all_seen(files),
{
    assert forall|one: (Seq<u8>, Seq<u8>)| #[trigger]
        all_seen(sorted).contains(one) <==> all_seen(files).contains(one) by {
        if all_seen(sorted).contains(one) {
            let i = choose|i: int| 0 <= i < sorted.len() && seen(#[trigger] sorted[i]) == one;
            let k = lemma_same_files(files, sorted, i);
            assert(seen(files[k]) == one);
        }
        if all_seen(files).contains(one) {
            let i = choose|i: int| 0 <= i < files.len() && seen(#[trigger] files[i]) == one;
            let k = lemma_same_files(sorted, files, i);
            assert(seen(sorted[k]) == one);
        }
    }
    assert(all_seen(sorted) =~= all_seen(files));
}

/// Two runs in order that hold the same files, each once, are the same to
/// whoever reads them.
proof fn lemma_seen_in_one_order(a: Seq<SourceFile>, b: Seq<SourceFile>)
    requires
        is_in_order(a),
        is_in_order(b),
        each_once(a),
        each_once(b),
        all_seen(a) == all_seen(b),
    ensures
        a.len() == b.len(),
        forall|i: int| 0 <= i < a.len() ==> seen(#[trigger] a[i]) == seen(b[i]),
    decreases a.len(),
{
    if a.len() == 0 {
        if b.len() > 0 {
            assert(seen(b[0]) == seen(b[0]));
            assert(all_seen(b).contains(seen(b[0])));
        }
    } else if b.len() == 0 {
        assert(all_seen(a).contains(seen(a[0])));
    } else {
        let x = a.last();
        let y = b.last();
        assert(a[a.len() - 1] == x && b[b.len() - 1] == y);
        assert(all_seen(a).contains(seen(x)));
        assert(all_seen(b).contains(seen(y)));
        let i = choose|i: int| 0 <= i < b.len() && seen(#[trigger] b[i]) == seen(x);
        let j = choose|j: int| 0 <= j < a.len() && seen(#[trigger] a[j]) == seen(y);
        lemma_last_is_last(b, i);
        lemma_last_is_last(a, j);
        lemma_parts_total(parts(x.path@), parts(y.path@));
        assert(parts(b[i].path@) == parts(y.path@));
        lemma_each_once(b, i, b.len() - 1);
        assert(seen(x) == seen(y));
        let a0 = a.drop_last();
        let b0 = b.drop_last();
        assert(a =~= a0.push(x));
        assert(b =~= b0.push(y));
        assert forall|place: Seq<Seq<u8>>| (#[trigger] placed(a0, place)).len() <= 1 by {
            lemma_placed_push(a0, x, place);
            assert(placed(a, place).len() <= 1);
        }
        assert forall|place: Seq<Seq<u8>>| (#[trigger] placed(b0, place)).len() <= 1 by {
            lemma_placed_push(b0, y, place);
            assert(placed(b, place).len() <= 1);
        }
        lemma_all_seen_short(a);
        lemma_all_seen_short(b);
        lemma_seen_in_one_order(a0, b0);
        assert forall|k: int| 0 <= k < a.len() implies seen(#[trigger] a[k]) == seen(b[k]) by {
            if k < a.len() - 1 {
                assert(seen(a0[k]) == seen(b0[k]));
            }
        }
    }
}

proof fn lemma_all_seen_short(files: Seq<SourceFile>)
    requires
        files.len() > 0,
        each_once(files),
    ensures
        all_seen(files.drop_last()) == all_seen(files).remove(seen(files.last())),
{
    let short = files.drop_last();
    let last = seen(files.last());
    assert forall|one: (Seq<u8>, Seq<u8>)| #[trigger]
        all_seen(short).contains(one) <==> all_seen(files).remove(last).contains(one) by {
        if all_seen(short).contains(one) {
            let i = choose|i: int| 0 <= i < short.len() && seen(#[trigger] short[i]) == one;
            assert(seen(files[i]) == one);
            if one == last {
                lemma_each_once(files, i, files.len() - 1);
            }
        }
        if all_seen(files).remove(last).contains(one) {
            let i = choose|i: int| 0 <= i < files.len() && seen(#[trigger] files[i]) == one;
            assert(i < files.len() - 1);
            assert(seen(short[i]) == one);
        }
    }
    assert(all_seen(short) =~= all_seen(files).remove(last));
}

proof fn lemma_framed_seen(a: Seq<SourceFile>, b: Seq<SourceFile>)
    requires
        a.len() == b.len(),
        forall|i: int| 0 <= i < a.len() ==> seen(#[trigger] a[i]) == seen(b[i]),
    ensures
        framed(a) == framed(b),
    decreases a.len(),
{
    if a.len() > 0 {
        let n = a.len() - 1;
        assert(seen(a[n]) == seen(b[n]));
        assert forall|i: int| 0 <= i < n implies seen(#[trigger] a.drop_last()[i]) == seen(b.drop_last()[i]) by {
            assert(seen(a[i]) == seen(b[i]));
        }
        lemma_framed_seen(a.drop_last(), b.drop_last());
    }
}

proof fn lemma_plain_is_text(recipe: Recipe, files: Seq<SourceFile>)
    requires
        is_plain(recipe, files),
        is_read_plainly(files),
    ensures
        is_text(recipe, files),
{
    let pieces = pieces_of(recipe, files);
    lemma_pieces(recipe, files);
    assert forall|i: int| 0 <= i < pieces.len() implies !(#[trigger] pieces[i]).contains(0u8) by {
        if i == 0 {
            lemma_piece_first(recipe, files);
            lemma_recipe_is_text(recipe);
        } else if i % 2 == 1 {
            let k = (i - 1) / 2;
            lemma_piece_at(recipe, files, k);
            assert(path_bytes(files[k]) == files[k].path@);
        } else {
            lemma_piece_at(recipe, files, (i - 2) / 2);
            assert(valid_utf8(files[(i - 2) / 2].path@));
        }
    }
}

proof fn lemma_recipe_is_text(recipe: Recipe)
    requires
        recipe matches Recipe::Command(command) ==> !encode_utf8(command@).contains(0u8),
    ensures
        !recipe_bytes(recipe).contains(0u8),
{
    reveal_strlit("sql");
    reveal_strlit("command");
    assert(vstd::utf8::is_ascii_chars("sql"@));
    assert(vstd::utf8::is_ascii_chars("command"@));
    vstd::utf8::is_ascii_chars_encode_utf8("sql"@);
    vstd::utf8::is_ascii_chars_encode_utf8("command"@);
    let bytes = recipe_bytes(recipe);
    if bytes.contains(0u8) {
        let i = choose|i: int| 0 <= i < bytes.len() && bytes[i] == 0u8;
        match recipe {
            Recipe::Sql(_) => {
                assert(bytes[i] == "sql"@[i] as u8);
            },
            Recipe::Command(command) => {
                if i < 7 {
                    assert(bytes[i] == "command"@[i] as u8);
                } else {
                    assert(encode_utf8(command@)[i - 7] == 0u8);
                }
            },
        }
    }
}

/// Change a migration and it is rebuilt; change anything else and it is not.
/// Two fingerprints are equal exactly where the recipes are one and the sets
/// of files under the sources, paths and contents, are the same, those that a
/// build wrote left out.
///
/// That takes it that all of it is text, that no place holds two files, and
/// that SHA-256 does not give the two the same digest unless they are the
/// same. What is read plainly `fingerprint` says of any sources it is given.
pub proof fn law_a_fingerprint_tells_sources_apart(
    one: Seq<Tree>,
    other: Seq<Tree>,
    recipe: Recipe,
    other_recipe: Recipe,
)
    requires
        is_plain(recipe, files_under(one)),
        is_plain(other_recipe, files_under(other)),
        is_read_plainly(files_under(one)),
        is_read_plainly(files_under(other)),
        each_once(files_under(one)),
        each_once(files_under(other)),
        ({
            let a = hashed(recipe, in_order(files_under(one)));
            let b = hashed(other_recipe, in_order(files_under(other)));
            sha256(a) == sha256(b) ==> a == b
        }),
    ensures
        fingerprint_of(one, recipe) == fingerprint_of(other, other_recipe) <==> same_recipe(
            recipe,
            other_recipe,
        ) && all_seen(files_under(one)) == all_seen(files_under(other)),
{
    let a = in_order(files_under(one));
    let b = in_order(files_under(other));
    law_sorting_sorts(files_under(one));
    law_sorting_sorts(files_under(other));
    lemma_all_seen_sorted(a, files_under(one));
    lemma_all_seen_sorted(b, files_under(other));
    lemma_sorted_keeps(recipe, a, files_under(one));
    lemma_sorted_keeps(other_recipe, b, files_under(other));
    lemma_plain_is_text(recipe, a);
    lemma_plain_is_text(other_recipe, b);
    law_the_recipe_is_part_of_what_is_hashed(recipe, other_recipe, a);
    let x = hashed(recipe, a);
    let y = hashed(other_recipe, b);
    if fingerprint_of(one, recipe) == fingerprint_of(other, other_recipe) {
        law_hex_is_two_digits_a_byte(sha256(x), sha256(y));
        law_what_is_hashed_tells_sources_apart(recipe, a, other_recipe, b);
        assert forall|i: int| 0 <= i < a.len() implies seen(#[trigger] a[i]) == seen(b[i]) by {
            assert(path_bytes(a[i]) == path_bytes(b[i]));
            assert(path_bytes(b[i]) == b[i].path@);
        }
        lemma_all_seen_same(a, b);
    }
    if same_recipe(recipe, other_recipe) && all_seen(a) == all_seen(b) {
        lemma_seen_in_one_order(a, b);
        lemma_framed_seen(a, b);
    }
}

proof fn lemma_all_seen_same(a: Seq<SourceFile>, b: Seq<SourceFile>)
    requires
        a.len() == b.len(),
        forall|i: int| 0 <= i < a.len() ==> seen(#[trigger] a[i]) == seen(b[i]),
    ensures
        all_seen(a) == all_seen(b),
{
    assert forall|one: (Seq<u8>, Seq<u8>)| #[trigger] all_seen(a).contains(one) <==> all_seen(b).contains(one) by {
        if all_seen(a).contains(one) {
            let i = choose|i: int| 0 <= i < a.len() && seen(#[trigger] a[i]) == one;
            assert(seen(b[i]) == one);
        }
        if all_seen(b).contains(one) {
            let i = choose|i: int| 0 <= i < b.len() && seen(#[trigger] b[i]) == one;
            assert(seen(a[i]) == one);
        }
    }
    assert(all_seen(a) =~= all_seen(b));
}

/// What is put in order is as plain as it was, and each file in it once.
proof fn lemma_sorted_keeps(recipe: Recipe, sorted: Seq<SourceFile>, files: Seq<SourceFile>)
    requires
        sorts(sorted, files),
        is_plain(recipe, files),
        is_read_plainly(files),
        each_once(files),
    ensures
        is_plain(recipe, sorted),
        is_read_plainly(sorted),
        each_once(sorted),
{
    assert forall|i: int| 0 <= i < sorted.len() implies valid_utf8((#[trigger] sorted[i]).path@)
        && !sorted[i].path@.contains(0u8) && !sorted[i].content@.contains(0u8) && path_bytes(sorted[i])
        == sorted[i].path@ by {
        let k = lemma_same_files(files, sorted, i);
        assert(path_bytes(files[k]) == files[k].path@);
    }
    assert forall|place: Seq<Seq<u8>>| (#[trigger] placed(sorted, place)).len() <= 1 by {
        assert(placed(sorted, place) == placed(files, place));
        assert(placed(files, place).len() <= 1);
    }
}

/// Whether what stands at two paths differs in nothing but what a build wrote,
/// at any depth.
pub open spec fn built_alike(a: Tree, b: Tree) -> bool
    decreases a, 0nat,
{
    match (a, b) {
        (Tree::File(x), Tree::File(y)) => x == y,
        (Tree::Directory { entries: e, .. }, Tree::Directory { entries: f, .. }) => built_alike_in(e@, f@),
        (Tree::Other, Tree::Other) => true,
        _ => false,
    }
}

/// Whether the entries of two directories differ in nothing but what a build
/// wrote.
pub open spec fn built_alike_in(e: Seq<Tree>, f: Seq<Tree>) -> bool
    decreases e, f.len(),
{
    if e.len() > 0 && is_skipped(e.last()) {
        built_alike_in(e.drop_last(), f)
    } else if f.len() > 0 && is_skipped(f.last()) {
        built_alike_in(e, f.drop_last())
    } else if e.len() == 0 || f.len() == 0 {
        e.len() == f.len()
    } else {
        built_alike(e.last(), f.last()) && built_alike_in(e.drop_last(), f.drop_last())
    }
}

proof fn lemma_built_alike(a: Tree, b: Tree)
    requires
        built_alike(a, b),
    ensures
        files_of(a) == files_of(b),
    decreases a, 0nat,
{
    match (a, b) {
        (Tree::Directory { entries: e, .. }, Tree::Directory { entries: f, .. }) => {
            lemma_built_alike_in(e@, f@);
        },
        _ => {},
    }
}

proof fn lemma_built_alike_in(e: Seq<Tree>, f: Seq<Tree>)
    requires
        built_alike_in(e, f),
    ensures
        files_in(e) == files_in(f),
    decreases e, f.len(),
{
    if e.len() > 0 && is_skipped(e.last()) {
        lemma_built_alike_in(e.drop_last(), f);
    } else if f.len() > 0 && is_skipped(f.last()) {
        lemma_built_alike_in(e, f.drop_last());
    } else if e.len() > 0 && f.len() > 0 {
        lemma_built_alike(e.last(), f.last());
        lemma_built_alike_in(e.drop_last(), f.drop_last());
    }
}

proof fn lemma_built_alike_sources(one: Seq<Tree>, other: Seq<Tree>)
    requires
        one.len() == other.len(),
        forall|i: int| 0 <= i < one.len() ==> built_alike(#[trigger] one[i], other[i]),
    ensures
        files_under(one) == files_under(other),
    decreases one.len(),
{
    if one.len() > 0 {
        let n = one.len() - 1;
        assert(built_alike(one[n], other[n]));
        lemma_built_alike(one[n], other[n]);
        lemma_built_alike_sources(one.drop_last(), other.drop_last());
    }
}

/// Nothing a build writes throws the pool away: sources that differ only in
/// that, at any depth, have one fingerprint, whatever else they hold.
pub proof fn law_a_build_moves_no_fingerprint(one: Seq<Tree>, other: Seq<Tree>, recipe: Recipe)
    requires
        one.len() == other.len(),
        forall|i: int| 0 <= i < one.len() ==> built_alike(#[trigger] one[i], other[i]),
    ensures
        fingerprint_of(one, recipe) == fingerprint_of(other, recipe),
{
    lemma_built_alike_sources(one, other);
}

/// Two digits a byte tell bytes apart.
pub proof fn law_hex_is_two_digits_a_byte(one: Seq<u8>, other: Seq<u8>)
    ensures
        hex_text(one).len() == 2 * one.len(),
        hex_text(one) == hex_text(other) ==> one == other,
    decreases one.len(),
{
    lemma_hex_words(one);
    lemma_hex_words(other);
    if hex_text(one) == hex_text(other) {
        if one.len() == 0 {
            assert(one =~= other);
        } else {
            let a = one.last();
            let b = other.last();
            let s = hex_text(one);
            assert(s.drop_last().drop_last() =~= hex_text(one.drop_last()));
            assert(s.drop_last().drop_last() =~= hex_text(other.drop_last()));
            law_hex_is_two_digits_a_byte(one.drop_last(), other.drop_last());
            assert(s.last() == digit((a % 16) as int) && s.last() == digit((b % 16) as int));
            assert(s[s.len() - 2] == digit((a / 16) as int) && s[s.len() - 2] == digit((b / 16) as int));
            lemma_digit_injective((a % 16) as int, (b % 16) as int);
            lemma_digit_injective((a / 16) as int, (b / 16) as int);
            assert(a == 16 * (a / 16) + a % 16);
            assert(b == 16 * (b / 16) + b % 16);
            assert(one =~= one.drop_last().push(a));
            assert(other =~= other.drop_last().push(b));
        }
    }
}

/// Whether an entry of a directory is called `target`.
pub open spec fn is_called_target(entry: Tree) -> bool {
    let target = seq!['t' as u8, 'a' as u8, 'r' as u8, 'g' as u8, 'e' as u8, 't' as u8];
    match entry {
        Tree::File(file) => file_name(file.path@) == Some(target),
        Tree::Directory { path, .. } => file_name(path@) == Some(target),
        Tree::Other => false,
    }
}

/// A directory holds what its entries hold, all of them but those called
/// `target`, in their order; a file holds itself; and sources hold what each
/// of them holds, whatever it is called.
pub proof fn law_nothing_but_target_is_passed_over(
    at: Tree,
    front: Seq<Tree>,
    entry: Tree,
    back: Seq<Tree>,
)
    ensures
        at matches Tree::File(file) ==> files_of(at) == seq![file],
        at matches Tree::Other ==> files_of(at).len() == 0,
        at matches Tree::Directory { entries, .. } ==> files_of(at) == files_in(entries@),
        files_in(Seq::<Tree>::empty()).len() == 0,
        files_in(front + seq![entry] + back) == files_in(front) + (if is_called_target(entry) {
            Seq::<SourceFile>::empty()
        } else {
            files_of(entry)
        }) + files_in(back),
        files_under(Seq::<Tree>::empty()).len() == 0,
        files_under(front + seq![entry] + back) == files_under(front) + files_of(entry) + files_under(back),
{
    lemma_files_in_concat(front + seq![entry], back);
    assert((front + seq![entry]).drop_last() =~= front);
    assert((front + seq![entry]).last() == entry);
    match entry {
        Tree::File(file) => {
            law_files_are_known_by_their_names(file.path@, Seq::<u8>::empty());
        },
        Tree::Directory { path, .. } => {
            law_files_are_known_by_their_names(path@, Seq::<u8>::empty());
        },
        Tree::Other => {},
    }
    assert(is_skipped(entry) == is_called_target(entry));
    assert(files_in(front) + Seq::<SourceFile>::empty() =~= files_in(front));
    lemma_files_under_concat(front + seq![entry], back);
}

/// Every file of a directory whose name is not `target` is among the files
/// that are found, whatever else it is called; and so is every file of a
/// directory in it that is not called that.
pub proof fn law_every_file_is_found(at: Tree, i: int, dir: Seq<u8>, name: Seq<u8>)
    requires
        at is Directory,
        0 <= i < at->entries@.len(),
        is_name(name),
        name != seq!['t' as u8, 'a' as u8, 'r' as u8, 'g' as u8, 'e' as u8, 't' as u8],
    ensures
        at->entries@[i] matches Tree::File(file) && file.path@ == dir + seq!['/' as u8] + name ==> files_of(
            at,
        ).contains(at->entries@[i]->File_0),
        at->entries@[i] matches Tree::Directory { path, .. } && path@ == dir + seq!['/' as u8] + name
            ==> forall|file: SourceFile| #[trigger]
            files_of(at->entries@[i]).contains(file) ==> files_of(at).contains(file),
{
    let all = at->entries@;
    let entry = all[i];
    let front = all.take(i);
    let back = all.skip(i + 1);
    assert(all =~= front + seq![entry] + back);
    law_nothing_but_target_is_passed_over(at, front, entry, back);
    law_a_path_ends_with_its_name(dir, name);
    if !is_called_target(entry) {
        let found = files_of(at);
        let own = files_of(entry);
        let n = files_in(front).len();
        assert(found == files_in(front) + own + files_in(back));
        assert forall|file: SourceFile| #[trigger] own.contains(file) implies found.contains(file) by {
            let k = choose|k: int| 0 <= k < own.len() && own[k] == file;
            assert(found[n + k] == file);
        }
        if entry is File {
            law_nothing_but_target_is_passed_over(entry, front, entry, back);
            assert(own[0] == entry->File_0);
            assert(own.contains(entry->File_0));
        }
    }
}

/// What is hashed is the word for the recipe, the command where there is one,
/// and of every file the path and all of what it holds, with a zero byte
/// behind each; and of several files that of each, one after the other.
pub proof fn law_everything_is_hashed(
    recipe: Recipe,
    front: Seq<SourceFile>,
    file: SourceFile,
    back: Seq<SourceFile>,
)
    ensures
        recipe matches Recipe::Sql(_) ==> hashed(recipe, Seq::<SourceFile>::empty()) == encode_utf8("sql"@)
            + seq![0u8],
        recipe matches Recipe::Command(command) ==> hashed(recipe, Seq::<SourceFile>::empty()) == encode_utf8(
            "command"@,
        ) + encode_utf8(command@) + seq![0u8],
        hashed(recipe, front + seq![file]) == hashed(recipe, front) + encode_utf8(utf8_lossy(file.path@))
            + seq![0u8] + file.content@ + seq![0u8],
        front.len() == 0 || hashed(recipe, front + back).take(hashed(recipe, front).len() as int) == hashed(
            recipe,
            front,
        ),
{
    let none = Seq::<SourceFile>::empty();
    assert(hashed(recipe, none) =~= recipe_bytes(recipe) + seq![0u8]);
    assert((front + seq![file]).drop_last() =~= front);
    assert(hashed(recipe, front + seq![file]) =~= hashed(recipe, front) + encode_utf8(utf8_lossy(file.path@))
        + seq![0u8] + file.content@ + seq![0u8]);
    lemma_framed_concat(front, back);
    assert(hashed(recipe, front + back) =~= hashed(recipe, front) + framed(back));
    assert(hashed(recipe, front + back).take(hashed(recipe, front).len() as int) =~= hashed(recipe, front));
}

/// Bytes are two digits each, the larger in front, one byte after the other.
pub proof fn law_a_byte_is_its_two_digits(front: Seq<u8>, b: u8)
    ensures
        hex_text(Seq::<u8>::empty()).len() == 0,
        hex_text(front.push(b)) == hex_text(front) + seq![
            "0123456789abcdef"@[b as int / 16],
            "0123456789abcdef"@[b as int % 16],
        ],
{
    reveal_strlit("0123456789abcdef");
    assert(front.push(b).drop_last() =~= front);
    assert(hex_text(front.push(b)) =~= hex_text(front) + seq![
        "0123456789abcdef"@[b as int / 16],
        "0123456789abcdef"@[b as int % 16],
    ]);
}

/// A fingerprint is the digest of everything that is hashed, of all the files
/// there are, in the one order in which no path comes behind one that it sorts
/// before and files in one place stay as they came.
pub proof fn law_a_fingerprint_is_of_all_the_files(
    sources: Seq<Tree>,
    recipe: Recipe,
    sorted: Seq<SourceFile>,
)
    requires
        sorted.to_multiset() == files_under(sources).to_multiset(),
        forall|i: int, j: int|
            0 <= i < j < sorted.len() ==> !path_less((#[trigger] sorted[j]).path@, (#[trigger] sorted[i]).path@),
        forall|place: Seq<Seq<u8>>| #[trigger] placed(sorted, place) == placed(files_under(sources), place),
    ensures
        fingerprint_of(sources, recipe) == hex_text(sha256(hashed(recipe, sorted))),
        in_order(files_under(sources)) == sorted,
{
    let files = files_under(sources);
    assert(sorts(sorted, files));
    law_sorting_sorts(files);
}

/// Files come out of sorting as they went in, all of them and no others, none
/// behind one that it sorts before.
pub proof fn law_no_file_sorts_before_one_in_front_of_it(files: Seq<SourceFile>)
    ensures
        in_order(files).to_multiset() == files.to_multiset(),
        forall|i: int, j: int|
            0 <= i < j < files.len() ==> !path_less(
                (#[trigger] in_order(files)[j]).path@,
                (#[trigger] in_order(files)[i]).path@,
            ),
{
    law_sorting_sorts(files);
}

/// The sql files of a tree are exactly the files in it whose names say so, each
/// as often as it is there, and none behind one that it sorts before.
pub proof fn law_sql_files_are_all_that_say_so(at: Tree)
    ensures
        forall|i: int|
            0 <= i < files_of(at).len() && is_sql((#[trigger] files_of(at)[i]).path@) ==> sql_paths(at).contains(
                files_of(at)[i].path@,
            ),
        forall|k: int|
            0 <= k < sql_paths(at).len() ==> is_sql(#[trigger] sql_paths(at)[k]) && exists|i: int|
                0 <= i < files_of(at).len() && (#[trigger] files_of(at)[i]).path@ == sql_paths(at)[k],
        sql_paths(at).len() == files_of(at).filter(|file: SourceFile| is_sql(file.path@)).len(),
        forall|j: int, k: int|
            0 <= j < k < sql_paths(at).len() ==> !path_less(
                #[trigger] sql_paths(at)[k],
                #[trigger] sql_paths(at)[j],
            ),
{
    broadcast use vstd::seq_lib::group_to_multiset_ensures;

    let wanted = |file: SourceFile| is_sql(file.path@);
    let files = files_of(at);
    let chosen = files.filter(wanted);
    let sorted = in_order(chosen);
    law_sorting_sorts(chosen);
    assert(sql_paths(at) == sorted.map_values(|file: SourceFile| file.path@));
    assert forall|i: int| 0 <= i < files.len() && is_sql((#[trigger] files[i]).path@) implies sql_paths(at).contains(
        files[i].path@,
    ) by {
        files.lemma_filter_contains(wanted, i);
        let m = choose|m: int| 0 <= m < chosen.len() && chosen[m] == files[i];
        let k = lemma_same_files(sorted, chosen, m);
        assert(sql_paths(at)[k] == files[i].path@);
    }
    assert forall|k: int| 0 <= k < sql_paths(at).len() implies is_sql(#[trigger] sql_paths(at)[k]) && exists|
        i: int,
    |
        0 <= i < files.len() && (#[trigger] files[i]).path@ == sql_paths(at)[k] by {
        let m = lemma_same_files(chosen, sorted, k);
        files.lemma_filter_pred(wanted, m);
        lemma_filter_count(files, wanted, chosen[m]);
        assert(chosen.contains(chosen[m]));
        assert(chosen.to_multiset().count(chosen[m]) > 0);
        assert(files.contains(chosen[m]));
        let i = choose|i: int| 0 <= i < files.len() && files[i] == chosen[m];
        assert(files[i].path@ == sql_paths(at)[k]);
    }
    assert forall|j: int, k: int| 0 <= j < k < sql_paths(at).len() implies !path_less(
        #[trigger] sql_paths(at)[k],
        #[trigger] sql_paths(at)[j],
    ) by {
        assert(!file_less(sorted[k], sorted[j]));
    }
}

} // verus!
