//! Paths as the bytes they are made of, and the order they sort in.

use vstd::prelude::*;

use crate::text::{
    law_joining_puts_the_mark_between, lemma_join_split, lemma_split_free, lemma_split_join,
    lemma_split_nonempty, lemma_split_whole, split,
};

verus! {

/// One part of a path, as a run of bytes that sorts as the part does: the
/// root before the current directory, that before the parent, and all of
/// them before a name. A doubled slash makes no part, and neither does a
/// dot, unless the path begins with it.
pub open spec fn part_of(piece: Seq<u8>, first: bool) -> Seq<Seq<u8>> {
    if piece.len() == 0 {
        Seq::<Seq<u8>>::empty()
    } else if piece == seq![46u8] {
        if first {
            seq![seq![2u8]]
        } else {
            Seq::<Seq<u8>>::empty()
        }
    } else if piece == seq![46u8, 46u8] {
        seq![seq![3u8]]
    } else {
        seq![seq![4u8] + piece]
    }
}

/// The parts that the first `n` pieces between slashes make.
pub open spec fn parts_in(pieces: Seq<Seq<u8>>, n: int) -> Seq<Seq<u8>>
    decreases n,
{
    if n <= 0 {
        Seq::<Seq<u8>>::empty()
    } else {
        parts_in(pieces, n - 1) + part_of(pieces[n - 1], n == 1)
    }
}

/// The parts of a path.
pub open spec fn parts(path: Seq<u8>) -> Seq<Seq<u8>> {
    let pieces = split(path, 47u8);
    let root = if path.len() > 0 && path[0] == 47u8 {
        seq![seq![1u8]]
    } else {
        Seq::<Seq<u8>>::empty()
    };
    root + parts_in(pieces, pieces.len() as int)
}

/// Whether one run of bytes sorts before another.
pub open spec fn bytes_less(a: Seq<u8>, b: Seq<u8>) -> bool
    decreases a.len(),
{
    if b.len() == 0 {
        false
    } else if a.len() == 0 {
        true
    } else if a[0] != b[0] {
        a[0] < b[0]
    } else {
        bytes_less(a.skip(1), b.skip(1))
    }
}

/// Whether one run of parts sorts before another.
pub open spec fn parts_less(a: Seq<Seq<u8>>, b: Seq<Seq<u8>>) -> bool
    decreases a.len(),
{
    if b.len() == 0 {
        false
    } else if a.len() == 0 {
        true
    } else if a[0] != b[0] {
        bytes_less(a[0], b[0])
    } else {
        parts_less(a.skip(1), b.skip(1))
    }
}

/// Whether one path sorts before another: part by part, and each part byte
/// by byte.
pub open spec fn path_less(a: Seq<u8>, b: Seq<u8>) -> bool {
    parts_less(parts(a), parts(b))
}

/// The name at the end of a path, if it ends with one.
pub open spec fn file_name(path: Seq<u8>) -> Option<Seq<u8>> {
    let all = parts(path);
    if all.len() > 0 && all.last()[0] == 4u8 {
        Some(all.last().skip(1))
    } else {
        None
    }
}

/// Whether a path's name ends in `.sql`, with something in front of it.
pub open spec fn is_sql(path: Seq<u8>) -> bool {
    match file_name(path) {
        Some(name) => name.len() > 4 && name.skip(name.len() - 4) == seq![46u8, 115u8, 113u8, 108u8],
        None => false,
    }
}

/// Whether a path's name is `target`: what a build wrote.
pub open spec fn is_target(path: Seq<u8>) -> bool {
    file_name(path) == Some(seq![116u8, 97u8, 114u8, 103u8, 101u8, 116u8])
}

pub proof fn lemma_bytes_total(a: Seq<u8>, b: Seq<u8>)
    ensures
        a != b ==> bytes_less(a, b) || bytes_less(b, a),
        !(bytes_less(a, b) && bytes_less(b, a)),
        a == b ==> !bytes_less(a, b),
    decreases a.len(),
{
    if a.len() > 0 && b.len() > 0 && a[0] == b[0] {
        lemma_bytes_total(a.skip(1), b.skip(1));
        if a.skip(1) == b.skip(1) {
            assert(a =~= seq![a[0]] + a.skip(1));
            assert(b =~= seq![b[0]] + b.skip(1));
        }
    } else if a.len() == 0 && b.len() == 0 {
        assert(a =~= b);
    }
}

pub proof fn lemma_bytes_transitive(a: Seq<u8>, b: Seq<u8>, c: Seq<u8>)
    requires
        bytes_less(a, b),
        bytes_less(b, c),
    ensures
        bytes_less(a, c),
    decreases a.len(),
{
    if a.len() > 0 && a[0] == b[0] && b[0] == c[0] {
        lemma_bytes_transitive(a.skip(1), b.skip(1), c.skip(1));
    }
}

pub proof fn lemma_parts_total(a: Seq<Seq<u8>>, b: Seq<Seq<u8>>)
    ensures
        a != b ==> parts_less(a, b) || parts_less(b, a),
        !(parts_less(a, b) && parts_less(b, a)),
        a == b ==> !parts_less(a, b),
    decreases a.len(),
{
    if a.len() > 0 && b.len() > 0 {
        lemma_bytes_total(a[0], b[0]);
        if a[0] == b[0] {
            lemma_parts_total(a.skip(1), b.skip(1));
            if a.skip(1) == b.skip(1) {
                assert(a =~= seq![a[0]] + a.skip(1));
                assert(b =~= seq![b[0]] + b.skip(1));
            }
        }
    } else if a.len() == 0 && b.len() == 0 {
        assert(a =~= b);
    }
}

pub proof fn lemma_parts_transitive(a: Seq<Seq<u8>>, b: Seq<Seq<u8>>, c: Seq<Seq<u8>>)
    requires
        parts_less(a, b),
        parts_less(b, c),
    ensures
        parts_less(a, c),
    decreases a.len(),
{
    if a.len() > 0 {
        if a[0] == b[0] && b[0] == c[0] {
            lemma_parts_transitive(a.skip(1), b.skip(1), c.skip(1));
        } else if a[0] != b[0] && b[0] != c[0] {
            lemma_bytes_transitive(a[0], b[0], c[0]);
            lemma_bytes_total(a[0], c[0]);
        }
    }
}

/// What is not after a path that is not after a third is not after the third.
pub proof fn lemma_not_after(a: Seq<u8>, b: Seq<u8>, c: Seq<u8>)
    requires
        !path_less(b, a),
        !path_less(c, b),
    ensures
        !path_less(c, a),
{
    let x = parts(a);
    let y = parts(b);
    let z = parts(c);
    lemma_parts_total(x, y);
    lemma_parts_total(y, z);
    lemma_parts_total(x, z);
    if parts_less(z, x) {
        if x == y {
            assert(false);
        } else if y == z {
            assert(false);
        } else {
            lemma_parts_transitive(x, y, z);
        }
    }
}

/// What each run of bytes holds.
pub open spec fn runs(all: Seq<Vec<u8>>) -> Seq<Seq<u8>> {
    all.map_values(|run: Vec<u8>| run@)
}

/// Whether two runs of bytes are the same.
fn same_bytes(a: &[u8], b: &[u8]) -> (r: bool)
    ensures
        r == (a@ == b@),
{
    if a.len() != b.len() {
        return false;
    }
    for i in 0..a.len()
        invariant
            a@.len() == b@.len(),
            forall|j: int| 0 <= j < i ==> a@[j] == b@[j],
    {
        if a[i] != b[i] {
            return false;
        }
    }
    proof {
        assert(a@ =~= b@);
    }
    true
}

/// Whether one run of bytes sorts before another.
fn bytes_before(a: &[u8], b: &[u8]) -> (r: bool)
    ensures
        r == bytes_less(a@, b@),
{
    let mut i: usize = 0;
    proof {
        assert(a@.skip(0) =~= a@);
        assert(b@.skip(0) =~= b@);
    }
    while i < a.len() && i < b.len() && a[i] == b[i]
        invariant
            i <= a@.len(),
            i <= b@.len(),
            bytes_less(a@, b@) == bytes_less(a@.skip(i as int), b@.skip(i as int)),
        decreases a@.len() - i,
    {
        proof {
            assert(a@.skip(i as int).skip(1) =~= a@.skip(i + 1));
            assert(b@.skip(i as int).skip(1) =~= b@.skip(i + 1));
        }
        i = i + 1;
    }
    if i == b.len() {
        false
    } else if i == a.len() {
        true
    } else {
        a[i] < b[i]
    }
}

/// The parts of a path.
fn parts_of(path: &[u8]) -> (r: Vec<Vec<u8>>)
    ensures
        runs(r@) == parts(path@),
{
    let mut r: Vec<Vec<u8>> = Vec::new();
    if path.len() > 0 && path[0] == 47 {
        let root: Vec<u8> = vec![1u8];
        r.push(root);
    }
    let ghost root = runs(r@);
    let ghost pieces = split(path@, 47u8);
    proof {
        crate::text::lemma_split_nonempty(path@, 47u8);
        if path@.len() > 0 && path@[0] == 47u8 {
            assert(r@[0]@ =~= seq![1u8]);
            assert(root =~= seq![seq![1u8]]);
        } else {
            assert(root =~= Seq::<Seq<u8>>::empty());
        }
        assert(path@.take(0) =~= Seq::<u8>::empty());
        assert(root + parts_in(split(path@.take(0), 47u8), 0) =~= root);
    }
    let mut piece: Vec<u8> = Vec::new();
    let mut first: bool = true;
    for i in 0..path.len()
        invariant
            split(path@.take(i as int), 47u8).len() >= 1,
            piece@ == split(path@.take(i as int), 47u8).last(),
            first == (split(path@.take(i as int), 47u8).len() == 1),
            runs(r@) == root + parts_in(
                split(path@.take(i as int), 47u8),
                split(path@.take(i as int), 47u8).len() - 1,
            ),
    {
        let ghost old_pieces = split(path@.take(i as int), 47u8);
        let ghost new_pieces = split(path@.take(i + 1), 47u8);
        proof {
            assert(path@.take(i + 1).drop_last() =~= path@.take(i as int));
        }
        if path[i] == 47 {
            proof {
                lemma_parts_in_same(old_pieces, new_pieces, old_pieces.len() as int);
            }
            push_part(&mut r, piece, first);
            piece = Vec::new();
            first = false;
        } else {
            proof {
                lemma_parts_in_same(old_pieces, new_pieces, old_pieces.len() - 1);
            }
            piece.push(path[i]);
        }
    }
    proof {
        assert(path@.take(path@.len() as int) =~= path@);
    }
    push_part(&mut r, piece, first);
    r
}

proof fn lemma_parts_in_same(a: Seq<Seq<u8>>, b: Seq<Seq<u8>>, n: int)
    requires
        0 <= n <= a.len(),
        n <= b.len(),
        forall|i: int| 0 <= i < n ==> a[i] == b[i],
    ensures
        parts_in(a, n) == parts_in(b, n),
    decreases n,
{
    if n > 0 {
        lemma_parts_in_same(a, b, n - 1);
    }
}

/// The part that a piece makes, put at the end of `out`.
fn push_part(out: &mut Vec<Vec<u8>>, piece: Vec<u8>, first: bool)
    ensures
        runs(final(out)@) == runs(old(out)@) + part_of(piece@, first),
{
    let ghost before = runs(out@);
    if piece.len() == 0 {
        proof {
            assert(before + part_of(piece@, first) =~= before);
        }
        return;
    }
    let mut part: Vec<u8> = Vec::new();
    if piece.len() == 1 && piece[0] == 46 {
        proof {
            assert(piece@ =~= seq![46u8]);
        }
        if !first {
            proof {
                assert(before + part_of(piece@, first) =~= before);
            }
            return;
        }
        part.push(2);
        proof {
            assert(part@ =~= seq![2u8]);
        }
    } else if piece.len() == 2 && piece[0] == 46 && piece[1] == 46 {
        proof {
            assert(piece@ =~= seq![46u8, 46u8]);
        }
        part.push(3);
        proof {
            assert(part@ =~= seq![3u8]);
        }
    } else {
        part.push(4);
        for i in 0..piece.len()
            invariant
                part@ == seq![4u8] + piece@.take(i as int),
        {
            proof {
                assert((seq![4u8] + piece@.take(i as int)).push(piece@[i as int]) =~= seq![4u8] + piece@.take(i + 1));
            }
            part.push(piece[i]);
        }
        proof {
            assert(piece@.take(piece@.len() as int) =~= piece@);
        }
    }
    proof {
        assert(part_of(piece@, first) =~= seq![part@]);
        assert(runs(out@.push(part)) =~= before.push(part@));
        assert(before.push(part@) =~= before + seq![part@]);
    }
    out.push(part);
}

/// Whether one path sorts before another.
pub fn path_before(a: &[u8], b: &[u8]) -> (r: bool)
    ensures
        r == path_less(a@, b@),
{
    let x = parts_of(a);
    let y = parts_of(b);
    let ghost p = runs(x@);
    let ghost q = runs(y@);
    let mut i: usize = 0;
    proof {
        assert(p.skip(0) =~= p);
        assert(q.skip(0) =~= q);
    }
    while i < x.len() && i < y.len() && same_bytes(x[i].as_slice(), y[i].as_slice())
        invariant
            p == runs(x@),
            q == runs(y@),
            i <= x@.len(),
            i <= y@.len(),
            parts_less(p, q) == parts_less(p.skip(i as int), q.skip(i as int)),
        decreases x@.len() - i,
    {
        proof {
            assert(p.skip(i as int).skip(1) =~= p.skip(i + 1));
            assert(q.skip(i as int).skip(1) =~= q.skip(i + 1));
        }
        i = i + 1;
    }
    if i == y.len() {
        false
    } else if i == x.len() {
        true
    } else {
        bytes_before(x[i].as_slice(), y[i].as_slice())
    }
}

/// The name at the end of a path, if it ends with one.
fn name_of(path: &[u8]) -> (r: Option<Vec<u8>>)
    ensures
        (match r {
            Some(name) => Some(name@),
            None => None,
        }) == file_name(path@),
{
    let all = parts_of(path);
    proof {
        assert(runs(all@).len() == all@.len());
        lemma_parts_nonempty(path@);
    }
    if all.len() == 0 {
        return None;
    }
    let last = &all[all.len() - 1];
    proof {
        assert(last@ == parts(path@).last());
    }
    if last[0] != 4 {
        return None;
    }
    let name = vstd::slice::slice_to_vec(vstd::slice::slice_subrange(last.as_slice(), 1, last.len()));
    proof {
        assert(name@ =~= last@.skip(1));
    }
    Some(name)
}

proof fn lemma_parts_nonempty(path: Seq<u8>)
    ensures
        forall|i: int| 0 <= i < parts(path).len() ==> (#[trigger] parts(path)[i]).len() > 0,
{
    let pieces = split(path, 47u8);
    lemma_parts_in_nonempty(pieces, pieces.len() as int);
}

proof fn lemma_parts_in_nonempty(pieces: Seq<Seq<u8>>, n: int)
    ensures
        forall|i: int| 0 <= i < parts_in(pieces, n).len() ==> (#[trigger] parts_in(pieces, n)[i]).len() > 0,
    decreases n,
{
    if n > 0 {
        lemma_parts_in_nonempty(pieces, n - 1);
        let head = parts_in(pieces, n - 1);
        let more = part_of(pieces[n - 1], n == 1);
        assert forall|i: int| 0 <= i < (head + more).len() implies (#[trigger] (head + more)[i]).len() > 0 by {
            if i >= head.len() {
                assert((head + more)[i] == more[0]);
            }
        }
    }
}

/// Whether a path's name ends in `.sql`, with something in front of it.
pub fn ends_in_sql(path: &[u8]) -> (r: bool)
    ensures
        r == is_sql(path@),
{
    match name_of(path) {
        Some(name) => {
            let n = name.len();
            if n > 4 && name[n - 4] == 46 && name[n - 3] == 115 && name[n - 2] == 113 && name[n - 1] == 108 {
                proof {
                    assert(name@.skip(n - 4) =~= seq![46u8, 115u8, 113u8, 108u8]);
                }
                true
            } else {
                proof {
                    if n > 4 && name@.skip(n - 4) == seq![46u8, 115u8, 113u8, 108u8] {
                        let end = name@.skip(n - 4);
                        assert(end[0] == name@[n - 4]);
                        assert(end[1] == name@[n - 3]);
                        assert(end[2] == name@[n - 2]);
                        assert(end[3] == name@[n - 1]);
                    }
                }
                false
            }
        },
        None => false,
    }
}

/// Whether a path's name is `target`: what a build wrote.
pub fn is_build_output(path: &[u8]) -> (r: bool)
    ensures
        r == is_target(path@),
{
    match name_of(path) {
        Some(name) => {
            let target: Vec<u8> = vec![116u8, 97u8, 114u8, 103u8, 101u8, 116u8];
            proof {
                assert(target@ =~= seq![116u8, 97u8, 114u8, 103u8, 101u8, 116u8]);
            }
            same_bytes(name.as_slice(), target.as_slice())
        },
        None => false,
    }
}

/// The parts that pieces make that are not the first of a path.
spec fn later_parts(pieces: Seq<Seq<u8>>) -> Seq<Seq<u8>>
    decreases pieces.len(),
{
    if pieces.len() == 0 {
        Seq::<Seq<u8>>::empty()
    } else {
        later_parts(pieces.drop_last()) + part_of(pieces.last(), false)
    }
}

/// The parts of a directory, with something behind it: nothing at all in front
/// of a slash is the root.
spec fn leading_parts(dir: Seq<u8>) -> Seq<Seq<u8>> {
    if dir.len() == 0 {
        seq![seq![1u8]]
    } else {
        parts(dir)
    }
}

proof fn lemma_parts_in_front(a: Seq<Seq<u8>>, b: Seq<Seq<u8>>, n: int)
    requires
        0 <= n <= a.len(),
    ensures
        parts_in(a + b, n) == parts_in(a, n),
    decreases n,
{
    if n > 0 {
        lemma_parts_in_front(a, b, n - 1);
        assert((a + b)[n - 1] == a[n - 1]);
    }
}

proof fn lemma_parts_behind(a: Seq<Seq<u8>>, b: Seq<Seq<u8>>)
    requires
        a.len() > 0,
    ensures
        parts_in(a + b, (a + b).len() as int) == parts_in(a, a.len() as int) + later_parts(b),
    decreases b.len(),
{
    if b.len() == 0 {
        assert(a + b =~= a);
        assert(parts_in(a, a.len() as int) + later_parts(b) =~= parts_in(a, a.len() as int));
    } else {
        let short = b.drop_last();
        let n = (a + b).len() as int;
        lemma_parts_behind(a, short);
        assert(a + b =~= (a + short).push(b.last()));
        lemma_parts_in_front(a + short, seq![b.last()], n - 1);
        assert((a + short) + seq![b.last()] =~= a + b);
        assert((a + b)[n - 1] == b.last());
        assert(parts_in(a + b, n) =~= parts_in(a, a.len() as int) + later_parts(b));
    }
}

proof fn lemma_split_around(a: Seq<u8>, b: Seq<u8>)
    ensures
        split(a + seq![47u8] + b, 47u8) == split(a, 47u8) + split(b, 47u8),
{
    let x = split(a, 47u8);
    let y = split(b, 47u8);
    lemma_split_nonempty(a, 47u8);
    lemma_split_nonempty(b, 47u8);
    lemma_split_free(a, 47u8);
    lemma_split_free(b, 47u8);
    lemma_join_split(a, 47u8);
    lemma_join_split(b, 47u8);
    law_joining_puts_the_mark_between(x, y, a, seq![47u8]);
    let all = x + y;
    assert forall|i: int| 0 <= i < all.len() implies !(#[trigger] all[i]).contains(47u8) by {
        if i < x.len() {
            assert(all[i] == x[i]);
        } else {
            assert(all[i] == y[i - x.len()]);
        }
    }
    lemma_split_join(all, 47u8);
}

proof fn lemma_parts_around(dir: Seq<u8>, more: Seq<u8>)
    ensures
        parts(dir + seq![47u8] + more) == leading_parts(dir) + later_parts(split(more, 47u8)),
{
    let path = dir + seq![47u8] + more;
    lemma_split_around(dir, more);
    lemma_split_nonempty(dir, 47u8);
    lemma_parts_behind(split(dir, 47u8), split(more, 47u8));
    if dir.len() == 0 {
        assert(split(dir, 47u8) =~= seq![Seq::<u8>::empty()]);
        reveal_with_fuel(parts_in, 2);
        assert(parts_in(split(dir, 47u8), 1) =~= Seq::<Seq<u8>>::empty());
        assert(path[0] == 47u8);
        assert(parts(path) =~= leading_parts(dir) + later_parts(split(more, 47u8)));
    } else {
        assert(path[0] == dir[0]);
        assert(parts(path) =~= leading_parts(dir) + later_parts(split(more, 47u8)));
    }
}

proof fn lemma_later_one(piece: Seq<u8>)
    requires
        !piece.contains(47u8),
    ensures
        later_parts(split(piece, 47u8)) == part_of(piece, false),
{
    lemma_split_whole(piece, 47u8);
    reveal_with_fuel(later_parts, 2);
    assert(seq![piece].drop_last() =~= Seq::<Seq<u8>>::empty());
    assert(later_parts(seq![piece]) =~= part_of(piece, false));
}

/// Whether bytes can be the name of a file: something, without a slash, and
/// neither of the two names that every directory has for itself and its
/// parent.
pub open spec fn is_name(name: Seq<u8>) -> bool {
    name.len() > 0 && !name.contains('/' as u8) && name != seq!['.' as u8] && name != seq!['.' as u8, '.' as u8]
}

/// A path ends with the name behind its last slash, or is that name. A slash
/// or a dot behind that changes nothing; two dots, a dot alone, and nothing at
/// all are no name.
pub proof fn law_a_path_ends_with_its_name(dir: Seq<u8>, name: Seq<u8>)
    ensures
        is_name(name) ==> file_name(name) == Some(name),
        is_name(name) ==> file_name(dir + seq!['/' as u8] + name) == Some(name),
        file_name(dir + seq!['/' as u8]) == file_name(dir),
        file_name(dir + seq!['/' as u8] + seq!['.' as u8]) == file_name(dir),
        file_name(dir + seq!['/' as u8] + seq!['.' as u8, '.' as u8]) is None,
        file_name(Seq::<u8>::empty()) is None,
        file_name(seq!['.' as u8]) is None,
        file_name(seq!['.' as u8, '.' as u8]) is None,
{
    assert('/' as u8 == 47u8 && '.' as u8 == 46u8);
    let none = Seq::<u8>::empty();
    let dot = seq![46u8];
    let dots = seq![46u8, 46u8];
    reveal_with_fuel(parts_in, 2);
    lemma_split_whole(none, 47u8);
    lemma_split_whole(dot, 47u8);
    lemma_split_whole(dots, 47u8);
    assert(dot != dots) by {
        assert(dot.len() != dots.len());
    }
    assert(parts(none) =~= Seq::<Seq<u8>>::empty());
    assert(parts(dot) =~= seq![seq![2u8]]);
    assert(parts(dots) =~= seq![seq![3u8]]);
    if is_name(name) {
        lemma_split_whole(name, 47u8);
        assert(name[0] != 47u8) by {
            assert(name.contains(name[0]));
        }
        assert(parts(name) =~= seq![seq![4u8] + name]);
        assert((seq![4u8] + name).skip(1) =~= name);
        lemma_parts_around(dir, name);
        lemma_later_one(name);
        assert(parts(dir + seq![47u8] + name).last() == seq![4u8] + name);
    }
    lemma_parts_around(dir, none);
    lemma_later_one(none);
    assert(dir + seq![47u8] + none =~= dir + seq![47u8]);
    assert(leading_parts(dir) + part_of(none, false) =~= leading_parts(dir));
    lemma_parts_around(dir, dot);
    lemma_later_one(dot);
    assert(leading_parts(dir) + part_of(dot, false) =~= leading_parts(dir));
    if dir.len() == 0 {
        assert(dir =~= none);
        assert(leading_parts(dir).last() == seq![1u8]);
    }
    lemma_parts_around(dir, dots);
    lemma_later_one(dots);
    assert(parts(dir + seq![47u8] + dots).last() == seq![3u8]);
}

/// A file is sql exactly where its name ends in `.sql` with something in front
/// of that, and what a build wrote exactly where its name is `target`.
pub proof fn law_files_are_known_by_their_names(path: Seq<u8>, stem: Seq<u8>)
    ensures
        stem.len() > 0 && file_name(path) == Some(stem + seq!['.' as u8, 's' as u8, 'q' as u8, 'l' as u8])
            ==> is_sql(path),
        is_sql(path) ==> file_name(path) is Some && ({
            let name = file_name(path)->0;
            let n = name.len() as int;
            n > 4 && name[n - 4] == '.' as u8 && name[n - 3] == 's' as u8 && name[n - 2] == 'q' as u8 && name[n
                - 1] == 'l' as u8
        }),
        is_target(path) <==> file_name(path) == Some(
            seq!['t' as u8, 'a' as u8, 'r' as u8, 'g' as u8, 'e' as u8, 't' as u8],
        ),
{
    let end = seq!['.' as u8, 's' as u8, 'q' as u8, 'l' as u8];
    let whole = stem + end;
    assert(whole.skip(whole.len() - 4) =~= end);
    if is_sql(path) {
        let name = file_name(path)->0;
        let last = name.skip(name.len() - 4);
        assert(last[0] == name[name.len() - 4]);
        assert(last[1] == name[name.len() - 3]);
        assert(last[2] == name[name.len() - 2]);
        assert(last[3] == name[name.len() - 1]);
    }
}

/// Bytes sort by the first that differs, and a run in front of what begins
/// with it.
pub proof fn law_bytes_sort_by_the_first_that_differs(
    same: Seq<u8>,
    a: u8,
    b: u8,
    one: Seq<u8>,
    other: Seq<u8>,
)
    ensures
        a != b ==> (bytes_less(same + seq![a] + one, same + seq![b] + other) <==> a < b),
        one.len() > 0 ==> bytes_less(same, same + one),
        !bytes_less(same + one, same),
    decreases same.len(),
{
    let x = same + seq![a] + one;
    let y = same + seq![b] + other;
    if same.len() > 0 {
        law_bytes_sort_by_the_first_that_differs(same.skip(1), a, b, one, other);
        assert(x.skip(1) =~= same.skip(1) + seq![a] + one);
        assert(y.skip(1) =~= same.skip(1) + seq![b] + other);
        assert((same + one).skip(1) =~= same.skip(1) + one);
    }
}

proof fn lemma_parts_sort(same: Seq<Seq<u8>>, a: Seq<u8>, b: Seq<u8>, one: Seq<Seq<u8>>, other: Seq<Seq<u8>>)
    ensures
        a != b ==> parts_less(same + seq![a] + one, same + seq![b] + other) == bytes_less(a, b),
        one.len() > 0 ==> parts_less(same, same + one),
    decreases same.len(),
{
    let x = same + seq![a] + one;
    let y = same + seq![b] + other;
    if same.len() == 0 {
        assert(x[0] == a && y[0] == b);
    } else {
        lemma_parts_sort(same.skip(1), a, b, one, other);
        assert(x[0] == y[0]);
        assert(x.skip(1) =~= same.skip(1) + seq![a] + one);
        assert(y.skip(1) =~= same.skip(1) + seq![b] + other);
        assert((same + one).skip(1) =~= same.skip(1) + one);
        assert((same + one)[0] == same[0]);
    }
}

/// What is behind a part of a path: nothing, or a slash and more.
pub open spec fn is_tail(tail: Seq<u8>) -> bool {
    tail.len() == 0 || tail[0] == '/' as u8
}

proof fn lemma_part_and_tail(piece: Seq<u8>, tail: Seq<u8>) -> (more: Seq<Seq<u8>>)
    requires
        !piece.contains(47u8),
        piece.len() > 0,
        is_tail(tail),
    ensures
        later_parts(split(piece + tail, 47u8)) == part_of(piece, false) + more,
        parts(piece + tail) == part_of(piece, true) + more,
{
    assert('/' as u8 == 47u8);
    lemma_later_one(piece);
    lemma_split_whole(piece, 47u8);
    reveal_with_fuel(parts_in, 2);
    assert(piece[0] != 47u8) by {
        assert(piece.contains(piece[0]));
    }
    let whole = piece + tail;
    assert(whole[0] == piece[0]);
    let one = seq![piece];
    if tail.len() == 0 {
        assert(whole =~= piece);
        let more = Seq::<Seq<u8>>::empty();
        assert(part_of(piece, false) + more =~= part_of(piece, false));
        assert(parts(piece) =~= part_of(piece, true) + more);
        more
    } else {
        let rest = tail.skip(1);
        assert(whole =~= piece + seq![47u8] + rest);
        lemma_split_around(piece, rest);
        let more = later_parts(split(rest, 47u8));
        lemma_parts_behind(one, split(rest, 47u8));
        assert(parts_in(one, 1) =~= part_of(piece, true));
        assert(parts(whole) =~= part_of(piece, true) + more);
        lemma_later_concat(one, split(rest, 47u8));
        reveal_with_fuel(later_parts, 2);
        assert(one.drop_last() =~= Seq::<Seq<u8>>::empty());
        assert(later_parts(one) =~= part_of(piece, false));
        more
    }
}

proof fn lemma_later_concat(a: Seq<Seq<u8>>, b: Seq<Seq<u8>>)
    ensures
        later_parts(a + b) == later_parts(a) + later_parts(b),
    decreases b.len(),
{
    if b.len() == 0 {
        assert(a + b =~= a);
        assert(later_parts(a) + later_parts(b) =~= later_parts(a));
    } else {
        lemma_later_concat(a, b.drop_last());
        assert((a + b).drop_last() =~= a + b.drop_last());
        assert(later_parts(a + b) =~= later_parts(a) + later_parts(b));
    }
}

proof fn lemma_name_part(name: Seq<u8>)
    requires
        is_name(name),
    ensures
        part_of(name, true) == seq![seq![4u8] + name],
        part_of(name, false) == seq![seq![4u8] + name],
        !name.contains(47u8),
{
    assert('/' as u8 == 47u8 && '.' as u8 == 46u8);
}

/// Paths sort by the first name in which they differ, byte by byte, whatever
/// is behind it; and a directory in front of what is in it.
pub proof fn law_paths_sort_by_the_first_name_that_differs(
    dir: Seq<u8>,
    x: Seq<u8>,
    u: Seq<u8>,
    y: Seq<u8>,
    v: Seq<u8>,
)
    requires
        is_name(x),
        is_name(y),
        x != y,
        is_tail(u),
        is_tail(v),
    ensures
        path_less(dir + seq!['/' as u8] + (x + u), dir + seq!['/' as u8] + (y + v)) <==> bytes_less(x, y),
        path_less(x + u, y + v) <==> bytes_less(x, y),
        path_less(dir, dir + seq!['/' as u8] + (x + u)),
{
    assert('/' as u8 == 47u8);
    lemma_name_part(x);
    lemma_name_part(y);
    let a = lemma_part_and_tail(x, u);
    let b = lemma_part_and_tail(y, v);
    let s = seq![4u8] + x;
    let t = seq![4u8] + y;
    assert(s.skip(1) =~= x && t.skip(1) =~= y);
    assert(s != t);
    assert(bytes_less(s, t) == bytes_less(x, y));
    lemma_parts_around(dir, x + u);
    lemma_parts_around(dir, y + v);
    let front = leading_parts(dir);
    lemma_parts_sort(front, s, t, a, b);
    assert(front + (seq![s] + a) =~= front + seq![s] + a);
    assert(front + (seq![t] + b) =~= front + seq![t] + b);
    let none = Seq::<Seq<u8>>::empty();
    lemma_parts_sort(none, s, t, a, b);
    assert(none + seq![s] + a =~= seq![s] + a);
    assert(none + seq![t] + b =~= seq![t] + b);
    if dir.len() == 0 {
        assert(split(dir, 47u8) =~= seq![Seq::<u8>::empty()]);
        reveal_with_fuel(parts_in, 2);
        assert(parts(dir) =~= none);
        assert(parts(dir + seq![47u8] + (x + u)).len() > 0);
    } else {
        lemma_parts_sort(parts(dir), s, t, seq![s] + a, b);
    }
}

/// What begins at the root sorts in front of everything else, then what begins
/// here, then what begins with the parent, then names.
pub proof fn law_paths_sort_by_where_they_begin(u: Seq<u8>, v: Seq<u8>, w: Seq<u8>, x: Seq<u8>, t: Seq<u8>)
    requires
        is_tail(v),
        is_tail(w),
        is_name(x),
        is_tail(t),
    ensures
        path_less(seq!['/' as u8] + u, seq!['.' as u8] + v),
        path_less(seq!['/' as u8] + u, seq!['.' as u8, '.' as u8] + w),
        path_less(seq!['/' as u8] + u, x + t),
        path_less(seq!['.' as u8] + v, seq!['.' as u8, '.' as u8] + w),
        path_less(seq!['.' as u8] + v, x + t),
        path_less(seq!['.' as u8, '.' as u8] + w, x + t),
{
    assert('/' as u8 == 47u8 && '.' as u8 == 46u8);
    let none = Seq::<u8>::empty();
    lemma_parts_around(none, u);
    assert(none + seq![47u8] + u =~= seq![47u8] + u);
    let dot = seq![46u8];
    let dots = seq![46u8, 46u8];
    assert(dot.len() != dots.len());
    let b = lemma_part_and_tail(dot, v);
    let c = lemma_part_and_tail(dots, w);
    lemma_name_part(x);
    let d = lemma_part_and_tail(x, t);
    let root = parts(seq![47u8] + u);
    let here = parts(dot + v);
    let up = parts(dots + w);
    let named = parts(x + t);
    assert(root.len() > 0 && root[0] == seq![1u8]);
    assert(here.len() > 0 && here[0] == seq![2u8]);
    assert(up.len() > 0 && up[0] == seq![3u8]);
    assert(named.len() > 0 && named[0] == seq![4u8] + x);
    assert(root[0][0] == 1u8 && here[0][0] == 2u8 && up[0][0] == 3u8 && named[0][0] == 4u8);
}

} // verus!
