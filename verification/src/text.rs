//! Text as sequences of characters: taking it apart and putting it together.

use vstd::prelude::*;

verus! {

/// `String::push` puts one character at the end of the text.
pub assume_specification[ String::push ](text: &mut String, c: char)
    ensures
        final(text)@ == old(text)@.push(c),
;

/// The characters of a text, one by one.
pub fn chars_of(text: &str) -> (r: Vec<char>)
    ensures
        r@ == text@,
{
    let mut r: Vec<char> = Vec::new();
    for c in it: text.chars()
        invariant
            it.seq() == text@,
            r@ == text@.take(it.index() as int),
    {
        proof {
            assert(text@.take(it.index() as int).push(text@[it.index() as int]) =~= text@.take(it.index() + 1));
        }
        r.push(c);
    }
    proof {
        assert(text@.take(text@.len() as int) =~= text@);
    }
    r
}

/// The characters put back together.
pub fn string_of(chars: &[char]) -> (r: String)
    ensures
        r@ == chars@,
{
    let mut r = String::new();
    for i in 0..chars.len()
        invariant
            r@ == chars@.take(i as int),
    {
        proof {
            assert(chars@.take(i as int).push(chars@[i as int]) =~= chars@.take(i + 1));
        }
        r.push(chars[i]);
    }
    proof {
        assert(chars@.take(chars@.len() as int) =~= chars@);
    }
    r
}

/// Whether two texts are the same.
pub fn same(a: &str, b: &str) -> (r: bool)
    ensures
        r == (a@ == b@),
{
    a.to_owned() == b.to_owned()
}

/// A sequence cut at every `sep`. There is always at least one piece.
pub open spec fn split<T>(s: Seq<T>, sep: T) -> Seq<Seq<T>>
    decreases s.len(),
{
    if s.len() == 0 {
        seq![Seq::<T>::empty()]
    } else {
        let before = split(s.drop_last(), sep);
        if s.last() == sep {
            before.push(Seq::<T>::empty())
        } else {
            before.drop_last().push(before.last().push(s.last()))
        }
    }
}

/// The pieces in order, with `sep` between each two.
pub open spec fn join<T>(parts: Seq<Seq<T>>, sep: Seq<T>) -> Seq<T>
    decreases parts.len(),
{
    if parts.len() == 0 {
        Seq::<T>::empty()
    } else if parts.len() == 1 {
        parts[0]
    } else {
        join(parts.drop_last(), sep) + sep + parts.last()
    }
}

/// Whether `part` stands somewhere in `s`, in one piece.
pub open spec fn holds<T>(s: Seq<T>, part: Seq<T>) -> bool {
    exists|i: int| #[trigger] found_at(s, part, i)
}

/// Whether `part` stands in `s` from place `i` on.
pub open spec fn found_at<T>(s: Seq<T>, part: Seq<T>, i: int) -> bool {
    0 <= i && i + part.len() <= s.len() && s.subrange(i, i + part.len()) == part
}

/// Every `from` in `s`, found from left to right without overlap, put as `to`.
/// An empty `from` stands before every element and at the end.
pub open spec fn replace<T>(s: Seq<T>, from: Seq<T>, to: Seq<T>) -> Seq<T>
    decreases s.len(),
{
    if from.len() == 0 {
        if s.len() == 0 {
            to
        } else {
            to + seq![s[0]] + replace(s.skip(1), from, to)
        }
    } else if s.len() < from.len() {
        s
    } else if s.take(from.len() as int) == from {
        to + replace(s.skip(from.len() as int), from, to)
    } else {
        seq![s[0]] + replace(s.skip(1), from, to)
    }
}

/// Unicode's `White_Space` characters.
pub open spec fn is_white(c: char) -> bool {
    ||| '\u{9}' <= c <= '\u{D}'
    ||| c == ' '
    ||| c == '\u{85}'
    ||| c == '\u{A0}'
    ||| c == '\u{1680}'
    ||| '\u{2000}' <= c <= '\u{200A}'
    ||| c == '\u{2028}'
    ||| c == '\u{2029}'
    ||| c == '\u{202F}'
    ||| c == '\u{205F}'
    ||| c == '\u{3000}'
}

/// Without the white space at the end.
pub open spec fn trim_end(s: Seq<char>) -> Seq<char>
    decreases s.len(),
{
    if s.len() > 0 && is_white(s.last()) {
        trim_end(s.drop_last())
    } else {
        s
    }
}

/// Without the white space at either end.
pub open spec fn trimmed(s: Seq<char>) -> Seq<char>
    decreases s.len(),
{
    if s.len() > 0 && is_white(s[0]) {
        trimmed(s.skip(1))
    } else {
        trim_end(s)
    }
}

/// Without the carriage return at the end, if there is one.
pub open spec fn without_return(s: Seq<char>) -> Seq<char> {
    if s.len() > 0 && s.last() == '\r' {
        s.drop_last()
    } else {
        s
    }
}

/// The lines of a text. A line ends with a line feed, or with a carriage
/// return and a line feed; the ending of the last line may be missing.
pub open spec fn lines(s: Seq<char>) -> Seq<Seq<char>> {
    let pieces = split(s, '\n');
    let ended = pieces.drop_last().map_values(|line: Seq<char>| without_return(line));
    if pieces.last().len() == 0 {
        ended
    } else {
        ended.push(pieces.last())
    }
}

/// What each piece holds.
pub open spec fn views(pieces: Seq<Vec<char>>) -> Seq<Seq<char>> {
    pieces.map_values(|piece: Vec<char>| piece@)
}

/// What each text says.
pub open spec fn texts(all: Seq<String>) -> Seq<Seq<char>> {
    all.map_values(|text: String| text@)
}

pub proof fn lemma_split_nonempty<T>(s: Seq<T>, sep: T)
    ensures
        split(s, sep).len() >= 1,
    decreases s.len(),
{
    if s.len() > 0 {
        lemma_split_nonempty(s.drop_last(), sep);
    }
}

/// The pieces of `chars` between one `sep` and the next.
pub fn split_chars(chars: &[char], sep: char) -> (r: Vec<Vec<char>>)
    ensures
        views(r@) == split(chars@, sep),
{
    let mut done: Vec<Vec<char>> = Vec::new();
    let mut piece: Vec<char> = Vec::new();
    proof {
        assert(chars@.take(0) =~= Seq::<char>::empty());
        assert(views(done@).push(piece@) =~= split(chars@.take(0), sep));
    }
    for i in 0..chars.len()
        invariant
            views(done@).push(piece@) == split(chars@.take(i as int), sep),
    {
        let ghost before = views(done@).push(piece@);
        proof {
            assert(chars@.take(i + 1).drop_last() =~= chars@.take(i as int));
            assert(before.drop_last() =~= views(done@));
        }
        if chars[i] == sep {
            done.push(piece);
            piece = Vec::new();
            proof {
                assert(views(done@) =~= before);
            }
        } else {
            piece.push(chars[i]);
        }
    }
    done.push(piece);
    proof {
        assert(chars@.take(chars@.len() as int) =~= chars@);
        assert(views(done@) =~= views(done@.drop_last()).push(done@.last()@));
        assert(done@.drop_last().push(done@.last()) =~= done@);
    }
    done
}

/// Whether `part` stands in `chars` from place `at` on.
pub fn stands_at(chars: &[char], at: usize, part: &[char]) -> (r: bool)
    requires
        at <= chars@.len(),
    ensures
        r == found_at(chars@, part@, at as int),
{
    if part.len() > chars.len() - at {
        return false;
    }
    for i in 0..part.len()
        invariant
            at + part@.len() <= chars@.len() <= usize::MAX,
            forall|j: int| 0 <= j < i ==> chars@[at + j] == part@[j],
    {
        if chars[at + i] != part[i] {
            proof {
                assert(chars@.subrange(at as int, at + part@.len())[i as int] != part@[i as int]);
            }
            return false;
        }
    }
    proof {
        assert(chars@.subrange(at as int, at + part@.len()) =~= part@);
    }
    true
}

/// `chars` with every `from` put as `to`.
pub fn replace_chars(chars: &[char], from: &[char], to: &[char]) -> (r: Vec<char>)
    ensures
        r@ == replace(chars@, from@, to@),
{
    let mut r: Vec<char> = Vec::new();
    let mut i: usize = 0;
    proof {
        assert(chars@.skip(0) =~= chars@);
        assert(r@ + replace(chars@.skip(0), from@, to@) =~= replace(chars@, from@, to@));
    }
    while i < chars.len()
        invariant
            i <= chars@.len(),
            r@ + replace(chars@.skip(i as int), from@, to@) == replace(chars@, from@, to@),
        decreases chars@.len() - i,
    {
        let ghost rest = chars@.skip(i as int);
        let ghost before = r@;
        proof {
            assert(rest.skip(1) =~= chars@.skip(i + 1));
            assert(rest[0] == chars@[i as int]);
            if from@.len() <= rest.len() {
                assert(rest.take(from@.len() as int) =~= chars@.subrange(i as int, i + from@.len()));
                assert(rest.skip(from@.len() as int) =~= chars@.skip(i + from@.len()));
            }
        }
        if from.len() == 0 {
            push_all(&mut r, to);
            r.push(chars[i]);
            i = i + 1;
            proof {
                assert(r@ =~= before + (to@ + seq![rest[0]]));
                assert(r@ + replace(rest.skip(1), from@, to@) =~= before + (to@ + seq![rest[0]] + replace(rest.skip(1), from@, to@)));
            }
        } else if stands_at(chars, i, from) {
            push_all(&mut r, to);
            i = i + from.len();
            proof {
                assert(r@ + replace(rest.skip(from@.len() as int), from@, to@) =~= before + (to@ + replace(rest.skip(from@.len() as int), from@, to@)));
            }
        } else {
            r.push(chars[i]);
            i = i + 1;
            proof {
                assert(r@ =~= before + seq![rest[0]]);
                if rest.len() < from@.len() {
                    lemma_replace_short(rest, from@, to@);
                    lemma_replace_short(rest.skip(1), from@, to@);
                    assert(rest =~= seq![rest[0]] + rest.skip(1));
                }
                assert(r@ + replace(rest.skip(1), from@, to@) =~= before + (seq![rest[0]] + replace(rest.skip(1), from@, to@)));
            }
        }
    }
    let ghost before = r@;
    if from.len() == 0 {
        push_all(&mut r, to);
    }
    proof {
        assert(chars@.skip(i as int) =~= Seq::<char>::empty());
        if from@.len() == 0 {
            assert(replace(chars@.skip(i as int), from@, to@) == to@);
        } else {
            assert(before + Seq::<char>::empty() =~= before);
        }
    }
    r
}

proof fn lemma_replace_short<T>(s: Seq<T>, from: Seq<T>, to: Seq<T>)
    requires
        s.len() < from.len(),
    ensures
        replace(s, from, to) == s,
{
}

/// All of `more` put at the end of `out`.
pub fn push_all(out: &mut Vec<char>, more: &[char])
    ensures
        final(out)@ == old(out)@ + more@,
{
    let ghost before = out@;
    proof {
        assert(before + more@.take(0) =~= before);
    }
    for i in 0..more.len()
        invariant
            out@ == before + more@.take(i as int),
    {
        proof {
            assert((before + more@.take(i as int)).push(more@[i as int]) =~= before + more@.take(i + 1));
        }
        out.push(more[i]);
    }
    proof {
        assert(more@.take(more@.len() as int) =~= more@);
    }
}

/// The pieces in order, with `sep` between each two.
pub fn join_chars(parts: &Vec<Vec<char>>, sep: &[char]) -> (r: Vec<char>)
    ensures
        r@ == join(views(parts@), sep@),
{
    let mut r: Vec<char> = Vec::new();
    for i in 0..parts.len()
        invariant
            r@ == join(views(parts@).take(i as int), sep@),
    {
        let ghost so_far = views(parts@).take(i + 1);
        proof {
            assert(so_far.drop_last() =~= views(parts@).take(i as int));
            assert(so_far.last() == parts@[i as int]@);
        }
        if i > 0 {
            push_all(&mut r, sep);
        }
        push_all(&mut r, parts[i].as_slice());
        proof {
            if i == 0 {
                assert(r@ =~= so_far[0]);
            }
        }
    }
    proof {
        assert(views(parts@).take(parts@.len() as int) =~= views(parts@));
    }
    r
}

/// Whether a character is white space.
pub fn white(c: char) -> (r: bool)
    ensures
        r == is_white(c),
{
    ('\u{9}' <= c && c <= '\u{D}') || c == ' ' || c == '\u{85}' || c == '\u{A0}' || c == '\u{1680}' || (
    '\u{2000}' <= c && c <= '\u{200A}') || c == '\u{2028}' || c == '\u{2029}' || c == '\u{202F}' || c
        == '\u{205F}' || c == '\u{3000}'
}

/// The text without the white space at either end.
pub fn trim(text: &str) -> (r: String)
    ensures
        r@ == trimmed(text@),
{
    let chars = chars_of(text);
    let mut from: usize = 0;
    proof {
        assert(chars@.skip(0) =~= chars@);
    }
    while from < chars.len() && white(chars[from])
        invariant
            from <= chars@.len(),
            trimmed(chars@.skip(from as int)) == trimmed(chars@),
        decreases chars@.len() - from,
    {
        proof {
            assert(chars@.skip(from as int).skip(1) =~= chars@.skip(from + 1));
        }
        from = from + 1;
    }
    let mut to: usize = chars.len();
    let ghost rest = chars@.skip(from as int);
    proof {
        assert(chars@.subrange(from as int, to as int) =~= rest);
    }
    while from < to && white(chars[to - 1])
        invariant
            from <= to <= chars@.len(),
            trim_end(chars@.subrange(from as int, to as int)) == trim_end(rest),
        decreases to,
    {
        proof {
            assert(chars@.subrange(from as int, to as int).drop_last() =~= chars@.subrange(from as int, to - 1));
        }
        to = to - 1;
    }
    let mut r = String::new();
    for i in from..to
        invariant
            from <= to <= chars@.len(),
            r@ == chars@.subrange(from as int, i as int),
    {
        proof {
            assert(chars@.subrange(from as int, i as int).push(chars@[i as int]) =~= chars@.subrange(from as int, i + 1));
        }
        r.push(chars[i]);
    }
    r
}

/// The lines of a text.
pub fn lines_of(chars: &[char]) -> (r: Vec<Vec<char>>)
    ensures
        views(r@) == lines(chars@),
{
    let pieces = split_chars(chars, '\n');
    proof {
        lemma_split_nonempty(chars@, '\n');
    }
    let last = pieces.len() - 1;
    let mut r: Vec<Vec<char>> = Vec::new();
    let ghost ended = views(pieces@).drop_last().map_values(|line: Seq<char>| without_return(line));
    for i in 0..last
        invariant
            last == pieces@.len() - 1,
            ended == views(pieces@).drop_last().map_values(|line: Seq<char>| without_return(line)),
            views(r@) == ended.take(i as int),
    {
        let mut line: Vec<char> = Vec::new();
        push_all(&mut line, pieces[i].as_slice());
        proof {
            assert(line@ =~= pieces@[i as int]@);
        }
        let ghost whole = line@;
        if line.len() > 0 && line[line.len() - 1] == '\r' {
            let _ = line.pop();
        }
        proof {
            assert(line@ =~= without_return(whole));
            assert(ended[i as int] == without_return(whole));
            assert(ended.take(i + 1) =~= ended.take(i as int).push(ended[i as int]));
            assert(views(r@.push(line)) =~= views(r@).push(line@));
        }
        r.push(line);
    }
    proof {
        assert(ended.take(last as int) =~= ended);
    }
    if pieces[last].len() > 0 {
        let mut line: Vec<char> = Vec::new();
        push_all(&mut line, pieces[last].as_slice());
        proof {
            assert(line@ =~= pieces@[last as int]@);
            assert(views(r@.push(line)) =~= views(r@).push(line@));
        }
        r.push(line);
    }
    r
}

/// What stands before the first `mark`, or everything where there is none.
pub open spec fn before<T>(s: Seq<T>, mark: T) -> Seq<T>
    decreases s.len(),
{
    if s.len() == 0 || s[0] == mark {
        Seq::<T>::empty()
    } else {
        seq![s[0]] + before(s.skip(1), mark)
    }
}

/// How many characters stand before the first `mark`.
pub fn length_before(chars: &[char], mark: char) -> (r: usize)
    ensures
        r <= chars@.len(),
        before(chars@, mark) == chars@.take(r as int),
        r < chars@.len() ==> chars@[r as int] == mark,
        !chars@.take(r as int).contains(mark),
{
    let mut i: usize = 0;
    proof {
        assert(chars@.skip(0) =~= chars@);
        assert(chars@.take(0) + before(chars@.skip(0), mark) =~= before(chars@, mark));
    }
    while i < chars.len() && chars[i] != mark
        invariant
            i <= chars@.len(),
            before(chars@, mark) == chars@.take(i as int) + before(chars@.skip(i as int), mark),
            !chars@.take(i as int).contains(mark),
        decreases chars@.len() - i,
    {
        proof {
            let rest = chars@.skip(i as int);
            assert(rest.skip(1) =~= chars@.skip(i + 1));
            assert(chars@.take(i as int) + (seq![rest[0]] + before(rest.skip(1), mark)) =~= chars@.take(i + 1) + before(rest.skip(1), mark));
            let longer = chars@.take(i + 1);
            assert forall|j: int| 0 <= j < longer.len() implies longer[j] != mark by {
                if j < i {
                    assert(chars@.take(i as int)[j] == longer[j]);
                }
            }
        }
        i = i + 1;
    }
    proof {
        assert(before(chars@.skip(i as int), mark) =~= Seq::<char>::empty());
        assert(chars@.take(i as int) + Seq::<char>::empty() =~= chars@.take(i as int));
    }
    i
}

pub proof fn lemma_before<T>(head: Seq<T>, mark: T, tail: Seq<T>)
    requires
        !head.contains(mark),
    ensures
        before(head + seq![mark] + tail, mark) == head,
    decreases head.len(),
{
    let s = head + seq![mark] + tail;
    if head.len() > 0 {
        assert(head[0] != mark);
        assert(s.skip(1) =~= head.skip(1) + seq![mark] + tail);
        assert forall|j: int| 0 <= j < head.skip(1).len() implies head.skip(1)[j] != mark by {
            assert(head.contains(head[j + 1]));
        }
        lemma_before(head.skip(1), mark, tail);
        assert(seq![head[0]] + head.skip(1) =~= head);
    } else {
        assert(s[0] == mark);
    }
}

pub proof fn lemma_before_is_free<T>(s: Seq<T>, mark: T)
    ensures
        !before(s, mark).contains(mark),
        before(s, mark).len() <= s.len(),
        before(s, mark) == s.take(before(s, mark).len() as int),
        before(s, mark).len() < s.len() ==> s[before(s, mark).len() as int] == mark,
    decreases s.len(),
{
    if s.len() > 0 && s[0] != mark {
        lemma_before_is_free(s.skip(1), mark);
        let b = before(s.skip(1), mark);
        assert forall|j: int| 0 <= j < before(s, mark).len() implies before(s, mark)[j] != mark by {
            if j > 0 {
                assert(before(s, mark)[j] == b[j - 1]);
                assert(b.contains(b[j - 1]));
            }
        }
        assert(before(s, mark) =~= s.take(before(s, mark).len() as int));
    } else {
        assert(before(s, mark) =~= s.take(0));
    }
}

/// No piece holds what the sequence was cut at.
pub proof fn lemma_split_free<T>(s: Seq<T>, sep: T)
    ensures
        forall|i: int| 0 <= i < split(s, sep).len() ==> !(#[trigger] split(s, sep)[i]).contains(sep),
    decreases s.len(),
{
    lemma_split_nonempty(s, sep);
    if s.len() > 0 {
        let short = split(s.drop_last(), sep);
        lemma_split_free(s.drop_last(), sep);
        lemma_split_nonempty(s.drop_last(), sep);
        assert forall|i: int| 0 <= i < split(s, sep).len() implies !(#[trigger] split(s, sep)[i]).contains(sep) by {
            if i < short.len() - 1 {
                assert(split(s, sep)[i] == short[i]);
            } else if s.last() == sep {
                if i < short.len() {
                    assert(split(s, sep)[i] == short[i]);
                }
            } else {
                let piece = split(s, sep)[i];
                assert(piece == short.last().push(s.last()));
                assert forall|j: int| 0 <= j < piece.len() implies piece[j] != sep by {
                    if j < short.last().len() {
                        assert(short[short.len() - 1].contains(piece[j]));
                    }
                }
            }
        }
    }
}

/// Cutting after a separator and a stretch without one adds that stretch.
pub proof fn lemma_split_push<T>(s: Seq<T>, sep: T, more: Seq<T>)
    requires
        !more.contains(sep),
    ensures
        split(s + seq![sep] + more, sep) == split(s, sep).push(more),
    decreases more.len(),
{
    let whole = s + seq![sep] + more;
    if more.len() == 0 {
        assert(whole.drop_last() =~= s);
        assert(more =~= Seq::<T>::empty());
    } else {
        let shorter = more.drop_last();
        assert forall|j: int| 0 <= j < shorter.len() implies shorter[j] != sep by {
            assert(more.contains(more[j]));
        }
        lemma_split_push(s, sep, shorter);
        assert(whole.drop_last() =~= s + seq![sep] + shorter);
        assert(more.contains(more.last()));
        assert(shorter.push(more.last()) =~= more);
        assert(split(s, sep).push(shorter).drop_last() =~= split(s, sep));
    }
}

/// A stretch without a separator is one piece.
pub proof fn lemma_split_whole<T>(s: Seq<T>, sep: T)
    requires
        !s.contains(sep),
    ensures
        split(s, sep) == seq![s],
    decreases s.len(),
{
    if s.len() == 0 {
        assert(s =~= Seq::<T>::empty());
    } else {
        let shorter = s.drop_last();
        assert forall|j: int| 0 <= j < shorter.len() implies shorter[j] != sep by {
            assert(s.contains(s[j]));
        }
        lemma_split_whole(shorter, sep);
        assert(s.contains(s.last()));
        assert(shorter.push(s.last()) =~= s);
        assert(seq![shorter].drop_last().push(s) =~= seq![s]);
    }
}

/// Pieces without the separator, joined by it, come apart again as they were.
pub proof fn lemma_split_join<T>(parts: Seq<Seq<T>>, sep: T)
    requires
        parts.len() > 0,
        forall|i: int| 0 <= i < parts.len() ==> !(#[trigger] parts[i]).contains(sep),
    ensures
        split(join(parts, seq![sep]), sep) == parts,
    decreases parts.len(),
{
    if parts.len() == 1 {
        lemma_split_whole(parts[0], sep);
        assert(parts =~= seq![parts[0]]);
    } else {
        let shorter = parts.drop_last();
        assert forall|i: int| 0 <= i < shorter.len() implies !(#[trigger] shorter[i]).contains(sep) by {
            assert(shorter[i] == parts[i]);
        }
        lemma_split_join(shorter, sep);
        lemma_split_push(join(shorter, seq![sep]), sep, parts.last());
        assert(shorter.push(parts.last()) =~= parts);
    }
}

/// The pieces of a sequence, joined by what it was cut at, are the sequence.
pub proof fn lemma_join_split<T>(s: Seq<T>, sep: T)
    ensures
        join(split(s, sep), seq![sep]) == s,
    decreases s.len(),
{
    lemma_split_nonempty(s, sep);
    if s.len() > 0 {
        let short = split(s.drop_last(), sep);
        let full = split(s, sep);
        lemma_split_nonempty(s.drop_last(), sep);
        lemma_join_split(s.drop_last(), sep);
        assert(s =~= s.drop_last().push(s.last()));
        if s.last() == sep {
            assert(full.drop_last() =~= short);
            assert(join(short, seq![sep]) + seq![sep] + Seq::<T>::empty() =~= s);
        } else {
            assert(full.drop_last() =~= short.drop_last());
            if short.len() == 1 {
                assert(full =~= seq![short[0].push(s.last())]);
                assert(join(short, seq![sep]) == short[0]);
            } else {
                assert(join(short, seq![sep]) == join(short.drop_last(), seq![sep]) + seq![sep] + short.last());
                assert(join(full, seq![sep]) =~= join(short, seq![sep]).push(s.last()));
            }
        }
    }
}

/// Where nothing is found, nothing is replaced.
pub proof fn lemma_replace_nothing<T>(s: Seq<T>, from: Seq<T>, to: Seq<T>)
    requires
        from.len() > 0,
        !holds(s, from),
    ensures
        replace(s, from, to) == s,
    decreases s.len(),
{
    if s.len() >= from.len() {
        assert(s.take(from.len() as int) =~= s.subrange(0, from.len() as int));
        assert(!found_at(s, from, 0));
        lemma_suffix_holds(s, 1, from);
        lemma_replace_nothing(s.skip(1), from, to);
        assert(seq![s[0]] + s.skip(1) =~= s);
    }
}

/// What the end of a sequence holds, the sequence holds.
pub proof fn lemma_suffix_holds<T>(s: Seq<T>, n: int, part: Seq<T>)
    requires
        0 <= n <= s.len(),
    ensures
        holds(s.skip(n), part) ==> holds(s, part),
{
    if holds(s.skip(n), part) {
        let i = choose|i: int| found_at(s.skip(n), part, i);
        assert(s.skip(n).subrange(i, i + part.len()) =~= s.subrange(n + i, n + i + part.len()));
        assert(found_at(s, part, n + i));
    }
}

/// Where the first replacement is made: up to there the text is unchanged,
/// `from` stands there in it, and `to` stands there in what comes of it.
pub proof fn lemma_first_replacement<T>(s: Seq<T>, from: Seq<T>, to: Seq<T>) -> (j: int)
    requires
        from.len() > 0,
    ensures
        0 <= j <= s.len(),
        j <= replace(s, from, to).len(),
        replace(s, from, to).take(j) == s.take(j),
        (j == s.len() && replace(s, from, to) == s) || (from.is_prefix_of(s.skip(j)) && to.is_prefix_of(
            replace(s, from, to).skip(j),
        )),
    decreases s.len(),
{
    let r = replace(s, from, to);
    if s.len() < from.len() {
        s.len() as int
    } else if s.take(from.len() as int) == from {
        assert(r.take(0) =~= s.take(0));
        assert(s.skip(0) =~= s);
        assert(from =~= s.skip(0).subrange(0, from.len() as int));
        assert(r.skip(0) =~= r);
        assert(to =~= r.skip(0).subrange(0, to.len() as int));
        0
    } else {
        let rest = s.skip(1);
        let k = lemma_first_replacement(rest, from, to);
        let q = replace(rest, from, to);
        assert(r.take(k + 1) =~= seq![s[0]] + q.take(k));
        assert(s.take(k + 1) =~= seq![s[0]] + rest.take(k));
        assert(r.skip(k + 1) =~= q.skip(k));
        assert(s.skip(k + 1) =~= rest.skip(k));
        if q == rest {
            assert(r =~= s);
        }
        k + 1
    }
}

/// Whether `one`, put anywhere over `other` so that they meet, can agree with
/// it wherever they do.
pub open spec fn clash<T>(one: Seq<T>, other: Seq<T>) -> bool {
    exists|o: int| #[trigger] agree_at(one, other, o)
}

/// Whether `one`, put over `other` from place `o` on, meets it and agrees
/// with it wherever both stand.
pub open spec fn agree_at<T>(one: Seq<T>, other: Seq<T>, o: int) -> bool {
    &&& -one.len() < o < other.len()
    &&& forall|k: int|
        0 <= k < other.len() && o <= k < o + one.len() ==> #[trigger] other[k] == one[k - o]
}

/// What was replaced everywhere is nowhere left, if it cannot meet what it
/// was replaced by.
pub proof fn lemma_replaced_is_gone<T>(s: Seq<T>, from: Seq<T>, to: Seq<T>)
    requires
        from.len() > 0,
        to.len() > 0,
        !clash(from, to),
    ensures
        !holds(replace(s, from, to), from),
    decreases s.len(),
{
    let r = replace(s, from, to);
    if holds(r, from) {
        let i = choose|i: int| found_at(r, from, i);
        let seen = r.subrange(i, i + from.len());
        if s.len() < from.len() {
            assert(false);
        } else if s.take(from.len() as int) == from {
            let rest = replace(s.skip(from.len() as int), from, to);
            if i >= to.len() {
                assert(rest.subrange(i - to.len(), i - to.len() + from.len()) =~= seen);
                assert(found_at(rest, from, i - to.len()));
                lemma_replaced_is_gone(s.skip(from.len() as int), from, to);
            } else {
                assert forall|k: int| 0 <= k < to.len() && i <= k < i + from.len() implies #[trigger] to[k] == from[k
                    - i] by {
                    assert(seen[k - i] == r[k]);
                    assert(r[k] == to[k]);
                }
                assert(agree_at(from, to, i));
            }
        } else {
            let rest = replace(s.skip(1), from, to);
            if i >= 1 {
                assert(rest.subrange(i - 1, i - 1 + from.len()) =~= seen);
                assert(found_at(rest, from, i - 1));
                lemma_replaced_is_gone(s.skip(1), from, to);
            } else {
                let j = lemma_first_replacement(s, from, to);
                if r == s {
                    assert(s.take(from.len() as int) =~= seen);
                } else if j >= from.len() {
                    assert forall|k: int| 0 <= k < from.len() implies s[k] == from[k] by {
                        assert(r.take(j)[k] == s.take(j)[k]);
                        assert(seen[k] == r[k]);
                    }
                    assert(s.take(from.len() as int) =~= from);
                } else if j > 0 {
                    assert forall|k: int| 0 <= k < to.len() && -j <= k < -j + from.len() implies #[trigger] to[k]
                        == from[k + j] by {
                        assert(r.skip(j).subrange(0, to.len() as int)[k] == r[k + j]);
                        assert(seen[k + j] == r[k + j]);
                    }
                    assert(agree_at(from, to, -j));
                } else {
                    assert(s.skip(0) =~= s);
                    assert(s.take(from.len() as int) =~= s.skip(0).subrange(0, from.len() as int));
                }
            }
        }
    }
}

/// What holds no `c` is replaced on either side of a `c` alone.
pub proof fn lemma_replace_across<T>(a: Seq<T>, c: T, b: Seq<T>, from: Seq<T>, to: Seq<T>)
    requires
        from.len() > 0,
        !from.contains(c),
    ensures
        replace(a + seq![c] + b, from, to) == replace(a, from, to) + seq![c] + replace(b, from, to),
    decreases a.len(),
{
    let s = a + seq![c] + b;
    let n = from.len() as int;
    if a.len() == 0 {
        assert(s.skip(1) =~= b);
        assert(s =~= seq![c] + b);
        if s.len() >= n {
            if s.take(n) == from {
                assert(s.take(n)[0] == c);
                assert(from.contains(from[0]));
            }
        }
        assert(replace(s, from, to) =~= seq![c] + replace(b, from, to));
        assert(replace(a, from, to) =~= Seq::<T>::empty());
    } else {
        assert(s.skip(1) =~= a.skip(1) + seq![c] + b);
        lemma_replace_across(a.skip(1), c, b, from, to);
        if n <= a.len() {
            assert(s.take(n) =~= a.take(n));
            if a.take(n) == from {
                assert(s.skip(n) =~= a.skip(n) + seq![c] + b);
                lemma_replace_across(a.skip(n), c, b, from, to);
                assert(replace(s, from, to) =~= replace(a, from, to) + seq![c] + replace(b, from, to));
            } else {
                assert(replace(s, from, to) =~= replace(a, from, to) + seq![c] + replace(b, from, to));
            }
        } else {
            if s.len() >= n {
                if s.take(n) == from {
                    assert(s.take(n)[a.len() as int] == c);
                    assert(from.contains(from[a.len() as int]));
                }
            }
            assert(seq![a[0]] + a.skip(1) =~= a);
            assert(replace(s, from, to) =~= a + seq![c] + replace(b, from, to));
        }
    }
}

/// What holds no `c` is replaced in pieces joined by `c` one by one.
pub proof fn lemma_replace_join<T>(parts: Seq<Seq<T>>, c: T, from: Seq<T>, to: Seq<T>)
    requires
        from.len() > 0,
        !from.contains(c),
    ensures
        replace(join(parts, seq![c]), from, to) == join(
            parts.map_values(|part: Seq<T>| replace(part, from, to)),
            seq![c],
        ),
    decreases parts.len(),
{
    let done = parts.map_values(|part: Seq<T>| replace(part, from, to));
    if parts.len() > 1 {
        lemma_replace_join(parts.drop_last(), c, from, to);
        lemma_replace_across(join(parts.drop_last(), seq![c]), c, parts.last(), from, to);
        assert(done.drop_last() =~= parts.drop_last().map_values(|part: Seq<T>| replace(part, from, to)));
    }
}

/// What pieces joined by `c` hold without a `c` in it, one of them holds.
pub proof fn lemma_join_holds<T>(parts: Seq<Seq<T>>, c: T, part: Seq<T>)
    requires
        part.len() > 0,
        !part.contains(c),
        holds(join(parts, seq![c]), part),
    ensures
        exists|i: int| 0 <= i < parts.len() && holds(#[trigger] parts[i], part),
    decreases parts.len(),
{
    let whole = join(parts, seq![c]);
    let at = choose|i: int| found_at(whole, part, i);
    if parts.len() == 0 {
        assert(false);
    } else if parts.len() == 1 {
        assert(holds(parts[0], part));
    } else {
        let head = join(parts.drop_last(), seq![c]);
        let n = head.len() as int;
        if at + part.len() <= n {
            assert(head.subrange(at, at + part.len()) =~= part);
            assert(found_at(head, part, at));
            lemma_join_holds(parts.drop_last(), c, part);
            let i = choose|i: int| 0 <= i < parts.drop_last().len() && holds(#[trigger] parts.drop_last()[i], part);
            assert(parts[i] == parts.drop_last()[i]);
        } else if at > n {
            let last = parts.last();
            assert(last.subrange(at - n - 1, at - n - 1 + part.len()) =~= part);
            assert(found_at(last, part, at - n - 1));
            assert(holds(parts[parts.len() - 1], part));
        } else {
            assert(whole[n] == c);
            assert(part[n - at] == whole.subrange(at, at + part.len())[n - at]);
            assert(part.contains(part[n - at]));
        }
    }
}

/// Cutting and joining undo each other. What comes of cutting is the only run
/// of pieces that holds no mark and makes the whole again when the mark is put
/// between them.
pub proof fn law_cutting_and_joining_undo_each_other<T>(s: Seq<T>, sep: T, parts: Seq<Seq<T>>)
    ensures
        split(s, sep).len() >= 1,
        forall|i: int| 0 <= i < split(s, sep).len() ==> !(#[trigger] split(s, sep)[i]).contains(sep),
        join(split(s, sep), seq![sep]) == s,
        parts.len() > 0 && join(parts, seq![sep]) == s && (forall|i: int|
            0 <= i < parts.len() ==> !(#[trigger] parts[i]).contains(sep)) ==> parts == split(s, sep),
{
    lemma_split_nonempty(s, sep);
    lemma_split_free(s, sep);
    lemma_join_split(s, sep);
    if parts.len() > 0 && join(parts, seq![sep]) == s && (forall|i: int|
        0 <= i < parts.len() ==> !(#[trigger] parts[i]).contains(sep)) {
        lemma_split_join(parts, sep);
    }
}

/// What is joined is every piece whole, with the mark between two and nowhere
/// else: joined in two runs, it is the one, the mark, and the other.
pub proof fn law_joining_puts_the_mark_between<T>(a: Seq<Seq<T>>, b: Seq<Seq<T>>, one: Seq<T>, sep: Seq<T>)
    ensures
        join(Seq::<Seq<T>>::empty(), sep) == Seq::<T>::empty(),
        join(seq![one], sep) == one,
        a.len() > 0 && b.len() > 0 ==> join(a + b, sep) == join(a, sep) + sep + join(b, sep),
    decreases b.len(),
{
    if a.len() > 0 && b.len() > 0 {
        let all = a + b;
        assert(all.drop_last() =~= a + b.drop_last());
        if b.len() == 1 {
            assert(all.drop_last() =~= a);
        } else {
            law_joining_puts_the_mark_between(a, b.drop_last(), one, sep);
            assert(join(all, sep) =~= join(a, sep) + sep + join(b, sep));
        }
    }
}

/// Replacing goes from left to right. Where something stands, and nowhere
/// before, what is in front of it stays, it is swapped, and the rest is
/// replaced in the same way; where it stands nowhere, nothing changes.
pub proof fn law_replacing_swaps_what_is_found<T>(a: Seq<T>, from: Seq<T>, to: Seq<T>, b: Seq<T>)
    requires
        from.len() > 0,
    ensures
        (forall|i: int| 0 <= i <= a.len() ==> !from.is_prefix_of(#[trigger] a.skip(i))) ==> replace(a, from, to)
            == a,
        (forall|i: int| 0 <= i < a.len() ==> !from.is_prefix_of(#[trigger] (a + from + b).skip(i)))
            ==> replace(a + from + b, from, to) == a + to + replace(b, from, to),
    decreases a.len(),
{
    if forall|i: int| 0 <= i <= a.len() ==> !from.is_prefix_of(#[trigger] a.skip(i)) {
        if holds(a, from) {
            let i = choose|i: int| found_at(a, from, i);
            assert(a.skip(i).subrange(0, from.len() as int) =~= from);
            assert(from.is_prefix_of(a.skip(i)));
        }
        lemma_replace_nothing(a, from, to);
    }
    let s = a + from + b;
    if forall|i: int| 0 <= i < a.len() ==> !from.is_prefix_of(#[trigger] s.skip(i)) {
        if a.len() == 0 {
            assert(s.take(from.len() as int) =~= from);
            assert(s.skip(from.len() as int) =~= b);
            assert(a + to + replace(b, from, to) =~= to + replace(b, from, to));
        } else {
            let rest = a.skip(1);
            assert(s.skip(1) =~= rest + from + b);
            assert forall|i: int| 0 <= i < rest.len() implies !from.is_prefix_of(
                #[trigger] (rest + from + b).skip(i),
            ) by {
                assert((rest + from + b).skip(i) =~= s.skip(i + 1));
            }
            law_replacing_swaps_what_is_found(rest, from, to, b);
            assert(s.skip(0) =~= s);
            assert(!from.is_prefix_of(s));
            if s.take(from.len() as int) == from {
                assert(s.subrange(0, from.len() as int) =~= from);
            }
            assert(seq![s[0]] + (rest + to + replace(b, from, to)) =~= a + to + replace(b, from, to));
        }
    }
}

/// Nothing at all stands in front of every element and at the end.
pub proof fn law_replacing_nothing_goes_in_between<T>(a: Seq<T>, c: T, to: Seq<T>)
    ensures
        replace(Seq::<T>::empty(), Seq::<T>::empty(), to) == to,
        replace(a.push(c), Seq::<T>::empty(), to) == replace(a, Seq::<T>::empty(), to).push(c) + to,
    decreases a.len(),
{
    let none = Seq::<T>::empty();
    let s = a.push(c);
    if a.len() == 0 {
        assert(s.skip(1) =~= none);
        assert(replace(s, none, to) == to + seq![c] + replace(s.skip(1), none, to));
        assert(replace(s, none, to) =~= replace(a, none, to).push(c) + to);
    } else {
        let rest = a.skip(1);
        law_replacing_nothing_goes_in_between(rest, c, to);
        assert(s.skip(1) =~= rest.push(c));
        assert(replace(s, none, to) == to + seq![a[0]] + replace(rest.push(c), none, to));
        assert(replace(a, none, to) == to + seq![a[0]] + replace(rest, none, to));
        assert(replace(s, none, to) =~= replace(a, none, to).push(c) + to);
    }
}

/// The white space there is, and no other character is any.
pub proof fn law_white_space_is_these(c: char)
    ensures
        is_white(c) <==> seq![
            0x9u32,
            0xAu32,
            0xBu32,
            0xCu32,
            0xDu32,
            0x20u32,
            0x85u32,
            0xA0u32,
            0x1680u32,
            0x2000u32,
            0x2001u32,
            0x2002u32,
            0x2003u32,
            0x2004u32,
            0x2005u32,
            0x2006u32,
            0x2007u32,
            0x2008u32,
            0x2009u32,
            0x200Au32,
            0x2028u32,
            0x2029u32,
            0x202Fu32,
            0x205Fu32,
            0x3000u32,
        ].contains(c as u32),
{
    let all = seq![
        0x9u32,
        0xAu32,
        0xBu32,
        0xCu32,
        0xDu32,
        0x20u32,
        0x85u32,
        0xA0u32,
        0x1680u32,
        0x2000u32,
        0x2001u32,
        0x2002u32,
        0x2003u32,
        0x2004u32,
        0x2005u32,
        0x2006u32,
        0x2007u32,
        0x2008u32,
        0x2009u32,
        0x200Au32,
        0x2028u32,
        0x2029u32,
        0x202Fu32,
        0x205Fu32,
        0x3000u32,
    ];
    let n = c as u32;
    if is_white(c) {
        let i: int = if n <= 0xD {
            n - 9
        } else if n == 0x20 {
            5
        } else if n == 0x85 {
            6
        } else if n == 0xA0 {
            7
        } else if n == 0x1680 {
            8
        } else if n <= 0x200A {
            9 + (n - 0x2000)
        } else if n == 0x2028 {
            20
        } else if n == 0x2029 {
            21
        } else if n == 0x202F {
            22
        } else if n == 0x205F {
            23
        } else {
            24
        };
        assert(all[i] == n);
    }
}

proof fn lemma_trim_end(s: Seq<char>) -> (k: int)
    ensures
        0 <= k <= s.len(),
        trim_end(s) == s.take(k),
        forall|i: int| k <= i < s.len() ==> is_white(#[trigger] s[i]),
        k > 0 ==> !is_white(s[k - 1]),
    decreases s.len(),
{
    if s.len() > 0 && is_white(s.last()) {
        let k = lemma_trim_end(s.drop_last());
        assert(s.drop_last().take(k) =~= s.take(k));
        assert forall|i: int| k <= i < s.len() implies is_white(#[trigger] s[i]) by {
            if i < s.len() - 1 {
                assert(s.drop_last()[i] == s[i]);
            }
        }
        k
    } else {
        assert(s.take(s.len() as int) =~= s);
        s.len() as int
    }
}

/// Trimming takes white space from either end, all of it, and nothing else:
/// around what is left there was only white space, and what is left begins
/// and ends with something that is none.
pub proof fn law_trimming_takes_the_white_space_around(s: Seq<char>) -> (r: (Seq<char>, Seq<char>))
    ensures
        s == r.0 + trimmed(s) + r.1,
        forall|i: int| 0 <= i < r.0.len() ==> is_white(#[trigger] r.0[i]),
        forall|i: int| 0 <= i < r.1.len() ==> is_white(#[trigger] r.1[i]),
        trimmed(s).len() > 0 ==> !is_white(trimmed(s)[0]) && !is_white(trimmed(s).last()),
    decreases s.len(),
{
    if s.len() > 0 && is_white(s[0]) {
        let r = law_trimming_takes_the_white_space_around(s.skip(1));
        let front = seq![s[0]] + r.0;
        assert(s =~= seq![s[0]] + s.skip(1));
        assert(s =~= front + trimmed(s) + r.1);
        (front, r.1)
    } else {
        let k = lemma_trim_end(s);
        assert(s =~= Seq::<char>::empty() + s.take(k) + s.skip(k));
        (Seq::<char>::empty(), s.skip(k))
    }
}

/// A line is everything up to a line feed, less one carriage return in front
/// of it; what follows the last line feed is a line if there is anything of
/// it. No line is lost and none is made.
pub proof fn law_lines_are_what_stands_between_line_feeds(line: Seq<char>, rest: Seq<char>)
    requires
        !line.contains('\n'),
    ensures
        lines(Seq::<char>::empty()) == Seq::<Seq<char>>::empty(),
        line.len() > 0 ==> lines(line) == seq![line],
        lines(line + seq!['\n'] + rest) == seq![
            if line.len() > 0 && line.last() == '\r' {
                line.drop_last()
            } else {
                line
            },
        ] + lines(rest),
{
    let cut = |one: Seq<char>| without_return(one);
    lemma_split_whole(line, '\n');
    assert(lines(Seq::<char>::empty()) =~= Seq::<Seq<char>>::empty());
    if line.len() > 0 {
        assert(lines(line) =~= seq![line]);
    }
    let pieces = split(rest, '\n');
    lemma_split_nonempty(rest, '\n');
    lemma_split_free(rest, '\n');
    lemma_join_split(rest, '\n');
    law_joining_puts_the_mark_between(seq![line], pieces, line, seq!['\n']);
    let all = seq![line] + pieces;
    assert forall|i: int| 0 <= i < all.len() implies !(#[trigger] all[i]).contains('\n') by {
        if i > 0 {
            assert(all[i] == pieces[i - 1]);
        }
    }
    lemma_split_join(all, '\n');
    let whole = line + seq!['\n'] + rest;
    assert(split(whole, '\n') == all);
    assert(all.last() == pieces.last());
    assert(all.drop_last() =~= seq![line] + pieces.drop_last());
    assert(all.drop_last().map_values(cut) =~= seq![without_return(line)] + pieces.drop_last().map_values(cut));
    assert(lines(whole) =~= seq![without_return(line)] + lines(rest));
}

} // verus!
