//! The names of schemas: making new ones, and writing them into sql.

use vstd::prelude::*;
use vstd::utf8::{decode_utf8, encode_utf8, is_ascii_chars, is_char_boundary};

use crate::number::{
    decimal, hexadecimal, is_digit, lemma_decimal_digits, lemma_decimal_injective,
    lemma_hexadecimal_digits, lemma_hexadecimal_injective, write_decimal, write_hexadecimal,
};
use crate::text::{
    chars_of, law_replacing_swaps_what_is_found, lemma_split_push, replace, replace_chars, split, string_of,
};

verus! {

/// A name as an sql identifier: in double quotes, and every double quote
/// inside it doubled.
pub open spec fn quoted(name: Seq<char>) -> Seq<char> {
    seq!['"'] + replace(name, seq!['"'], seq!['"', '"']) + seq!['"']
}

/// A name as an sql identifier.
pub fn quote(name: &str) -> (r: String)
    ensures
        r@ == quoted(name@),
{
    let one: Vec<char> = vec!['"'];
    let two: Vec<char> = vec!['"', '"'];
    proof {
        assert(one@ =~= seq!['"']);
        assert(two@ =~= seq!['"', '"']);
    }
    let inside = replace_chars(chars_of(name).as_slice(), one.as_slice(), two.as_slice());
    let mut r = String::new();
    r.push('"');
    r.append(string_of(inside.as_slice()).as_str());
    r.push('"');
    proof {
        assert(r@ =~= quoted(name@));
    }
    r
}

/// What the server reads of a quoted identifier whose opening quote it has
/// just passed: the name, and what stands after the closing quote. Two double
/// quotes are one of the name; a single one ends it.
pub open spec fn read_identifier(s: Seq<char>) -> Option<(Seq<char>, Seq<char>)>
    decreases s.len(),
{
    if s.len() == 0 {
        None
    } else if s[0] != '"' {
        match read_identifier(s.skip(1)) {
            Some((name, rest)) => Some((seq![s[0]] + name, rest)),
            None => None,
        }
    } else if s.len() >= 2 && s[1] == '"' {
        match read_identifier(s.skip(2)) {
            Some((name, rest)) => Some((seq!['"'] + name, rest)),
            None => None,
        }
    } else {
        Some((Seq::<char>::empty(), s.skip(1)))
    }
}

proof fn lemma_read_inside(name: Seq<char>, rest: Seq<char>)
    requires
        rest.len() == 0 || rest[0] != '"',
    ensures
        read_identifier(replace(name, seq!['"'], seq!['"', '"']) + seq!['"'] + rest) == Some((name, rest)),
    decreases name.len(),
{
    let one = seq!['"'];
    let two = seq!['"', '"'];
    let s = replace(name, one, two) + seq!['"'] + rest;
    if name.len() == 0 {
        assert(s.skip(1) =~= rest);
        assert(name =~= Seq::<char>::empty());
    } else {
        lemma_read_inside(name.skip(1), rest);
        let shorter = replace(name.skip(1), one, two) + seq!['"'] + rest;
        assert(seq![name[0]] + name.skip(1) =~= name);
        assert(name.take(1) =~= seq![name[0]]);
        if name[0] == '"' {
            assert(name.take(1) =~= one);
            assert(s =~= two + shorter);
            assert(s.skip(2) =~= shorter);
        } else {
            assert(name.take(1)[0] != one[0]);
            assert(s =~= seq![name[0]] + shorter);
            assert(s.skip(1) =~= shorter);
        }
    }
}

/// Whatever a name holds, the server reads exactly that name and stops where
/// the identifier does: a quote inside a name cannot end the name.
pub proof fn law_a_quote_inside_a_name_cannot_end_it(name: Seq<char>, rest: Seq<char>)
    requires
        rest.len() == 0 || rest[0] != '"',
    ensures
        (quoted(name) + rest)[0] == '"',
        read_identifier((quoted(name) + rest).skip(1)) == Some((name, rest)),
{
    lemma_read_inside(name, rest);
    assert((quoted(name) + rest).skip(1) =~= replace(name, seq!['"'], seq!['"', '"']) + seq!['"'] + rest);
}

/// Two names that are written alike are one name.
pub proof fn law_quoting_tells_names_apart(one: Seq<char>, other: Seq<char>)
    requires
        quoted(one) == quoted(other),
    ensures
        one == other,
{
    let nothing = Seq::<char>::empty();
    law_a_quote_inside_a_name_cannot_end_it(one, nothing);
    law_a_quote_inside_a_name_cannot_end_it(other, nothing);
}

/// How far into a text its first `n` bytes reach.
pub open spec fn reach(text: Seq<char>, n: nat) -> int {
    if n < encode_utf8(text).len() {
        n as int
    } else {
        encode_utf8(text).len() as int
    }
}

/// Whether the first `n` bytes of a text end between two characters.
pub open spec fn clips(text: Seq<char>, n: nat) -> bool {
    is_char_boundary(encode_utf8(text), reach(text, n))
}

/// The characters in the first `n` bytes of a text.
pub open spec fn clip(text: Seq<char>, n: nat) -> Seq<char> {
    decode_utf8(encode_utf8(text).take(reach(text, n)))
}

/// Whether the first `n` bytes of a text end between two characters.
pub fn can_clip(text: &str, n: usize) -> (r: bool)
    ensures
        r == clips(text@, n as nat),
{
    let bytes = text.as_bytes();
    let end: usize = if n < bytes.len() {
        n
    } else {
        bytes.len()
    };
    text.is_char_boundary(end)
}

/// The first `n` bytes of a text.
pub fn clipped(text: &str, n: usize) -> (r: String)
    requires
        clips(text@, n as nat),
    ensures
        r@ == clip(text@, n as nat),
{
    let bytes = text.as_bytes();
    let end: usize = if n < bytes.len() {
        n
    } else {
        bytes.len()
    };
    let (head, _) = text.split_at(end);
    proof {
        vstd::utf8::encode_utf8_decode_utf8(head@);
        assert(encode_utf8(head@) =~= encode_utf8(text@).take(end as int));
    }
    head.to_owned()
}

/// Of a text in ascii, the first `n` bytes are the first `n` characters.
pub proof fn lemma_clip_ascii(text: Seq<char>, n: nat)
    requires
        is_ascii_chars(text),
    ensures
        clips(text, n),
        clip(text, n) == text.take(if n < text.len() {
            n as int
        } else {
            text.len() as int
        }),
{
    let end = if n < text.len() {
        n as int
    } else {
        text.len() as int
    };
    vstd::utf8::is_ascii_chars_encode_utf8(text);
    let head = text.take(end);
    assert(is_ascii_chars(head)) by {
        assert forall|i: int| 0 <= i < head.len() implies head[i] == text[i] by {}
    }
    vstd::utf8::is_ascii_chars_encode_utf8(head);
    assert(encode_utf8(text).take(end) =~= encode_utf8(head));
    vstd::utf8::encode_utf8_decode_utf8(head);
    vstd::utf8::encode_utf8_valid_utf8(text);
    lemma_ascii_boundary(text, end);
}

proof fn lemma_ascii_boundary(text: Seq<char>, i: int)
    requires
        is_ascii_chars(text),
        0 <= i <= text.len(),
    ensures
        is_char_boundary(encode_utf8(text), i),
    decreases text.len(),
{
    let bytes = encode_utf8(text);
    vstd::utf8::encode_utf8_valid_utf8(text);
    vstd::utf8::is_ascii_chars_encode_utf8(text);
    if i > 0 {
        let rest = text.drop_first();
        vstd::utf8::encode_utf8_first_scalar(text);
        assert(is_ascii_chars(rest)) by {
            assert forall|j: int| 0 <= j < rest.len() implies rest[j] == text[j + 1] by {}
        }
        assert(vstd::utf8::pop_first_scalar(bytes) =~= encode_utf8(rest));
        lemma_ascii_boundary(rest, i - 1);
    }
}

/// What makes a name unlike any other: the process that made it, the clock,
/// and how many it had made before.
pub struct Stamp {
    pub pid: u32,
    pub nanos: u64,
    pub count: u64,
}

/// How much of a fingerprint a name carries.
pub const SHOWN: usize = 8;

/// The end of a name: the clock, then the count.
pub open spec fn tail(stamp: Stamp) -> Seq<char> {
    hexadecimal(stamp.nanos as nat) + hexadecimal(stamp.count as nat)
}

/// A name for a schema.
pub open spec fn scratch(kind: Seq<char>, fingerprint: Seq<char>, stamp: Stamp) -> Seq<char> {
    "hazir_"@ + kind + seq!['_'] + clip(fingerprint, SHOWN as nat) + seq!['_'] + decimal(stamp.pid as nat)
        + seq!['_'] + tail(stamp)
}

/// Where new names come from: one process's number, and how many names it
/// has made.
pub struct Names {
    pub pid: u32,
    pub made: u64,
}

impl Names {
    /// No names made yet.
    pub fn new(pid: u32) -> (r: Names)
        ensures
            r.pid == pid,
            r.made == 0,
    {
        Names { pid, made: 0 }
    }

    /// A name no two of these share.
    ///
    /// The tail of the clock rather than the head: the leading digits of the
    /// millisecond are the same for every schema a warm-up makes, and it
    /// makes them faster than the clock moves.
    pub fn name_for(&mut self, fingerprint: &str, nanos: u64) -> (r: String)
        requires
            clips(fingerprint@, SHOWN as nat),
        ensures
            r@ == scratch("pool"@, fingerprint@, (Stamp { pid: old(self).pid, nanos, count: old(self).made })),
            final(self).pid == old(self).pid,
            final(self).made == old(self).made.wrapping_add(1),
    {
        self.scratch_name("pool", fingerprint, nanos)
    }

    /// The same, for the schemas built and thrown away while taking a
    /// snapshot.
    ///
    /// Unique per process rather than derived from the fingerprint alone: two
    /// runs warming the same database at once would otherwise pick the same
    /// name and the second would fail on a schema the first was still using.
    pub fn scratch_name(&mut self, kind: &str, fingerprint: &str, nanos: u64) -> (r: String)
        requires
            clips(fingerprint@, SHOWN as nat),
        ensures
            r@ == scratch(kind@, fingerprint@, (Stamp { pid: old(self).pid, nanos, count: old(self).made })),
            final(self).pid == old(self).pid,
            final(self).made == old(self).made.wrapping_add(1),
    {
        let mut r = "hazir_".to_owned();
        r.append(kind);
        r.push('_');
        r.append(clipped(fingerprint, SHOWN).as_str());
        r.push('_');
        write_decimal(&mut r, self.pid as u64);
        r.push('_');
        write_hexadecimal(&mut r, nanos);
        write_hexadecimal(&mut r, self.made);
        proof {
            assert(r@ =~= scratch(kind@, fingerprint@, (Stamp { pid: self.pid, nanos, count: self.made })));
        }
        self.made = self.made.wrapping_add(1);
        r
    }
}

proof fn lemma_no_underscore(s: Seq<char>)
    requires
        forall|i: int| 0 <= i < s.len() ==> is_digit(#[trigger] s[i]),
    ensures
        !s.contains('_'),
{
}

proof fn lemma_tail_digits(stamp: Stamp)
    ensures
        forall|i: int| 0 <= i < tail(stamp).len() ==> is_digit(#[trigger] tail(stamp)[i]),
{
    lemma_hexadecimal_digits(stamp.nanos as nat);
    lemma_hexadecimal_digits(stamp.count as nat);
}

/// Names that are the same were made by the same process and end the same,
/// whatever they were made for; and two made for the same thing are the same
/// exactly then.
pub proof fn law_a_name_says_who_made_it(
    kind: Seq<char>,
    fingerprint: Seq<char>,
    stamp: Stamp,
    other_kind: Seq<char>,
    other_fingerprint: Seq<char>,
    other: Stamp,
)
    ensures
        scratch(kind, fingerprint, stamp) == scratch(other_kind, other_fingerprint, other) ==> stamp.pid
            == other.pid && tail(stamp) == tail(other),
        scratch(kind, fingerprint, stamp) == scratch(kind, fingerprint, other) <==> stamp.pid == other.pid
            && tail(stamp) == tail(other),
{
    lemma_name_pieces(kind, fingerprint, stamp);
    lemma_name_pieces(kind, fingerprint, other);
    lemma_name_pieces(other_kind, other_fingerprint, other);
    let a = split(scratch(kind, fingerprint, stamp), '_');
    let b = split(scratch(other_kind, other_fingerprint, other), '_');
    let c = split(scratch(kind, fingerprint, other), '_');
    if scratch(kind, fingerprint, stamp) == scratch(other_kind, other_fingerprint, other) {
        assert(a == b);
        lemma_decimal_injective(stamp.pid as nat, other.pid as nat);
    }
    if scratch(kind, fingerprint, stamp) == scratch(kind, fingerprint, other) {
        assert(a == c);
        lemma_decimal_injective(stamp.pid as nat, other.pid as nat);
    }
}

proof fn lemma_name_pieces(kind: Seq<char>, fingerprint: Seq<char>, stamp: Stamp)
    ensures
        ({
            let pieces = split(scratch(kind, fingerprint, stamp), '_');
            &&& pieces.len() >= 2
            &&& pieces[pieces.len() - 1] == tail(stamp)
            &&& pieces[pieces.len() - 2] == decimal(stamp.pid as nat)
        }),
{
    let front = "hazir_"@ + kind + seq!['_'] + clip(fingerprint, SHOWN as nat);
    let number = decimal(stamp.pid as nat);
    lemma_tail_digits(stamp);
    lemma_no_underscore(tail(stamp));
    lemma_decimal_digits(stamp.pid as nat);
    assert forall|i: int| 0 <= i < number.len() implies is_digit(#[trigger] number[i]) by {}
    lemma_no_underscore(number);
    lemma_split_push(front, '_', number);
    lemma_split_push(front + seq!['_'] + number, '_', tail(stamp));
}

/// No two names are the same whose process, clock or count differ, unless
/// the clock has more digits in the one and the count has as many more in
/// the other.
pub proof fn law_no_two_names_are_shared(
    kind: Seq<char>,
    fingerprint: Seq<char>,
    stamp: Stamp,
    other_kind: Seq<char>,
    other_fingerprint: Seq<char>,
    other: Stamp,
)
    requires
        stamp != other,
        hexadecimal(stamp.nanos as nat).len() == hexadecimal(other.nanos as nat).len() || tail(stamp).len()
            != tail(other).len(),
    ensures
        scratch(kind, fingerprint, stamp) != scratch(other_kind, other_fingerprint, other),
{
    law_a_name_says_who_made_it(kind, fingerprint, stamp, other_kind, other_fingerprint, other);
    if scratch(kind, fingerprint, stamp) == scratch(other_kind, other_fingerprint, other) {
        let n = hexadecimal(stamp.nanos as nat).len() as int;
        assert(tail(stamp).take(n) =~= hexadecimal(stamp.nanos as nat));
        assert(tail(other).take(n) =~= hexadecimal(other.nanos as nat));
        assert(tail(stamp).skip(n) =~= hexadecimal(stamp.count as nat));
        assert(tail(other).skip(n) =~= hexadecimal(other.count as nat));
        lemma_hexadecimal_injective(stamp.nanos as nat, other.nanos as nat);
        lemma_hexadecimal_injective(stamp.count as nat, other.count as nat);
    }
}

/// Whether a character may stand in an identifier that is not quoted.
pub open spec fn is_word(c: char) -> bool {
    'a' <= c <= 'z' || 'A' <= c <= 'Z' || '0' <= c <= '9' || c == '_'
}

proof fn lemma_hexadecimal_short(n: nat, k: nat)
    requires
        n < vstd::arithmetic::power::pow(16, k),
        k > 0,
    ensures
        hexadecimal(n).len() <= k,
    decreases k,
{
    if n >= 16 {
        assert(k > 1) by {
            if k == 1 {
                vstd::arithmetic::power::lemma_pow1(16);
            }
        }
        vstd::arithmetic::power::lemma_pow_adds(16, 1, (k - 1) as nat);
        vstd::arithmetic::power::lemma_pow1(16);
        assert(n / 16 < vstd::arithmetic::power::pow(16, (k - 1) as nat));
        lemma_hexadecimal_short(n / 16, (k - 1) as nat);
    }
}

proof fn lemma_decimal_short(n: nat, k: nat)
    requires
        n < vstd::arithmetic::power::pow(10, k),
        k > 0,
    ensures
        decimal(n).len() <= k,
    decreases k,
{
    if n >= 10 {
        assert(k > 1) by {
            if k == 1 {
                vstd::arithmetic::power::lemma_pow1(10);
            }
        }
        vstd::arithmetic::power::lemma_pow_adds(10, 1, (k - 1) as nat);
        vstd::arithmetic::power::lemma_pow1(10);
        assert(n / 10 < vstd::arithmetic::power::pow(10, (k - 1) as nat));
        lemma_decimal_short(n / 10, (k - 1) as nat);
    }
}

/// Whether a text holds nothing but what may stand in an identifier.
pub open spec fn is_words(text: Seq<char>) -> bool {
    forall|i: int| 0 <= i < text.len() ==> is_word(#[trigger] text[i])
}

/// A name made for a kind and a fingerprint of letters, digits and
/// underscores holds nothing else.
pub proof fn lemma_a_name_is_words(kind: Seq<char>, fingerprint: Seq<char>, stamp: Stamp)
    requires
        is_words(kind),
        is_words(fingerprint),
    ensures
        is_words(scratch(kind, fingerprint, stamp)),
        clips(fingerprint, SHOWN as nat),
        clip(fingerprint, SHOWN as nat).len() <= SHOWN,
{
    reveal_strlit("hazir_");
    assert(is_ascii_chars(fingerprint));
    lemma_clip_ascii(fingerprint, SHOWN as nat);
    let name = scratch(kind, fingerprint, stamp);
    let shown = clip(fingerprint, SHOWN as nat);
    let number = decimal(stamp.pid as nat);
    let end = tail(stamp);
    lemma_tail_digits(stamp);
    lemma_decimal_digits(stamp.pid as nat);
    let front = "hazir_"@ + kind + seq!['_'];
    assert(is_words(front));
    assert(name =~= front + shown + seq!['_'] + number + seq!['_'] + end);
    assert forall|i: int| 0 <= i < name.len() implies is_word(#[trigger] name[i]) by {
        let a = front.len();
        let b = a + shown.len();
        let c = b + 1 + number.len();
        if i < a {
            assert(name[i] == front[i]);
        } else if i < b {
            assert(name[i] == fingerprint[i - a]);
        } else if b < i < c {
            assert(name[i] == number[i - b - 1]);
        } else if i > c {
            assert(name[i] == end[i - c - 1]);
        }
    }
}

/// A pool schema's name, made for a fingerprint of letters, digits and
/// underscores, is a legal identifier to start with: it begins with `hazir_`,
/// holds nothing else, and is short enough that the server does not cut it.
pub proof fn law_a_name_is_a_legal_identifier(fingerprint: Seq<char>, stamp: Stamp)
    requires
        is_words(fingerprint),
    ensures
        clips(fingerprint, SHOWN as nat),
        "hazir_"@.is_prefix_of(scratch("pool"@, fingerprint, stamp)),
        is_words(scratch("pool"@, fingerprint, stamp)),
        scratch("pool"@, fingerprint, stamp).len() < 64,
{
    reveal_strlit("hazir_");
    reveal_strlit("pool");
    lemma_a_name_is_words("pool"@, fingerprint, stamp);
    let name = scratch("pool"@, fingerprint, stamp);
    assert(vstd::arithmetic::power::pow(16, 16) == 0x1_0000_0000_0000_0000int) by {
        reveal_with_fuel(vstd::arithmetic::power::pow, 17);
    }
    assert(vstd::arithmetic::power::pow(10, 10) == 10_000_000_000int) by {
        reveal_with_fuel(vstd::arithmetic::power::pow, 11);
    }
    lemma_hexadecimal_short(stamp.nanos as nat, 16);
    lemma_hexadecimal_short(stamp.count as nat, 16);
    lemma_decimal_short(stamp.pid as nat, 10);
    assert("hazir_"@ =~= name.subrange(0, "hazir_"@.len() as int));
}

/// Quoting puts a quote on either side and one more beside every quote inside,
/// and changes nothing else: what stands in front of the first quote stays as
/// it is, and what stands after it is quoted in the same way.
pub proof fn law_quoting_adds_nothing_but_quotes(a: Seq<char>, b: Seq<char>)
    requires
        !a.contains('"'),
    ensures
        quoted(a) == seq!['"'] + a + seq!['"'],
        quoted(a + seq!['"'] + b) == seq!['"'] + a + seq!['"', '"'] + quoted(b).skip(1),
{
    let one = seq!['"'];
    let two = seq!['"', '"'];
    let s = a + one + b;
    assert forall|i: int| 0 <= i <= a.len() implies !one.is_prefix_of(#[trigger] a.skip(i)) by {
        if one.is_prefix_of(a.skip(i)) {
            assert(a.skip(i).subrange(0, 1)[0] == '"');
            assert(a[i] == '"');
        }
    }
    assert forall|i: int| 0 <= i < a.len() implies !one.is_prefix_of(#[trigger] s.skip(i)) by {
        if one.is_prefix_of(s.skip(i)) {
            assert(s.skip(i).subrange(0, 1)[0] == '"');
            assert(a[i] == '"');
        }
    }
    law_replacing_swaps_what_is_found(a, one, two, b);
    assert(quoted(b).skip(1) =~= replace(b, one, two) + one);
    assert(quoted(s) =~= one + a + two + quoted(b).skip(1));
}

/// What is cut off a text is the front of it, as many bytes as are asked for
/// or all there are, and not a character more or less.
pub proof fn law_what_is_cut_off_is_the_front(text: Seq<char>, n: nat)
    requires
        clips(text, n),
    ensures
        clip(text, n).is_prefix_of(text),
        encode_utf8(clip(text, n)).len() == (if n < encode_utf8(text).len() {
            n
        } else {
            encode_utf8(text).len()
        }),
{
    let bytes = encode_utf8(text);
    let end = reach(text, n);
    vstd::utf8::encode_utf8_valid_utf8(text);
    vstd::utf8::encode_utf8_decode_utf8(text);
    vstd::utf8::valid_utf8_split(bytes, end);
    vstd::utf8::decode_utf8_split(bytes, end);
    assert(bytes.take(end) =~= bytes.subrange(0, end));
    vstd::utf8::decode_utf8_encode_utf8(bytes.subrange(0, end));
    let front = clip(text, n);
    assert(text == front + decode_utf8(bytes.subrange(end, bytes.len() as int)));
    assert(front =~= text.subrange(0, front.len() as int));
}

proof fn lemma_front_boundary(text: Seq<char>, k: int)
    requires
        0 <= k <= text.len(),
    ensures
        is_char_boundary(encode_utf8(text), encode_utf8(text.take(k)).len() as int),
        encode_utf8(text.take(k)).len() <= encode_utf8(text).len(),
    decreases k,
{
    let bytes = encode_utf8(text);
    vstd::utf8::encode_utf8_valid_utf8(text);
    if k == 0 {
        assert(text.take(k) =~= Seq::<char>::empty());
    } else {
        let rest = text.drop_first();
        let front = text.take(k);
        vstd::utf8::encode_utf8_first_scalar(text);
        vstd::utf8::encode_utf8_first_scalar(front);
        assert(front.drop_first() =~= rest.take(k - 1));
        assert(vstd::utf8::pop_first_scalar(bytes) =~= encode_utf8(rest));
        lemma_front_boundary(rest, k - 1);
        assert(encode_utf8(front).len() == vstd::utf8::length_of_first_scalar(bytes) + encode_utf8(
            rest.take(k - 1),
        ).len());
    }
}

/// A text can be cut wherever one of its characters ends, and behind its end.
pub proof fn law_a_text_can_be_cut_between_characters(text: Seq<char>, k: int, n: nat)
    requires
        0 <= k <= text.len(),
    ensures
        clips(text, encode_utf8(text.take(k)).len()),
        n >= encode_utf8(text).len() ==> clips(text, n) && clip(text, n) == text,
{
    lemma_front_boundary(text, k);
    lemma_front_boundary(text, text.len() as int);
    assert(text.take(text.len() as int) =~= text);
    vstd::utf8::encode_utf8_decode_utf8(text);
    assert(encode_utf8(text).take(encode_utf8(text).len() as int) =~= encode_utf8(text));
}

/// A name says what it is for, then eight bytes of the fingerprint, the
/// process, and the clock and the count, with an underscore between each two.
pub proof fn law_a_name_says_what_it_is_for(kind: Seq<char>, fingerprint: Seq<char>, stamp: Stamp)
    ensures
        scratch(kind, fingerprint, stamp) == "hazir_"@ + kind + "_"@ + clip(fingerprint, 8) + "_"@ + decimal(
            stamp.pid as nat,
        ) + "_"@ + (hexadecimal(stamp.nanos as nat) + hexadecimal(stamp.count as nat)),
{
    reveal_strlit("_");
    assert("_"@ =~= seq!['_']);
}

} // verus!
