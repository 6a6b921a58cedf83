//! Pointing a connection string at one schema.
//!
//! Through libpq's `options`, rather than through anything a particular
//! driver understands, so that what a lease hands back is a url every Rust
//! Postgres client already knows how to open.

use vstd::prelude::*;
use vstd::utf8::{decode_utf8, encode_utf8};

use crate::text::{
    before, chars_of, join, join_chars, lemma_before, lemma_before_is_free, lemma_split_free,
    lemma_split_join, length_before, push_all, split, split_chars, stands_at, string_of, views,
};

verus! {

/// Whether a byte may stand in a url as it is.
pub open spec fn is_plain(b: u8) -> bool {
    ||| 65 <= b <= 90
    ||| 97 <= b <= 122
    ||| 48 <= b <= 57
    ||| b == 95
    ||| b == 45
    ||| b == 46
    ||| b == 126
}

/// The character for a value below sixteen, in upper case.
pub open spec fn upper_digit(d: int) -> char {
    if d < 10 {
        (48 + d) as char
    } else {
        (55 + d) as char
    }
}

/// One byte as it is written in a url.
pub open spec fn escaped(b: u8) -> Seq<char> {
    if is_plain(b) {
        seq![b as char]
    } else {
        seq!['%', upper_digit((b / 16) as int), upper_digit((b % 16) as int)]
    }
}

/// Bytes in percent-encoding.
pub open spec fn percent_encoded(bytes: Seq<u8>) -> Seq<char>
    decreases bytes.len(),
{
    if bytes.len() == 0 {
        Seq::<char>::empty()
    } else {
        escaped(bytes[0]) + percent_encoded(bytes.skip(1))
    }
}

/// The pair that sets `search_path` to one schema and nothing after it.
pub open spec fn option_for(schema: Seq<char>) -> Seq<char> {
    "options=-csearch_path%3D"@ + percent_encoded(encode_utf8(schema))
}

/// What a url says before its query.
pub open spec fn base(url: Seq<char>) -> Seq<char> {
    before(url, '?')
}

/// The pairs of a url's query; none where it has no query.
pub open spec fn pairs(url: Seq<char>) -> Seq<Seq<char>> {
    if base(url).len() < url.len() {
        split(url.skip(base(url).len() as int + 1), '&')
    } else {
        Seq::<Seq<char>>::empty()
    }
}

/// Whether a pair sets libpq's `options`.
pub open spec fn sets_options(pair: Seq<char>) -> bool {
    "options="@.is_prefix_of(pair)
}

/// Whether a pair is still there once the url is pointed at a schema.
pub open spec fn is_kept(pair: Seq<char>) -> bool {
    pair.len() > 0 && !sets_options(pair)
}

/// The pairs that stay.
pub open spec fn kept(all: Seq<Seq<char>>) -> Seq<Seq<char>> {
    all.filter(|pair: Seq<char>| is_kept(pair))
}

/// The same url, with `search_path` set to one schema and nothing after it.
pub open spec fn pointed_at(url: Seq<char>, schema: Seq<char>) -> Seq<char> {
    base(url) + seq!['?'] + join(kept(pairs(url)).push(option_for(schema)), seq!['&'])
}

/// The character for a value below sixteen, in upper case.
fn upper_digit_of(d: u8) -> (r: char)
    requires
        d < 16,
    ensures
        r == upper_digit(d as int),
{
    if d < 10 {
        (48 + d) as char
    } else {
        (55 + d) as char
    }
}

/// Percent-encoding for the characters a schema name may carry that would
/// otherwise end the option or the query.
pub fn encode(schema: &str) -> (r: String)
    ensures
        r@ == percent_encoded(encode_utf8(schema@)),
{
    let bytes = schema.as_bytes();
    let mut r = String::new();
    proof {
        assert(bytes@.skip(0) =~= bytes@);
        assert(r@ + percent_encoded(bytes@.skip(0)) =~= percent_encoded(bytes@));
    }
    for i in 0..bytes.len()
        invariant
            r@ + percent_encoded(bytes@.skip(i as int)) == percent_encoded(bytes@),
    {
        let b = bytes[i];
        let ghost rest = bytes@.skip(i as int);
        let ghost so_far = r@;
        proof {
            assert(rest.skip(1) =~= bytes@.skip(i + 1));
        }
        if (65 <= b && b <= 90) || (97 <= b && b <= 122) || (48 <= b && b <= 57) || b == 95 || b == 45 || b
            == 46 || b == 126 {
            r.push(b as char);
        } else {
            r.push('%');
            r.push(upper_digit_of(b / 16));
            r.push(upper_digit_of(b % 16));
        }
        proof {
            assert(r@ =~= so_far + escaped(b));
            assert(r@ + percent_encoded(rest.skip(1)) =~= so_far + percent_encoded(rest));
        }
    }
    proof {
        assert(bytes@.skip(bytes@.len() as int) =~= Seq::<u8>::empty());
        assert(r@ + Seq::<char>::empty() =~= r@);
    }
    r
}

/// The same url, with `search_path` set to one schema and nothing after it.
///
/// Nothing after it on purpose: a search path with `public` still on the end
/// is what lets a test read a table it never made and pass for the wrong
/// reason.
pub fn with_search_path(url: &str, schema: &str) -> (r: String)
    ensures
        r@ == pointed_at(url@, schema@),
{
    let chars = chars_of(url);
    let cut = length_before(chars.as_slice(), '?');
    let mark = chars_of("options=");
    let mut option = chars_of("options=-csearch_path%3D");
    let name = chars_of(encode(schema).as_str());
    push_all(&mut option, name.as_slice());

    let mut parts: Vec<Vec<char>> = Vec::new();
    let ghost all = pairs(url@);
    if cut < chars.len() {
        let query = vstd::slice::slice_subrange(chars.as_slice(), cut + 1, chars.len());
        let found = split_chars(query, '&');
        proof {
            assert(query@ =~= url@.skip(cut + 1));
            assert(views(found@) == all);
            assert(kept(all.take(0)) =~= views(parts@));
        }
        for i in 0..found.len()
            invariant
                mark@ == "options="@,
                views(found@) == all,
                views(parts@) == kept(all.take(i as int)),
        {
            let ghost so_far = all.take(i + 1);
            proof {
                assert(so_far.drop_last() =~= all.take(i as int));
                assert(so_far.last() == found@[i as int]@);
                reveal_with_fuel(Seq::filter, 1);
            }
            let pair = &found[i];
            if pair.len() > 0 && !stands_at(pair.as_slice(), 0, mark.as_slice()) {
                let mut copy: Vec<char> = Vec::new();
                push_all(&mut copy, pair.as_slice());
                proof {
                    assert(copy@ =~= pair@);
                    assert(views(parts@.push(copy)) =~= views(parts@).push(copy@));
                }
                parts.push(copy);
            }
        }
        proof {
            assert(all.take(all.len() as int) =~= all);
        }
    } else {
        proof {
            assert(kept(all) =~= views(parts@)) by {
                reveal_with_fuel(Seq::filter, 1);
            }
        }
    }
    proof {
        assert(views(parts@.push(option)) =~= views(parts@).push(option@));
    }
    parts.push(option);

    let mut r = vstd::slice::slice_to_vec(vstd::slice::slice_subrange(chars.as_slice(), 0, cut));
    r.push('?');
    let between: Vec<char> = vec!['&'];
    push_all(&mut r, join_chars(&parts, between.as_slice()).as_slice());
    proof {
        assert(between@ =~= seq!['&']);
        assert(r@ =~= pointed_at(url@, schema@));
    }
    string_of(r.as_slice())
}

/// The value of an upper case hexadecimal digit.
pub open spec fn upper_value(c: char) -> int {
    if c <= '9' {
        c as int - 48
    } else {
        c as int - 55
    }
}

/// The bytes that percent-encoded text stands for.
pub open spec fn percent_decoded(s: Seq<char>) -> Seq<u8>
    decreases s.len(),
{
    if s.len() == 0 {
        Seq::<u8>::empty()
    } else if s[0] == '%' && s.len() >= 3 {
        seq![(16 * upper_value(s[1]) + upper_value(s[2])) as u8] + percent_decoded(s.skip(3))
    } else {
        seq![s[0] as u8] + percent_decoded(s.skip(1))
    }
}

/// Whether a character cannot end an option, a pair or a query.
pub open spec fn is_harmless(c: char) -> bool {
    c == '%' || (c as u32 <= 255 && is_plain(c as u8))
}

proof fn lemma_escaped_back(b: u8, rest: Seq<char>)
    ensures
        percent_decoded(escaped(b) + rest) == seq![b] + percent_decoded(rest),
{
    let s = escaped(b) + rest;
    if is_plain(b) {
        assert(s[0] == b as char);
        assert(s.skip(1) =~= rest);
        assert((b as char) as u8 == b);
    } else {
        assert(s[0] == '%');
        assert(s.skip(3) =~= rest);
        assert(upper_value(s[1]) == b / 16);
        assert(upper_value(s[2]) == b % 16);
        assert(16 * (b / 16) + b % 16 == b);
    }
}

proof fn lemma_percent_back(bytes: Seq<u8>)
    ensures
        percent_decoded(percent_encoded(bytes)) == bytes,
    decreases bytes.len(),
{
    if bytes.len() > 0 {
        lemma_percent_back(bytes.skip(1));
        lemma_escaped_back(bytes[0], percent_encoded(bytes.skip(1)));
        assert(seq![bytes[0]] + bytes.skip(1) =~= bytes);
    }
}

proof fn lemma_percent_harmless(bytes: Seq<u8>)
    ensures
        forall|i: int|
            0 <= i < percent_encoded(bytes).len() ==> is_harmless(#[trigger] percent_encoded(bytes)[i]),
    decreases bytes.len(),
{
    if bytes.len() > 0 {
        lemma_percent_harmless(bytes.skip(1));
        let head = escaped(bytes[0]);
        let tail = percent_encoded(bytes.skip(1));
        assert forall|i: int| 0 <= i < (head + tail).len() implies is_harmless(#[trigger] (head + tail)[i]) by {
            if i >= head.len() {
                assert((head + tail)[i] == tail[i - head.len()]);
            }
        }
    }
}

/// A name written into the option is read out of it again as it was, and
/// carries no character that would end the option, the pair or the query.
pub proof fn law_a_name_survives_the_option(schema: Seq<char>)
    ensures
        decode_utf8(percent_decoded(percent_encoded(encode_utf8(schema)))) == schema,
        forall|i: int|
            0 <= i < percent_encoded(encode_utf8(schema)).len() ==> is_harmless(
                #[trigger] percent_encoded(encode_utf8(schema))[i],
            ),
{
    let bytes = encode_utf8(schema);
    lemma_percent_back(bytes);
    lemma_percent_harmless(bytes);
    vstd::utf8::encode_utf8_decode_utf8(schema);
}

/// Two schemas whose options read alike are one schema.
pub proof fn law_options_tell_schemas_apart(one: Seq<char>, other: Seq<char>)
    requires
        option_for(one) == option_for(other),
    ensures
        one == other,
{
    let mark = "options=-csearch_path%3D"@;
    let a = percent_encoded(encode_utf8(one));
    let b = percent_encoded(encode_utf8(other));
    assert(option_for(one).skip(mark.len() as int) =~= a);
    assert(option_for(other).skip(mark.len() as int) =~= b);
    law_a_name_survives_the_option(one);
    law_a_name_survives_the_option(other);
}

proof fn lemma_option_free(schema: Seq<char>)
    ensures
        !option_for(schema).contains('&'),
        sets_options(option_for(schema)),
{
    reveal_strlit("options=-csearch_path%3D");
    reveal_strlit("options=");
    let mark = "options=-csearch_path%3D"@;
    let name = percent_encoded(encode_utf8(schema));
    lemma_percent_harmless(encode_utf8(schema));
    assert forall|i: int| 0 <= i < (mark + name).len() implies (mark + name)[i] != '&' by {
        if i >= mark.len() {
            assert((mark + name)[i] == name[i - mark.len()]);
        }
    }
    assert("options="@ =~= option_for(schema).subrange(0, "options="@.len() as int));
}

proof fn lemma_kept_free(all: Seq<Seq<char>>)
    requires
        forall|i: int| 0 <= i < all.len() ==> !(#[trigger] all[i]).contains('&'),
    ensures
        forall|i: int| 0 <= i < kept(all).len() ==> !(#[trigger] kept(all)[i]).contains('&') && is_kept(
            kept(all)[i],
        ),
        kept(kept(all)) == kept(all),
    decreases all.len(),
{
    reveal_with_fuel(Seq::filter, 1);
    if all.len() > 0 {
        let short = all.drop_last();
        assert forall|i: int| 0 <= i < short.len() implies !(#[trigger] short[i]).contains('&') by {
            assert(short[i] == all[i]);
        }
        lemma_kept_free(short);
        assert(all[all.len() - 1] == all.last());
        if is_kept(all.last()) {
            assert(kept(all) == kept(short).push(all.last()));
            assert(kept(all).drop_last() =~= kept(short));
        } else {
            assert(kept(all) == kept(short));
        }
    }
}

/// A url pointed at a schema keeps its base and, in their order, the pairs
/// that said something other than `options`; the one pair that sets
/// `options` is the last, and names this schema.
pub proof fn law_one_option_and_it_is_last(url: Seq<char>, schema: Seq<char>)
    ensures
        base(pointed_at(url, schema)) == base(url),
        pairs(pointed_at(url, schema)) == kept(pairs(url)).push(option_for(schema)),
        forall|i: int|
            0 <= i < pairs(pointed_at(url, schema)).len() ==> (sets_options(
                #[trigger] pairs(pointed_at(url, schema))[i],
            ) <==> i == pairs(pointed_at(url, schema)).len() - 1),
{
    let parts = kept(pairs(url)).push(option_for(schema));
    let query = join(parts, seq!['&']);
    let whole = pointed_at(url, schema);
    lemma_before_is_free(url, '?');
    lemma_before(base(url), '?', query);
    assert(whole.skip(base(url).len() as int + 1) =~= query);
    lemma_option_free(schema);
    if base(url).len() < url.len() {
        lemma_split_free(url.skip(base(url).len() as int + 1), '&');
    }
    lemma_kept_free(pairs(url));
    assert forall|i: int| 0 <= i < parts.len() implies !(#[trigger] parts[i]).contains('&') by {
        if i < parts.len() - 1 {
            assert(parts[i] == kept(pairs(url))[i]);
        }
    }
    lemma_split_join(parts, '&');
    assert forall|i: int| 0 <= i < pairs(whole).len() implies (sets_options(#[trigger] pairs(whole)[i]) <==> i
        == pairs(whole).len() - 1) by {
        if i < parts.len() - 1 {
            assert(parts[i] == kept(pairs(url))[i]);
        }
    }
}

/// Pointing a url at one schema and then at another is pointing it at the
/// other: nothing of the first is left.
pub proof fn law_pointing_again_replaces(url: Seq<char>, first: Seq<char>, second: Seq<char>)
    ensures
        pointed_at(pointed_at(url, first), second) == pointed_at(url, second),
{
    law_one_option_and_it_is_last(url, first);
    lemma_option_free(first);
    let once = pairs(pointed_at(url, first));
    if base(url).len() < url.len() {
        lemma_split_free(url.skip(base(url).len() as int + 1), '&');
    }
    lemma_kept_free(pairs(url));
    assert(once.drop_last() =~= kept(pairs(url)));
    assert(kept(once) == kept(pairs(url))) by {
        reveal_with_fuel(Seq::filter, 1);
    }
}

/// Letters, digits and four marks stand in a url as they are; every other byte
/// is a per cent sign and its two digits. Bytes are written one by one.
pub proof fn law_each_byte_is_written_by_itself(b: u8, front: Seq<u8>, back: Seq<u8>)
    ensures
        ({
            let c = b as char;
            if 'A' <= c <= 'Z' || 'a' <= c <= 'z' || '0' <= c <= '9' || c == '_' || c == '-' || c == '.' || c == '~' {
                percent_encoded(seq![b]) == seq![c]
            } else {
                percent_encoded(seq![b]) == seq![
                    '%',
                    "0123456789ABCDEF"@[b as int / 16],
                    "0123456789ABCDEF"@[b as int % 16],
                ]
            }
        }),
        percent_encoded(front + back) == percent_encoded(front) + percent_encoded(back),
    decreases front.len(),
{
    reveal_strlit("0123456789ABCDEF");
    assert(seq![b].skip(1) =~= Seq::<u8>::empty());
    reveal_with_fuel(percent_encoded, 2);
    assert(seq![b][0] == b);
    assert(percent_encoded(seq![b]) =~= escaped(b));
    if front.len() == 0 {
        assert(front + back =~= back);
        assert(percent_encoded(front) + percent_encoded(back) =~= percent_encoded(back));
    } else {
        law_each_byte_is_written_by_itself(b, front.skip(1), back);
        assert((front + back).skip(1) =~= front.skip(1) + back);
        assert(percent_encoded(front + back) =~= percent_encoded(front) + percent_encoded(back));
    }
}

/// Pointed at a schema, a url without a query gains one that says so. One with
/// a query keeps everything in front of it, and of its pairs every one that
/// holds something and does not set `options`, in their order, with the
/// option behind them.
pub proof fn law_a_url_keeps_what_else_it_says(front: Seq<char>, all: Seq<Seq<char>>, schema: Seq<char>)
    requires
        !front.contains('?'),
        all.len() > 0,
        forall|i: int| 0 <= i < all.len() ==> !(#[trigger] all[i]).contains('&'),
    ensures
        ({
            let option = "options=-csearch_path%3D"@ + percent_encoded(encode_utf8(schema));
            let others = all.filter(|pair: Seq<char>| pair.len() > 0 && !"options="@.is_prefix_of(pair));
            &&& pointed_at(front, schema) == front + "?"@ + option
            &&& pointed_at(front + "?"@ + join(all, "&"@), schema) == front + "?"@ + join(
                others.push(option),
                "&"@,
            )
        }),
{
    reveal_strlit("?");
    reveal_strlit("&");
    assert("?"@ =~= seq!['?']);
    assert("&"@ =~= seq!['&']);
    let option = option_for(schema);
    let query = join(all, seq!['&']);
    lemma_before(front, '?', query);
    lemma_before_is_free(front, '?');
    assert(base(front) == front) by {
        let n = base(front).len();
        if n < front.len() {
            assert(front.contains(front[n as int]));
        } else {
            assert(front.take(n as int) =~= front);
        }
    }
    assert(kept(Seq::<Seq<char>>::empty()) =~= Seq::<Seq<char>>::empty()) by {
        reveal_with_fuel(Seq::filter, 1);
    }
    assert(Seq::<Seq<char>>::empty().push(option) =~= seq![option]);
    assert(pointed_at(front, schema) =~= front + "?"@ + option);
    let whole = front + seq!['?'] + query;
    assert(whole.skip(front.len() as int + 1) =~= query);
    lemma_split_join(all, '&');
    let wanted = |pair: Seq<char>| pair.len() > 0 && !"options="@.is_prefix_of(pair);
    let kept_ones = |pair: Seq<char>| is_kept(pair);
    assert(wanted =~= kept_ones);
}

} // verus!
