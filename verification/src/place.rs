//! Where things are: the database, and the tools.

use vstd::prelude::*;

use crate::error::Error;
use crate::text::{is_white, law_trimming_takes_the_white_space_around, trim, trimmed};

verus! {

/// Whether a setting says anything: it is there, and not only white space.
pub open spec fn is_said(setting: Option<String>) -> bool {
    match setting {
        Some(text) => trimmed(text@).len() > 0,
        None => false,
    }
}

/// Whether a setting says anything.
fn said(setting: &Option<String>) -> (r: bool)
    ensures
        r == is_said(*setting),
{
    match setting {
        Some(text) => !trim(text.as_str()).as_str().is_empty(),
        None => false,
    }
}

/// The first setting that says anything.
pub open spec fn first_said(settings: Seq<Option<String>>) -> Option<String>
    decreases settings.len(),
{
    if settings.len() == 0 {
        None
    } else if is_said(settings[0]) {
        settings[0]
    } else {
        first_said(settings.skip(1))
    }
}

/// Where the pool is: what `HAZIR_URL` says, or `TEST_DATABASE_URL`, or
/// `DATABASE_URL`, in that order.
///
/// `TEST_DATABASE_URL` as well as this crate's own name, because that is what
/// most suites already set and asking them to set a second one that means the
/// same thing is how the two drift apart. There is no default: a url guessed
/// here would either fail to connect, or connect to something somebody was
/// using.
pub fn env_url(
    hazir_url: Option<String>,
    test_database_url: Option<String>,
    database_url: Option<String>,
) -> (r: Result<String, Error>)
    ensures
        r == (match first_said(seq![hazir_url, test_database_url, database_url]) {
            Some(url) => Ok(url),
            None => Err(Error::NoUrl),
        }),
{
    proof {
        let all = seq![hazir_url, test_database_url, database_url];
        reveal_with_fuel(first_said, 4);
        assert(all.skip(1)[0] == test_database_url);
        assert(all.skip(1).skip(1)[0] == database_url);
    }
    if said(&hazir_url) {
        if let Some(url) = hazir_url {
            return Ok(url);
        }
    }
    if said(&test_database_url) {
        if let Some(url) = test_database_url {
            return Ok(url);
        }
    }
    if said(&database_url) {
        if let Some(url) = database_url {
            return Ok(url);
        }
    }
    Err(Error::NoUrl)
}

/// Which `pg_dump` to run: what `HAZIR_PG_DUMP` says, or the one on PATH.
///
/// `HAZIR_PG_DUMP` because the one on PATH is often the wrong one and often
/// not replaceable: pg_dump refuses a server newer than itself.
pub fn pg_dump(named: Option<String>) -> (r: String)
    ensures
        match named {
            Some(path) if is_said(named) => r == path,
            _ => r@ == "pg_dump"@,
        },
{
    if said(&named) {
        if let Some(path) = named {
            return path;
        }
    }
    "pg_dump".to_owned()
}

/// A setting says something exactly where there is a character in it that is
/// not white space.
pub proof fn law_a_setting_says_something_or_is_blank(text: String)
    ensures
        !is_said(None),
        is_said(Some(text)) <==> exists|i: int| 0 <= i < text@.len() && !is_white(#[trigger] text@[i]),
{
    let s = text@;
    let (front, back) = law_trimming_takes_the_white_space_around(s);
    let middle = trimmed(s);
    if middle.len() > 0 {
        assert(s[front.len() as int] == middle[0]);
    } else {
        assert forall|i: int| 0 <= i < s.len() implies is_white(#[trigger] s[i]) by {
            if i < front.len() {
                assert(s[i] == front[i]);
            } else {
                assert(s[i] == back[i - front.len()]);
            }
        }
    }
}

/// The setting that counts is the first that says anything, as it was said,
/// whatever the ones behind it say; where none does, there is none.
pub proof fn law_the_first_setting_that_says_anything_counts(
    blank: Seq<Option<String>>,
    one: Option<String>,
    rest: Seq<Option<String>>,
)
    requires
        forall|i: int| 0 <= i < blank.len() ==> !is_said(#[trigger] blank[i]),
    ensures
        first_said(blank) is None,
        is_said(one) ==> first_said(blank + seq![one] + rest) == one,
    decreases blank.len(),
{
    let all = blank + seq![one] + rest;
    if blank.len() > 0 {
        assert(!is_said(blank[0]));
        assert forall|i: int| 0 <= i < blank.skip(1).len() implies !is_said(#[trigger] blank.skip(1)[i]) by {
            assert(blank.skip(1)[i] == blank[i + 1]);
        }
        law_the_first_setting_that_says_anything_counts(blank.skip(1), one, rest);
        assert(all.skip(1) =~= blank.skip(1) + seq![one] + rest);
        assert(all[0] == blank[0]);
    } else {
        assert(all[0] == one);
    }
}

} // verus!
