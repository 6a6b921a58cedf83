use hazir::lease::Lease;
use hazir::url::{encode, with_search_path};

#[test]
fn a_plain_url_gains_the_option() {
    assert_eq!(
        with_search_path("postgres://u@h/db", "test_1"),
        "postgres://u@h/db?options=-csearch_path%3Dtest_1"
    );
}

#[test]
fn an_existing_query_is_kept() {
    assert_eq!(
        with_search_path("postgres://u@h/db?sslmode=disable", "s"),
        "postgres://u@h/db?sslmode=disable&options=-csearch_path%3Ds"
    );
}

/// Two `options` would leave libpq reading whichever it saw last, and
/// which that is is not something to leave to a driver.
#[test]
fn an_options_already_there_is_replaced_rather_than_joined() {
    let url = with_search_path("postgres://u@h/db?options=-csearch_path%3Dold", "new");
    assert_eq!(url.matches("options=").count(), 1);
    assert!(url.ends_with("options=-csearch_path%3Dnew"));
}

#[test]
fn a_name_that_would_end_the_query_is_encoded() {
    let url = with_search_path("postgres://u@h/db", "od&d ?");
    assert_eq!(
        url,
        "postgres://u@h/db?options=-csearch_path%3Dod%26d%20%3F"
    );
}

#[test]
fn empty_pairs_go_and_others_keep_their_order() {
    assert_eq!(
        with_search_path("p://h/db?&a=1&&options=x&b=2&options=y&", "s"),
        "p://h/db?a=1&b=2&options=-csearch_path%3Ds"
    );
    assert_eq!(with_search_path("p://h/db?", "s"), "p://h/db?options=-csearch_path%3Ds");
    assert_eq!(
        with_search_path("p://h/db?a=1?&optionsx=2&options", "s"),
        "p://h/db?a=1?&optionsx=2&options&options=-csearch_path%3Ds"
    );
}

#[test]
fn pointing_again_replaces() {
    for url in ["p://h/db", "p://h/db?a=1", "p://h/db?options=z&a=1&&"] {
        let once = with_search_path(url, "first");
        assert_eq!(with_search_path(&once, "second"), with_search_path(url, "second"));
    }
}

#[test]
fn every_byte_that_is_not_plain_is_escaped() {
    assert_eq!(encode("AZaz09_-.~"), "AZaz09_-.~");
    assert_eq!(encode("a/b%\u{e9}\u{20ac}"), "a%2Fb%25%C3%A9%E2%82%AC");
    assert_eq!(encode(""), "");
}

#[test]
fn a_lease_is_reached_in_its_schema() {
    let lease = Lease::new("p://h/db?a=1".to_owned(), "s 1".to_owned(), true);
    assert_eq!(lease.url(), "p://h/db?a=1&options=-csearch_path%3Ds%201");
    assert_eq!(lease.schema(), "s 1");
    assert!(lease.burn());
}
