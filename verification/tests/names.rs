use std::collections::HashSet;

use hazir::name::{can_clip, clipped, quote, Names};

fn now() -> u64 {
    std::time::SystemTime::now()
        .duration_since(std::time::UNIX_EPOCH)
        .map(|since| since.as_nanos() as u64)
        .unwrap_or(0)
}

#[test]
fn two_names_asked_for_together_differ() {
    let mut names = Names::new(4711);
    let mut seen = HashSet::new();
    for _ in 0..1000 {
        assert!(seen.insert(names.name_for("abcdef0123456789", now())));
    }
}

#[test]
fn a_name_is_a_legal_identifier_to_start_with() {
    let name = Names::new(4711).name_for("abcdef0123456789", now());
    assert!(name.starts_with("hazir_"));
    assert!(name.chars().all(|c| c.is_ascii_alphanumeric() || c == '_'));
    assert!(name.len() < 64);
}

#[test]
fn a_quote_inside_a_name_cannot_end_the_name() {
    assert_eq!(quote(r#"od"d"#), r#""od""d""#);
}

#[test]
fn a_name_says_what_it_is_for_and_who_made_it() {
    let mut names = Names::new(7);
    assert_eq!(names.name_for("abcdef0123456789", 0xabc), "hazir_pool_abcdef01_7_abc0");
    assert_eq!(names.scratch_name("shape", "abc", 0xabc), "hazir_shape_abc_7_abc1");
    assert_eq!(names.made, 2);
    names.made = u64::MAX;
    assert_eq!(names.scratch_name("template", "", 0), "hazir_template__7_0ffffffffffffffff");
    assert_eq!(names.made, 0);
}

/// Sixteen digits of clock never run into the count; fewer can.
#[test]
fn a_short_clock_can_run_into_the_count() {
    let mut names = Names::new(7);
    names.made = 0x23;
    let one = names.name_for("abc", 0x1);
    names.made = 0x3;
    let other = names.name_for("abc", 0x12);
    assert_eq!(one, other);
}

#[test]
fn nothing_is_cut_in_the_middle_of_a_character() {
    assert!(can_clip("abcdefgh", 8));
    assert!(can_clip("abc", 8));
    assert!(can_clip("abcdef\u{e9}x", 8));
    assert!(!can_clip("abcdefg\u{e9}", 8));
    assert_eq!(clipped("abcdef\u{e9}x", 8), "abcdef\u{e9}");
}

#[test]
fn a_name_of_nothing_but_quotes_is_doubled() {
    assert_eq!(quote(""), "\"\"");
    assert_eq!(quote("\""), "\"\"\"\"");
    assert_eq!(quote("plain"), "\"plain\"");
}
