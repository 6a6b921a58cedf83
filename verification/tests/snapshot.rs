use hazir::snapshot::{read_all, tidy};
use hazir::sources::{hashed_bytes, hex, sort, SourceFile, Tree};
use hazir::{fingerprint, sql_files, Apply, Recipe, PLACEHOLDER};

fn source(path: &str, content: &str) -> SourceFile {
    SourceFile {
        path: path.as_bytes().to_vec(),
        content: content.as_bytes().to_vec(),
    }
}

fn file(path: &str, content: &str) -> Tree {
    Tree::File(source(path, content))
}

fn directory(path: &str, entries: Vec<Tree>) -> Tree {
    Tree::Directory {
        path: path.as_bytes().to_vec(),
        entries,
    }
}

#[test]
fn the_recipe_is_part_of_what_is_hashed() {
    assert_ne!(
        fingerprint(vec![], &Recipe::Command("one".into())),
        fingerprint(vec![], &Recipe::Command("another".into()))
    );
    assert_ne!(
        fingerprint(vec![], &Recipe::Sql(vec![])),
        fingerprint(vec![], &Recipe::Command("sql".into()))
    );
}

#[test]
fn the_same_input_hashes_the_same_way_twice() {
    let sources = || vec![directory("src", vec![file("src/lib.rs", "mod a;"), file("src/a.rs", "")])];
    let recipe = Recipe::Command("x".into());
    assert_eq!(
        fingerprint(sources(), &recipe),
        fingerprint(sources(), &recipe)
    );
}

/// What a build wrote is derived from what is already hashed, and hashing
/// it too would throw the pool away on every build.
#[test]
fn a_target_directory_is_not_looked_at() {
    let recipe = Recipe::Command("x".into());

    let before = fingerprint(
        vec![directory(
            "hazir-fp",
            vec![file("hazir-fp/a.sql", "create table a ();"), directory("hazir-fp/target", vec![])],
        )],
        &recipe,
    );
    let after = fingerprint(
        vec![directory(
            "hazir-fp",
            vec![
                file("hazir-fp/a.sql", "create table a ();"),
                directory("hazir-fp/target", vec![file("hazir-fp/target/rubbish", "anything")]),
            ],
        )],
        &recipe,
    );

    assert_eq!(before, after);
}

#[test]
fn sql_is_pointed_at_a_schema_rather_than_rewritten() {
    let built = Apply::SearchPath.statements("CREATE TABLE a ();", "s");
    assert!(built.starts_with("SET search_path TO \"s\";"));
    assert!(built.contains("CREATE TABLE a ();"));
    assert!(built.trim_end().ends_with("RESET search_path;"));
}

#[test]
fn a_dump_has_its_token_swapped() {
    let built = Apply::Placeholder.statements("CREATE TABLE @hazir_schema@.\"a\" ();", "s");
    assert_eq!(built, "CREATE TABLE \"s\".\"a\" ();");
}

#[test]
fn how_to_apply_survives_being_written_down() {
    for one in [Apply::SearchPath, Apply::Placeholder] {
        assert_eq!(Apply::from_name(one.name()), one);
    }
}

/// The dump a Postgres 18 actually produces, in miniature.
#[test]
fn what_pg_dump_wraps_a_dump_in_is_taken_back_off() {
    let dumped = [
        "--\n",
        "-- PostgreSQL database dump\n",
        "--\n",
        "\n",
        "\\restrict RZzJ6DyJpEzvTvMo3Hn18oVUtwXfFskKfFDdZOokpFS\n",
        "\n",
        "SET statement_timeout = 0;\n",
        "CREATE SCHEMA \"hazir_template_abc\";\n",
        "CREATE TABLE \"hazir_template_abc\".\"site\" (\n",
        "    \"id\" bigint NOT NULL\n",
        ");\n",
        "\n",
        "\\unrestrict RZzJ6DyJpEzvTvMo3Hn18oVUtwXfFskKfFDdZOokpFS\n",
    ]
    .concat();

    let tidied = tidy(&dumped, "hazir_template_abc");

    assert!(!tidied.contains("restrict"), "{tidied}");
    assert!(!tidied.contains("CREATE SCHEMA"), "{tidied}");
    assert!(!tidied.contains("hazir_template_abc"), "{tidied}");
    assert!(
        tidied.contains("CREATE TABLE @hazir_schema@.\"site\""),
        "{tidied}"
    );
    assert!(tidied.contains("SET statement_timeout = 0;"), "{tidied}");
}

/// An indented backslash is somebody's function body, not psql's.
#[test]
fn a_backslash_inside_a_statement_is_left_alone() {
    let dumped = [
        "CREATE FUNCTION \"hazir_template_abc\".\"f\"() RETURNS text AS $$\n",
        "    \\ this line belongs to the body\n",
        "$$ LANGUAGE sql;\n",
    ]
    .concat();
    let tidied = tidy(&dumped, "hazir_template_abc");
    assert!(tidied.contains("belongs to the body"), "{tidied}");
    assert!(tidied.contains("$$ LANGUAGE sql;"), "{tidied}");
}

#[test]
fn hex_is_two_characters_a_byte() {
    assert_eq!(hex(&[0, 15, 16, 255]), "000f10ff");
}

#[test]
fn the_token_is_what_a_stored_snapshot_carries() {
    assert_eq!(PLACEHOLDER, "@hazir_schema@");
}

#[test]
fn a_fingerprint_is_the_digest_of_what_is_hashed() {
    assert_eq!(
        fingerprint(
            vec![directory("m", vec![file("m/a.sql", "create table a ();")])],
            &Recipe::Command("x".into())
        ),
        "7345c20f70a7306d622ba0e4568a1b661807a34dfe28e2026251f1155cfa7238"
    );
    assert_eq!(
        fingerprint(vec![Tree::Other], &Recipe::Sql(vec![b"ignored.sql".to_vec()])),
        "f10afd528709a68946806200173f9ca594d2783566814916857ed7eae3246cc9"
    );
}

/// Part by part, as paths sort: what is in `m/a` before `m/a.sql`.
#[test]
fn files_are_hashed_in_the_order_of_their_paths() {
    let sources = vec![
        file("m/b.sql", "3"),
        directory("m", vec![file("m/a.sql", "2"), directory("m/a", vec![file("m/a/z.sql", "1")])]),
    ];
    assert_eq!(fingerprint(sources, &Recipe::Sql(vec![])), "dd97d0a63fcd09581c891b4f55785cd27d3880da2b3a16d71a7f9d13368a0ce8");
}

#[test]
fn a_path_that_is_not_text_is_hashed_as_what_it_reads_like() {
    let odd = Tree::File(SourceFile { path: b"m/\xff.sql".to_vec(), content: b"1".to_vec() });
    assert_eq!(fingerprint(vec![odd], &Recipe::Sql(vec![])), "84e8b2c228dc6db6d6b36452214167ff637c01108b703ab2d34bc4e500e4fe0e");
}

#[test]
fn what_is_hashed_is_framed_by_zero_bytes() {
    let files = vec![source("a", "x"), source("b", "")];
    assert_eq!(hashed_bytes(&Recipe::Sql(vec![]), &files), b"sql\0a\0x\0b\0\0".to_vec());
    assert_eq!(
        hashed_bytes(&Recipe::Command("run it".into()), &vec![]),
        b"commandrun it\0".to_vec()
    );
    // A zero byte inside a file can stand for the end of it.
    let one = vec![source("a", "x\0b\0")];
    assert_eq!(hashed_bytes(&Recipe::Sql(vec![]), &one), hashed_bytes(&Recipe::Sql(vec![]), &files));
}

#[test]
fn the_order_of_the_walk_does_not_matter() {
    let recipe = Recipe::Sql(vec![]);
    let one = vec![file("a", "1"), file("b", "2"), file("c", "3")];
    let other = vec![file("c", "3"), file("a", "1"), file("b", "2")];
    assert_eq!(fingerprint(one, &recipe), fingerprint(other, &recipe));
    assert_ne!(
        fingerprint(vec![file("a", "1")], &recipe),
        fingerprint(vec![file("a", "2")], &recipe)
    );
}

#[test]
fn sql_files_are_those_whose_names_say_so_in_order() {
    let tree = directory(
        "m",
        vec![
            file("m/20.sql", ""),
            file("m/.sql", ""),
            file("m/10.sql", ""),
            file("m/notes.md", ""),
            file("m/x.sqlx", ""),
            file("m/sql", ""),
            directory("m/target", vec![file("m/target/30.sql", "")]),
            directory("m/10", vec![file("m/10/x.SQL", ""), file("m/10/..sql", "")]),
            Tree::Other,
        ],
    );
    let found: Vec<String> = sql_files(tree)
        .into_iter()
        .map(|path| String::from_utf8(path).unwrap())
        .collect();
    assert_eq!(found, ["m/10/..sql", "m/10.sql", "m/20.sql"]);
}

/// The root itself is looked at, whatever it is called.
#[test]
fn a_root_called_target_is_looked_at() {
    let tree = directory("target", vec![file("target/1.sql", "")]);
    assert_eq!(sql_files(tree), [b"target/1.sql".to_vec()]);
    assert_eq!(sql_files(file("one.sql", "")), [b"one.sql".to_vec()]);
}

#[test]
fn each_file_is_ended() {
    let files = |all: &[&str]| all.iter().map(|text| text.to_string()).collect::<Vec<String>>();
    assert_eq!(read_all(&files(&[])), "");
    assert_eq!(read_all(&files(&["a"])), "a\n;\n");
    assert_eq!(read_all(&files(&["a\n", "b", ""])), "a\n;\nb\n;\n;\n");
    assert_eq!(read_all(&files(&["", "b"])), "\n;\nb\n;\n");
}

#[test]
fn sql_is_run_as_written_between_setting_the_path_and_putting_it_back() {
    assert_eq!(
        Apply::SearchPath.statements("X", "a\"b"),
        "SET search_path TO \"a\"\"b\";\nX\n;RESET search_path;"
    );
}

#[test]
fn a_name_that_is_not_known_means_as_written() {
    assert_eq!(Apply::from_name("anything"), Apply::SearchPath);
    assert_eq!(Apply::SearchPath.name(), "search_path");
    assert_eq!(Apply::Placeholder.name(), "placeholder");
}

#[test]
fn lines_end_as_rust_has_them_end() {
    for dumped in ["", "a", "a\n", "a\r\nb\r", "\r\n\n", "a\rb\n\nc"] {
        let lines: Vec<&str> = dumped.lines().collect();
        assert_eq!(tidy(dumped, "zzz"), lines.join("\n"), "{dumped:?}");
    }
}

#[test]
fn a_name_is_replaced_as_rust_replaces_it() {
    for (text, from) in [("aaaa", "aa"), ("abab", "ab"), ("xaby", "ab"), ("", "ab"), ("aab", "ab"), ("abc", "")] {
        let quoted = format!("\"{from}\"");
        let wanted = text.replace(&quoted, PLACEHOLDER).replace(from, PLACEHOLDER);
        assert_eq!(tidy(text, from), if text.is_empty() { String::new() } else { wanted }, "{text} {from}");
    }
}

#[test]
fn a_dump_is_rebuilt_under_another_name() {
    let dumped = "SET x;\nCREATE SCHEMA \"t\";\nCREATE TABLE \"t\".\"a\" ();\nINSERT INTO \"t\".\"a\";\n";
    let kept = tidy(dumped, "t_1");
    assert_eq!(kept, "SET x;\nCREATE TABLE \"t\".\"a\" ();\nINSERT INTO \"t\".\"a\";");
    let dumped = "CREATE TABLE \"t_1\".\"a\" ();\nSELECT 1;\n";
    let ddl = tidy(dumped, "t_1");
    assert_eq!(
        Apply::Placeholder.statements(&ddl, "s"),
        "CREATE TABLE \"s\".\"a\" ();\nSELECT 1;"
    );
}

#[test]
fn files_in_one_place_keep_the_order_they_came_in() {
    let recipe = Recipe::Sql(vec![]);
    let one = source("m/a.sql", "one");
    let other = source("m//a.sql", "other");
    let last = source("m/b.sql", "last");
    let forth = sort(vec![
        source("m/b.sql", "last"),
        source("m/a.sql", "one"),
        source("m//a.sql", "other"),
    ]);
    let back = sort(vec![
        source("m//a.sql", "other"),
        source("m/b.sql", "last"),
        source("m/a.sql", "one"),
    ]);
    assert_eq!(
        hashed_bytes(&recipe, &forth),
        hashed_bytes(&recipe, &vec![source("m/a.sql", "one"), source("m//a.sql", "other"), source("m/b.sql", "last")])
    );
    assert_eq!(hashed_bytes(&recipe, &back), hashed_bytes(&recipe, &vec![other, one, last]));
}

#[test]
fn what_a_build_wrote_moves_no_fingerprint_at_any_depth() {
    let tree = |rubbish: &str, swapped: bool| {
        let mut inner = vec![
            file("m/x/1.sql", "one"),
            directory("m/x/target", vec![file("m/x/target/o", rubbish)]),
            file("m/x/2.sql", "two"),
        ];
        if swapped {
            inner.reverse();
        }
        let mut outer = vec![file("m/0.sql", "zero"), directory("m/x", inner)];
        if swapped {
            outer.push(directory("m/target", vec![file("m/target/more", rubbish)]));
            outer.reverse();
        }
        directory("m", outer)
    };
    let recipe = Recipe::Sql(vec![]);
    let plain = fingerprint(vec![tree("a", false), file("n.sql", "n")], &recipe);
    assert_eq!(plain, fingerprint(vec![tree("b", false), file("n.sql", "n")], &recipe));
    assert_eq!(plain, fingerprint(vec![file("n.sql", "n"), tree("c", true)], &recipe));
    assert_ne!(plain, fingerprint(vec![tree("a", false), file("n.sql", "m")], &recipe));
}

#[test]
fn a_fingerprint_tells_sets_of_files_apart() {
    let command = |text: &str| Recipe::Command(text.to_owned());
    let of = |trees: Vec<Tree>, recipe: &Recipe| fingerprint(trees, recipe);
    let plain = of(vec![file("a", "1"), file("b", "2")], &command("make"));
    assert_eq!(plain, of(vec![file("b", "2"), file("a", "1")], &command("make")));
    assert_eq!(
        plain,
        of(vec![file("b", "2"), file("a", "1"), directory("d", vec![file("d/target", "x")])], &command("make"))
    );
    assert_ne!(plain, of(vec![file("a", "1"), file("b", "2")], &command("make all")));
    assert_ne!(plain, of(vec![file("a", "1"), file("b", "3")], &command("make")));
    assert_ne!(plain, of(vec![file("a", "1"), file("c", "2")], &command("make")));
    assert_ne!(plain, of(vec![file("a", "1")], &command("make")));
    assert_ne!(plain, of(vec![file("a", "2"), file("b", "1")], &command("make")));
}
