use hazir::holder::Holder;

fn me() -> Holder {
    Holder::me(
        Some("a-machine\n".to_owned()),
        Some("6f2c1a58-5a0e-4f7e-9f0b-0c5b7a1d9e43\n".to_owned()),
        4711,
    )
}

#[test]
fn a_claim_survives_being_written_down() {
    let me = me();
    assert_eq!(Holder::parse(&me.to_string()), Some(me));
}

#[test]
fn nonsense_is_not_a_claim() {
    assert!(Holder::parse("").is_none());
    assert!(Holder::parse("host/boot").is_none());
    assert!(Holder::parse("host/boot/notapid").is_none());
    assert!(Holder::parse("host/boot/1/extra").is_none());
}

#[test]
fn this_process_is_not_gone() {
    assert_eq!(me().gone(&me(), Some(true)), Some(false));
    assert_eq!(me().gone(&me(), Some(false)), Some(false));
    assert_eq!(me().gone(&me(), None), Some(false));
}

#[test]
fn another_machine_cannot_be_judged() {
    let elsewhere = Holder {
        host: "somewhere-else".to_owned(),
        boot: "0".to_owned(),
        pid: 1,
    };
    assert_eq!(elsewhere.gone(&me(), Some(false)), None);
}

/// The bug this exists to prevent: a pid from before a restart matching a
/// live one, and a running test having its schema taken away.
#[test]
fn a_pid_from_another_boot_is_not_judged_by_this_boot() {
    let me = me();
    let before_the_restart = Holder {
        boot: format!("{}x", me.boot),
        ..me.clone()
    };
    assert_eq!(before_the_restart.gone(&me, Some(false)), None);
}

#[test]
fn a_claim_is_written_with_slashes() {
    assert_eq!(me().to_string(), "a-machine/6f2c1a585a0e4f7e9f0b0c5b7a1d9e43/4711");
}

#[test]
fn a_machine_that_says_nothing_has_a_name_all_the_same() {
    let nobody = Holder::me(None, None, 1);
    assert_eq!(nobody.to_string(), "unknown/noboot/1");
    let blank = Holder::me(Some(" \n".to_owned()), Some("--\t".to_owned()), 2);
    assert_eq!(blank.to_string(), "unknown/noboot/2");
}

#[test]
fn a_process_of_this_boot_is_judged_by_whether_it_runs() {
    let other = Holder { pid: 1, ..me() };
    assert_eq!(other.gone(&me(), Some(true)), Some(false));
    assert_eq!(other.gone(&me(), Some(false)), Some(true));
    assert_eq!(other.gone(&me(), None), None);
}

#[test]
fn a_number_is_read_as_rust_reads_one() {
    for text in ["0", "+7", "007", "4294967295", "4294967296", "-1", "+", "", " 1", "1 ", "1a", "99999999999999999999"] {
        let claim = format!("h/b/{text}");
        let read = Holder::parse(&claim).map(|holder| holder.pid);
        assert_eq!(read, text.parse::<u32>().ok(), "{text}");
    }
}

#[test]
fn a_name_with_a_slash_does_not_survive() {
    let odd = Holder { host: "a/b".to_owned(), boot: "c".to_owned(), pid: 3 };
    assert_eq!(Holder::parse(&odd.to_string()), None);
}
