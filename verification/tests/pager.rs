use csvm::pager::{
    Runnable, command, is_assignment, is_less, program, release_in_banner, runnable, table_args,
};

#[test]
fn command_prefers_csvm_pager_then_pager_then_less() {
    assert_eq!(command(Some("most"), Some("more")).as_deref(), Some("most"));
    assert_eq!(command(None, Some("less -i")).as_deref(), Some("less -i"));
    assert_eq!(command(None, None).as_deref(), Some("less"));
    // Either variable turns paging off, the csvm one even when PAGER is
    // set.
    assert_eq!(command(Some(""), Some("less")), None);
    assert_eq!(command(Some("cat"), None), None);
    assert_eq!(command(None, Some(" ")), None);
}

#[test]
fn less_is_known_by_its_program_name() {
    assert!(is_less("less"));
    assert!(is_less("/usr/bin/less -i"));
    assert!(!is_less("lesspipe"));
    assert!(is_less("LESS=-i less"));
    assert!(!is_less("most less"));
}

/// The shell's answer, where it is asked: it knows `sh` and `exec`, and nothing
/// under the names made up here.
fn can_run(cmd: &str) -> bool {
    match runnable(cmd) {
        Runnable::No => false,
        Runnable::Yes => true,
        Runnable::Ask(p) => ["sh", "exec", "/bin/sh"].contains(&p.as_str()),
    }
}

#[test]
fn the_shell_says_whether_a_pager_can_run() {
    for can in [
        "sh",
        "sh -c true",
        "LESS=-i sh",
        "LESS='-R -i' sh",
        "\"/bin/sh\"",
        "/bin/sh",
        "exec sh",
        // Quoted or escaped, before the program or in it: left to sh.
        "A='x' csvm-no-such-pager",
        "\"csvm-no-such-pager\"",
        "csvm\\-no-such-pager",
    ] {
        assert!(can_run(can), "{can}");
    }
    for cannot in [
        "",
        "csvm-no-such-pager",
        "/csvm/no/such/pager",
        "~/csvm-no-such-pager",
        "$HOME/csvm-no-such-pager",
        // A quote after the program does not hide a missing one.
        "csvm-no-such-pager 'x'",
    ] {
        assert!(!can_run(cannot), "{cannot}");
    }
}

#[test]
fn release_in_banner_reads_the_banner() {
    assert_eq!(
        release_in_banner("less 668 (GNU regular expressions)"),
        Some(668)
    );
    assert_eq!(
        release_in_banner("less 661x (PCRE2 regular expressions)"),
        Some(661)
    );
    assert_eq!(release_in_banner("less"), None);
    assert_eq!(release_in_banner(""), None);
}

#[test]
fn table_args_pin_the_header_of_a_tall_table_where_less_has_it() {
    assert_eq!(table_args(Some(668), true), ["-S", "--header=1"]);
    assert_eq!(table_args(Some(608), true), ["-S", "--header=1"]);
    assert_eq!(table_args(Some(607), true), ["-S"]);
    assert_eq!(table_args(Some(590), true), ["-S"]);
    assert_eq!(table_args(None, true), ["-S"]);
    // A table that fits keeps -F working, so it gets no header.
    assert_eq!(table_args(Some(668), false), ["-S"]);
}

#[test]
fn the_program_stands_behind_the_assignments() {
    assert!(is_assignment("LESS=-i"));
    assert!(!is_assignment("=x"));
    assert!(!is_assignment("less"));
    assert_eq!(program("A=1 B=2 most -x"), "most");
}
