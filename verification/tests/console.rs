use csvm::cli::{ColorWhen, Parsed, parse};
use csvm::color::Depth;
use csvm::console::{Console, Sink, Streams, Vars};

/// A console on an 80-column terminal, with no flags and no colour
/// variables set.
fn terminal() -> Console {
    Console {
        color: ColorWhen::Auto,
        no_color: false,
        force_color: false,
        depth: Depth::Ansi256,
        dumb: false,
        stdout: Sink::Terminal,
        columns: Some(80),
        rows: Some(24),
        stderr_terminal: true,
        typed_input: false,
        pager_command: Some("less".into()),
        no_pager: false,
        no_progress: false,
    }
}

/// [`terminal`], with stdout going to `stdout`.
fn to(stdout: Sink) -> Console {
    Console {
        stdout,
        ..terminal()
    }
}

#[test]
fn colour_follows_the_flag_then_the_variables_then_the_terminal() {
    let on = |c: Console| c.color();
    assert_eq!(on(terminal()), Some(Depth::Ansi256));
    assert_eq!(on(to(Sink::File)), None);
    assert_eq!(
        on(Console {
            color: ColorWhen::Always,
            ..to(Sink::File)
        }),
        Some(Depth::Ansi256)
    );
    assert_eq!(
        on(Console {
            force_color: true,
            ..to(Sink::File)
        }),
        Some(Depth::Ansi256)
    );
    assert_eq!(
        on(Console {
            no_color: true,
            force_color: true,
            ..terminal()
        }),
        None
    );
    assert_eq!(
        on(Console {
            color: ColorWhen::Never,
            ..terminal()
        }),
        None
    );
}

#[test]
fn only_a_terminal_has_a_width() {
    assert_eq!(terminal().width(), Some(80));
    assert_eq!(to(Sink::File).width(), None);
    assert_eq!(to(Sink::Pipe).width(), None);
}

#[test]
fn colour_is_drawn_at_the_announced_depth() {
    let truecolor = Console {
        depth: Depth::Truecolor,
        ..terminal()
    };
    assert_eq!(truecolor.color(), Some(Depth::Truecolor));
    assert_eq!(terminal().color(), Some(Depth::Ansi256));
}

#[test]
fn a_dumb_terminal_gets_no_colour_unless_forced() {
    let dumb = Console {
        dumb: true,
        ..terminal()
    };
    assert_eq!(dumb.color(), None);
    assert_eq!(
        Console {
            color: ColorWhen::Always,
            ..dumb
        }
        .color(),
        Some(Depth::Ansi256)
    );
}

#[test]
fn only_a_terminal_that_is_not_dumb_is_paged() {
    assert!(terminal().pages());
    for quiet in [
        Console {
            no_pager: true,
            ..terminal()
        },
        Console {
            pager_command: None,
            ..terminal()
        },
        Console {
            dumb: true,
            ..terminal()
        },
        to(Sink::File),
        to(Sink::Pipe),
    ] {
        assert!(!quiet.pages(), "{quiet:?}");
    }
}

#[test]
fn output_fills_the_window_from_as_many_lines_as_it_has_rows() {
    let three = Console {
        rows: Some(3),
        ..terminal()
    };
    // Two lines leave a row for the pager's prompt; three do not.
    assert!(!three.fills(b"a\nb\n"));
    assert!(three.fills(b"a\nb\nc\n"));
    let unknown = Console {
        rows: None,
        ..terminal()
    };
    assert!(!unknown.fills(b"a\nb\nc\n"));
}

#[test]
fn a_table_is_fitted_unless_a_pager_scrolls_it() {
    assert!(terminal().screen(None).fit);
    assert!(!terminal().screen(Some(true)).fit);
}

#[test]
fn links_need_colour_and_the_terminal() {
    assert!(terminal().links());
    assert!(terminal().screen(None).links);
    // Forced colour into a file or a pipe writes no links.
    for stdout in [Sink::File, Sink::Pipe] {
        let forced = Console {
            color: ColorWhen::Always,
            ..to(stdout)
        };
        assert!(forced.color().is_some() && !forced.links(), "{forced:?}");
    }
    let plain = Console {
        color: ColorWhen::Never,
        ..terminal()
    };
    assert!(!plain.links());
}

#[test]
fn the_meter_draws_only_on_a_terminal_nothing_else_draws_on() {
    // Rows to a file, or a table the run is still building: shown.
    assert!(to(Sink::File).meter(false));
    assert!(terminal().meter(true));
    // Rows streaming to the terminal, or into a pipe: not shown.
    assert!(!terminal().meter(false));
    assert!(!to(Sink::Pipe).meter(true));
    for quiet in [
        Console {
            typed_input: true,
            ..to(Sink::File)
        },
        Console {
            stderr_terminal: false,
            ..to(Sink::File)
        },
        Console {
            dumb: true,
            ..to(Sink::File)
        },
        Console {
            no_progress: true,
            ..to(Sink::File)
        },
    ] {
        assert!(!quiet.meter(true), "{quiet:?}");
    }
}

#[test]
fn errors_are_coloured_by_stderr_under_the_same_rules() {
    // stderr on the terminal colours errors, whatever stdout is.
    assert!(to(Sink::File).error_color());
    let piped = Console {
        stderr_terminal: false,
        ..terminal()
    };
    assert!(!piped.error_color());
    let forced = Console {
        force_color: true,
        ..piped
    };
    assert!(forced.error_color());
}

#[test]
fn the_arguments_say_where_output_goes() {
    let parsed = parse(
        vec!["-o".to_string(), "out.csv".to_string(), "fmt".to_string()],
        1,
    );
    let Ok(Parsed::Run(args)) = parsed else {
        panic!("a run")
    };
    let c = Console::read(terminal(), &args, true, false);
    assert_eq!(c.stdout, Sink::File);
    assert!(c.no_pager);
    assert_eq!(args.out_path(), Some("out.csv"));
    assert_eq!(args.in_path(), None);
}

#[test]
fn the_environment_says_what_a_run_without_flags_does() {
    let vars = Vars {
        no_color: None,
        clicolor_force: None,
        term: None,
        csvm_pager: None,
        pager: None,
    };
    let streams = Streams {
        stdout: Sink::Pipe,
        depth: Depth::Truecolor,
        columns: Some(120),
        rows: None,
        stderr_terminal: false,
        stdin_terminal: true,
    };
    let plain = Console::from_env(&vars, &streams);
    assert!(!plain.no_color && !plain.force_color && !plain.dumb);
    assert!(!plain.no_pager && !plain.no_progress);
    assert_eq!(plain.color, ColorWhen::Auto);
    assert_eq!((plain.stdout, plain.depth), (Sink::Pipe, Depth::Truecolor));
    assert_eq!((plain.columns, plain.rows), (Some(120), None));
    assert!(!plain.stderr_terminal && plain.typed_input);
    assert_eq!(plain.pager_command.as_deref(), Some("less"));
    let set = |v: &str| Some(v.to_string());
    let told = Console::from_env(
        &Vars {
            no_color: set("1"),
            clicolor_force: set("1"),
            term: set("dumb"),
            csvm_pager: set("most"),
            pager: set("more"),
        },
        &streams,
    );
    assert!(told.no_color && told.force_color && told.dumb);
    assert_eq!(told.pager_command.as_deref(), Some("most"));
    // An empty NO_COLOR and a CLICOLOR_FORCE of zero ask for nothing, and an
    // empty CSVM_PAGER for no pager.
    let off = Console::from_env(
        &Vars {
            no_color: set(""),
            clicolor_force: set("0"),
            term: set("xterm"),
            csvm_pager: set(""),
            pager: set("more"),
        },
        &streams,
    );
    assert!(!off.no_color && !off.force_color && !off.dumb);
    assert_eq!(off.pager_command, None);
}
