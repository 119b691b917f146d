use csvm::help::{find_command, find_topic, overview, render, usage_line};
use csvm::manual::{commands, topics};
use csvm::plan::Func;

/// The commands of the pipe language.
const LANGUAGE: [&str; 20] = [
    "cols", "select", "sort", "head", "tail", "uniq", "stats", "group", "agg", "graph", "fn",
    "join", "rename", "add", "delta", "to-num", "to-str", "hdr", "color", "fmt",
];

/// The functions of value expressions.
const FUNCTIONS: [Func; 21] = [
    Func::Round,
    Func::Floor,
    Func::Ceil,
    Func::Abs,
    Func::Int,
    Func::Sqrt,
    Func::Pow,
    Func::Exp,
    Func::Log,
    Func::Log10,
    Func::Log2,
    Func::Sign,
    Func::Min,
    Func::Max,
    Func::Len,
    Func::Upper,
    Func::Lower,
    Func::Trim,
    Func::Coalesce,
    Func::Num,
    Func::Str,
];

/// The help registry and the language's command list must stay in lockstep:
/// every command has help, and every documented command is a real command.
#[test]
fn help_matches_parser_commands() {
    for cmd in LANGUAGE {
        assert!(
            find_command(cmd).is_some(),
            "parser command `{cmd}` has no help entry"
        );
    }
    for c in commands() {
        assert!(
            LANGUAGE.contains(&c.name),
            "documented command `{}` is not in the parser's command list",
            c.name
        );
    }
}

#[test]
fn help_documents_every_function() {
    let body = find_topic("expr").unwrap().body;
    for f in FUNCTIONS {
        let name = f.name();
        assert!(
            body.split(|c: char| !c.is_ascii_alphanumeric())
                .any(|w| w == name),
            "function `{name}` is undocumented in `help expr`"
        );
    }
}

#[test]
fn overview_lists_every_command() {
    let text = overview();
    for c in commands() {
        assert!(text.contains(c.name), "overview omits `{}`", c.name);
    }
}

#[test]
fn render_resolves_commands_aliases_and_topics() {
    assert!(
        render(Some("join"))
            .unwrap()
            .contains("merge one or more CSVs")
    );
    assert!(render(Some("cut")).unwrap().contains("cols —")); // alias resolves
    assert!(render(Some("colors")).unwrap().contains("magenta")); // topic
    assert!(render(None).unwrap().contains("commands")); // overview
}

#[test]
fn unknown_topic_suggests_and_errors() {
    // `joen` is unambiguously nearest `join`; check the error names the bad
    // topic and offers a suggestion.
    let err = render(Some("joen")).unwrap_err();
    assert!(err.contains("no help for `joen`"), "{err}");
    assert!(err.contains("did you mean `join`"), "{err}");
}

#[test]
fn a_page_shows_its_forms_and_examples() {
    let page = render(Some("tail")).unwrap();
    assert_eq!(
        page,
        "  tail — keep the last N rows\n\nforms:\n  tail [N]        last N rows (default 10; \
         same count spellings as head)\n\nBlocking: it buffers the tail, so a plan with tail reads \
         all input.\n\nexamples:\n  csvm 'tail 20' data.csv"
    );
    assert!(overview().starts_with(usage_line()));
    assert_eq!(topics().len(), 5);
}

#[test]
fn an_alias_gives_its_commands_page() {
    let mut named: Vec<&str> = Vec::new();
    for c in commands() {
        named.push(c.name);
        let page = render(Some(c.name)).unwrap();
        for a in &c.aliases {
            assert_eq!(render(Some(*a)).unwrap(), page, "{a}");
            named.push(*a);
        }
    }
    // No name stands for two commands.
    let all = named.len();
    named.sort();
    named.dedup();
    assert_eq!(named.len(), all);
}
