//! Help text: one registry (see [`crate::manual`]) drives the overview
//! (`--help` / `csvm help`), per-command help (`csvm help CMD`), and topic pages
//! (`csvm help colors`). Keeping one source of truth is what stops the help from
//! drifting out of sync with the commands.

use vstd::prelude::*;

use crate::error::{
    did_you_mean, edit_distance, hint, law_a_name_one_edit_away_is_suggested, suggestion,
};
use crate::manual::{
    command_pages, commands, law_names_tell_commands_apart, topic_pages, topics,
};
use crate::text::{
    chars_of, join, joined, push_repeated, repeated, same, texts, trim_end, trimmed_end,
};

verus! {

/// Help for one command. `synopsis` lists its forms; `detail` is a short
/// paragraph; `examples` are full `csvm '…'` invocations.
pub struct CmdHelp {
    pub name: &'static str,
    pub aliases: Vec<&'static str>,
    pub summary: &'static str,
    pub synopsis: Vec<&'static str>,
    pub detail: &'static str,
    pub examples: Vec<&'static str>,
}

/// What a [`CmdHelp`] is in contracts.
pub struct CmdHelpV {
    pub name: Seq<char>,
    pub aliases: Seq<Seq<char>>,
    pub summary: Seq<char>,
    pub synopsis: Seq<Seq<char>>,
    pub detail: Seq<char>,
    pub examples: Seq<Seq<char>>,
}

/// A concept page that isn't a single command (operators, colours, …).
pub struct Topic {
    pub name: &'static str,
    pub summary: &'static str,
    pub body: &'static str,
}

/// What a [`Topic`] is in contracts.
pub struct TopicV {
    pub name: Seq<char>,
    pub summary: Seq<char>,
    pub body: Seq<char>,
}

/// Texts as their characters.
pub open spec fn listed(v: Seq<&'static str>) -> Seq<Seq<char>> {
    v.map_values(|s: &'static str| s@)
}

impl View for CmdHelp {
    type V = CmdHelpV;

    open spec fn view(&self) -> CmdHelpV {
        CmdHelpV {
            name: self.name@,
            aliases: listed(self.aliases@),
            summary: self.summary@,
            synopsis: listed(self.synopsis@),
            detail: self.detail@,
            examples: listed(self.examples@),
        }
    }
}

impl View for Topic {
    type V = TopicV;

    open spec fn view(&self) -> TopicV {
        TopicV { name: self.name@, summary: self.summary@, body: self.body@ }
    }
}

/// The pages of a list of commands.
pub open spec fn pages(v: Seq<CmdHelp>) -> Seq<CmdHelpV> {
    v.map_values(|c: CmdHelp| c@)
}

/// The pages of a list of topics.
pub open spec fn topic_views(v: Seq<Topic>) -> Seq<TopicV> {
    v.map_values(|t: Topic| t@)
}

/// The synopsis shown on usage errors and atop the overview.
pub const USAGE: &'static str =
    "usage: csvm [OPTIONS] SCRIPT [INPUT]\n       csvm [OPTIONS] -f FILE [INPUT]";

/// The synopsis line(s) shown on usage errors and atop the overview.
pub fn usage_line() -> (r: &'static str)
    ensures
        r@ == USAGE@,
{
    USAGE
}

/// What the overview says of the arguments and the options.
pub const HEADER: &'static str = "  SCRIPT   pipe-syntax pipeline; quote it so the shell keeps | > and spaces
  INPUT    input CSV (default: stdin; '-' is stdin); first line is the header

options (--flag VALUE or --flag=VALUE):
  -o, --output FILE    write to FILE (default: stdout)
  -f, --file FILE      read the pipeline from FILE instead of SCRIPT
      --no-header      input has no header; name columns c1, c2, ...
      --format FMT     input format: csv (default) | parquet (auto by extension;
                       parquet needs a build with --features parquet)
  -n, --threads N      worker threads for a seekable file (default: 1)
  -t, --temp-dir DIR   directory for sort spill files (default: system temp)
      --chunk-size SZ  input read chunk; K/M/G suffix ok (default: 1M)
      --sort-buffer SZ in-memory budget before sort spills; K/M/G (default: 256M)
      --color WHEN     auto (TTY only) | always | never
      --print-engine   print the compiled plan and exit
  -h, --help           show this help
  -V, --version        print version and exit";

/// What the overview ends with.
pub const EXAMPLES: &'static str = "\
examples:
  csvm 'select flag == \"t\" && amount > 1000 | cols id,amount' data.csv
  csvm 'sort score=nr | head 5 | fmt' data.csv
  csvm 'stats | sort mean=nr | fmt' data.csv
  csvm 'join prices.csv on sku | select qty > 0' sales.csv";

/// The note behind a command that has other names.
pub open spec fn alias_note(aliases: Seq<Seq<char>>) -> Seq<char> {
    if aliases.len() == 0 {
        seq![]
    } else {
        "  (alias: "@ + joined(aliases, ", "@) + ")"@
    }
}

/// Each of `lines`, indented, on a line of its own.
pub open spec fn indented_lines(lines: Seq<Seq<char>>) -> Seq<char>
    decreases lines.len(),
{
    if lines.len() == 0 {
        seq![]
    } else {
        indented_lines(lines.drop_last()) + "  "@ + lines.last() + "\n"@
    }
}

/// A command's page as text.
pub open spec fn command_text(c: CmdHelpV) -> Seq<char> {
    trimmed_end(
        "  "@ + c.name + " — "@ + c.summary + alias_note(c.aliases) + "\n\nforms:\n"@
            + indented_lines(c.synopsis) + (if c.detail.len() == 0 {
            seq![]
        } else {
            "\n"@ + c.detail + "\n"@
        }) + (if c.examples.len() == 0 {
            seq![]
        } else {
            "\nexamples:\n"@ + indented_lines(c.examples)
        }),
    )
}

/// A topic's page as text.
pub open spec fn topic_text(t: TopicV) -> Seq<char> {
    "  "@ + t.name + " — "@ + t.summary + "\n\n"@ + t.body
}

/// The length of the longest name.
pub open spec fn name_width(cmds: Seq<CmdHelpV>) -> nat
    decreases cmds.len(),
{
    if cmds.len() == 0 {
        0
    } else if name_width(cmds.drop_last()) < cmds.last().name.len() {
        cmds.last().name.len()
    } else {
        name_width(cmds.drop_last())
    }
}

/// The line of each command in the overview, its summary in a column.
pub open spec fn command_lines(cmds: Seq<CmdHelpV>, width: nat) -> Seq<char>
    decreases cmds.len(),
{
    if cmds.len() == 0 {
        seq![]
    } else {
        let c = cmds.last();
        command_lines(cmds.drop_last(), width) + "  "@ + c.name + repeated(
            ' ',
            if width >= c.name.len() {
                (width - c.name.len()) as nat
            } else {
                0
            },
        ) + "  "@ + c.summary + alias_note(c.aliases) + "\n"@
    }
}

/// The names of topics.
pub open spec fn topic_names(topics: Seq<TopicV>) -> Seq<Seq<char>> {
    topics.map_values(|t: TopicV| t.name)
}

/// The whole overview: usage, options, the commands, the topics and examples.
pub open spec fn overview_text(cmds: Seq<CmdHelpV>, topics: Seq<TopicV>) -> Seq<char> {
    USAGE@ + "\n\n"@ + HEADER@ + "\n\n"@
        + "commands (chain with |; `csvm help CMD` for detail):\n"@ + command_lines(
        cmds,
        name_width(cmds),
    ) + "\ntopics ("@ + joined(topic_names(topics), ", "@) + "): see `csvm help TOPIC`\n\n"@
        + EXAMPLES@
}

/// Whether `name` is the command's name or one of its aliases.
pub open spec fn is_called(c: CmdHelpV, name: Seq<char>) -> bool {
    c.name == name || c.aliases.contains(name)
}

/// The first command at or after `i` that `name` calls.
pub open spec fn command_called(cmds: Seq<CmdHelpV>, name: Seq<char>, i: int) -> Option<CmdHelpV>
    decreases cmds.len() - i,
{
    if i >= cmds.len() {
        None
    } else if is_called(cmds[i], name) {
        Some(cmds[i])
    } else {
        command_called(cmds, name, i + 1)
    }
}

/// The first topic at or after `i` with that name.
pub open spec fn topic_called(topics: Seq<TopicV>, name: Seq<char>, i: int) -> Option<TopicV>
    decreases topics.len() - i,
{
    if i >= topics.len() {
        None
    } else if topics[i].name == name {
        Some(topics[i])
    } else {
        topic_called(topics, name, i + 1)
    }
}

/// Every name and alias of the commands, in order.
pub open spec fn command_names(cmds: Seq<CmdHelpV>) -> Seq<Seq<char>>
    decreases cmds.len(),
{
    if cmds.len() == 0 {
        seq![]
    } else {
        command_names(cmds.drop_last()).push(cmds.last().name) + cmds.last().aliases
    }
}

/// What is said of a topic that there is no page for.
pub open spec fn unknown_text(
    cmds: Seq<CmdHelpV>,
    topics: Seq<TopicV>,
    t: Seq<char>,
) -> Seq<char> {
    "no help for `"@ + t + "`"@ + hint(t, command_names(cmds) + topic_names(topics))
        + "\nrun `csvm help` for the list of commands and topics"@
}

/// What help on `topic` says: the overview when it is none, else the page of the
/// command or of the topic, else an error.
pub open spec fn help_text(
    cmds: Seq<CmdHelpV>,
    topics: Seq<TopicV>,
    topic: Option<Seq<char>>,
) -> Result<Seq<char>, Seq<char>> {
    match topic {
        None => Ok(overview_text(cmds, topics)),
        Some(t) => match command_called(cmds, t, 0) {
            Some(c) => Ok(command_text(c)),
            None => match topic_called(topics, t, 0) {
                Some(p) => Ok(topic_text(p)),
                None => Err(unknown_text(cmds, topics, t)),
            },
        },
    }
}

/// A text or a message, as its characters.
pub open spec fn spoken(r: Result<String, String>) -> Result<Seq<char>, Seq<char>> {
    match r {
        Ok(s) => Ok(s@),
        Err(e) => Err(e@),
    }
}

/// Render help for `topic`: `None` is the overview; a command name/alias or a
/// topic name is its detail page; anything else is an error with a near-match
/// hint (suitable for printing to stderr).
pub fn render(topic: Option<&str>) -> (r: Result<String, String>)
    ensures
        spoken(r) == help_text(command_pages(), topic_pages(), crate::pager::opt_str(topic)),
{
    match topic {
        None => Ok(overview()),
        Some(t) => match find_command(t) {
            Some(c) => Ok(render_command(&c)),
            None => match find_topic(t) {
                Some(p) => Ok(render_topic(&p)),
                None => Err(unknown(t)),
            },
        },
    }
}

fn owned(v: &Vec<&'static str>) -> (r: Vec<String>)
    ensures
        texts(r@) == listed(v@),
{
    let mut r: Vec<String> = Vec::new();
    let mut i: usize = 0;
    while i < v.len()
        invariant
            i <= v.len(),
            texts(r@) == listed(v@).take(i as int),
        decreases v.len() - i,
    {
        let ghost before = r@;
        r.push(v[i].to_string());
        assert(texts(r@) =~= texts(before).push(v@[i as int]@));
        i += 1;
        assert(texts(r@) =~= listed(v@).take(i as int));
    }
    assert(listed(v@).take(v@.len() as int) =~= listed(v@));
    r
}

fn push_aliases(buf: &mut String, aliases: &Vec<&'static str>)
    ensures
        final(buf)@ == old(buf)@ + alias_note(listed(aliases@)),
{
    let ghost start = buf@;
    if aliases.len() > 0 {
        let names = owned(aliases);
        buf.append("  (alias: ");
        buf.append(join(names.as_slice(), ", ").as_str());
        buf.append(")");
        assert(buf@ =~= start + alias_note(listed(aliases@)));
    } else {
        assert(buf@ =~= start + alias_note(listed(aliases@)));
    }
}

fn push_lines(buf: &mut String, lines: &Vec<&'static str>)
    ensures
        final(buf)@ == old(buf)@ + indented_lines(listed(lines@)),
{
    let ghost start = buf@;
    let ghost all = listed(lines@);
    let mut i: usize = 0;
    assert(buf@ =~= start + indented_lines(all.take(0)));
    while i < lines.len()
        invariant
            i <= lines.len(),
            all == listed(lines@),
            buf@ == start + indented_lines(all.take(i as int)),
        decreases lines.len() - i,
    {
        buf.append("  ");
        buf.append(lines[i]);
        buf.append("\n");
        proof {
            assert(all.take(i + 1).drop_last() =~= all.take(i as int));
            assert(all.take(i + 1).last() == lines@[i as int]@);
            assert(buf@ =~= start + indented_lines(all.take(i + 1)));
        }
        i += 1;
    }
    assert(all.take(all.len() as int) =~= all);
}

/// The full `--help` / `csvm help` text: usage, options, the command list and
/// topics (generated from the registry), and examples.
pub fn overview() -> (r: String)
    ensures
        r@ == overview_text(command_pages(), topic_pages()),
{
    let cmds = commands();
    let pages = topics();
    overview_of(&cmds, &pages)
}

fn widest(cmds: &Vec<CmdHelp>) -> (width: usize)
    ensures
        width == name_width(pages(cmds@)),
{
    let ghost all = pages(cmds@);
    let mut width: usize = 0;
    let mut i: usize = 0;
    while i < cmds.len()
        invariant
            i <= cmds.len(),
            all == pages(cmds@),
            width == name_width(all.take(i as int)),
        decreases cmds.len() - i,
    {
        let n: usize = chars_of(cmds[i].name).len();
        proof {
            assert(all.take(i + 1).drop_last() =~= all.take(i as int));
            assert(all.take(i + 1).last() == cmds@[i as int]@);
        }
        if width < n {
            width = n;
        }
        i += 1;
    }
    assert(all.take(all.len() as int) =~= all);
    width
}

fn push_commands(buf: &mut String, cmds: &Vec<CmdHelp>, width: usize)
    ensures
        final(buf)@ == old(buf)@ + command_lines(pages(cmds@), width as nat),
{
    let ghost start = buf@;
    let ghost all = pages(cmds@);
    let mut i: usize = 0;
    assert(buf@ =~= start + command_lines(all.take(0), width as nat));
    while i < cmds.len()
        invariant
            i <= cmds.len(),
            all == pages(cmds@),
            buf@ == start + command_lines(all.take(i as int), width as nat),
        decreases cmds.len() - i,
    {
        let c = &cmds[i];
        let n: usize = chars_of(c.name).len();
        buf.append("  ");
        buf.append(c.name);
        push_repeated(
            buf,
            ' ',
            if width >= n {
                width - n
            } else {
                0
            },
        );
        buf.append("  ");
        buf.append(c.summary);
        push_aliases(buf, &c.aliases);
        buf.append("\n");
        proof {
            assert(all.take(i + 1).drop_last() =~= all.take(i as int));
            assert(all.take(i + 1).last() == cmds@[i as int]@);
            assert(buf@ =~= start + command_lines(all.take(i + 1), width as nat));
        }
        i += 1;
    }
    assert(all.take(all.len() as int) =~= all);
}

fn names_of_topics(topics: &Vec<Topic>) -> (r: Vec<String>)
    ensures
        texts(r@) == topic_names(topic_views(topics@)),
{
    let ghost all = topic_names(topic_views(topics@));
    let mut r: Vec<String> = Vec::new();
    let mut i: usize = 0;
    while i < topics.len()
        invariant
            i <= topics.len(),
            all == topic_names(topic_views(topics@)),
            texts(r@) == all.take(i as int),
        decreases topics.len() - i,
    {
        let ghost before = r@;
        r.push(topics[i].name.to_string());
        assert(texts(r@) =~= texts(before).push(topics@[i as int].name@));
        i += 1;
        assert(texts(r@) =~= all.take(i as int));
    }
    assert(all.take(all.len() as int) =~= all);
    r
}

fn overview_of(cmds: &Vec<CmdHelp>, topics: &Vec<Topic>) -> (r: String)
    ensures
        r@ == overview_text(pages(cmds@), topic_views(topics@)),
{
    let mut r = usage_line().to_string();
    r.append("\n\n");
    r.append(HEADER);
    r.append("\n\n");
    r.append("commands (chain with |; `csvm help CMD` for detail):\n");
    push_commands(&mut r, cmds, widest(cmds));
    r.append("\ntopics (");
    let names = names_of_topics(topics);
    r.append(join(names.as_slice(), ", ").as_str());
    r.append("): see `csvm help TOPIC`\n\n");
    r.append(EXAMPLES);
    r
}

fn render_command(c: &CmdHelp) -> (r: String)
    ensures
        r@ == command_text(c@),
{
    let mut out = "  ".to_string();
    out.append(c.name);
    out.append(" — ");
    out.append(c.summary);
    push_aliases(&mut out, &c.aliases);
    out.append("\n\nforms:\n");
    push_lines(&mut out, &c.synopsis);
    let ghost head = out@;
    if !c.detail.is_empty() {
        out.append("\n");
        out.append(c.detail);
        out.append("\n");
        assert(out@ =~= head + ("\n"@ + c.detail@ + "\n"@));
    } else {
        assert(out@ =~= head + seq![]);
    }
    let ghost body = out@;
    if c.examples.len() > 0 {
        out.append("\nexamples:\n");
        push_lines(&mut out, &c.examples);
        assert(out@ =~= body + ("\nexamples:\n"@ + indented_lines(listed(c.examples@))));
    } else {
        assert(out@ =~= body + seq![]);
    }
    trim_end(out.as_str())
}

fn render_topic(t: &Topic) -> (r: String)
    ensures
        r@ == topic_text(t@),
{
    let mut r = "  ".to_string();
    r.append(t.name);
    r.append(" — ");
    r.append(t.summary);
    r.append("\n\n");
    r.append(t.body);
    r
}

fn called(c: &CmdHelp, name: &str) -> (r: bool)
    ensures
        r == is_called(c@, name@),
{
    if same(c.name, name) {
        return true;
    }
    let mut i: usize = 0;
    while i < c.aliases.len()
        invariant
            i <= c.aliases.len(),
            c@.name != name@,
            forall|k: int| 0 <= k < i ==> #[trigger] c@.aliases[k] != name@,
        decreases c.aliases.len() - i,
    {
        if same(c.aliases[i], name) {
            assert(c@.aliases[i as int] == name@);
            return true;
        }
        i += 1;
    }
    false
}

/// The page of the command with that name or alias.
pub fn find_command(name: &str) -> (r: Option<CmdHelp>)
    ensures
        match r {
            Some(c) => command_called(command_pages(), name@, 0) == Some(c@),
            None => command_called(command_pages(), name@, 0) is None,
        },
{
    let mut cmds = commands();
    let ghost all = command_pages();
    let mut i: usize = 0;
    while i < cmds.len()
        invariant
            i <= cmds.len(),
            all == pages(cmds@),
            all == command_pages(),
            command_called(all, name@, 0) == command_called(all, name@, i as int),
        decreases cmds.len() - i,
    {
        assert(all[i as int] == cmds@[i as int]@);
        if called(&cmds[i], name) {
            return Some(cmds.remove(i));
        }
        i += 1;
    }
    None
}

/// The page of the topic with that name.
pub fn find_topic(name: &str) -> (r: Option<Topic>)
    ensures
        match r {
            Some(t) => topic_called(topic_pages(), name@, 0) == Some(t@),
            None => topic_called(topic_pages(), name@, 0) is None,
        },
{
    let mut topics = topics();
    let ghost all = topic_pages();
    let mut i: usize = 0;
    while i < topics.len()
        invariant
            i <= topics.len(),
            all == topic_views(topics@),
            all == topic_pages(),
            topic_called(all, name@, 0) == topic_called(all, name@, i as int),
        decreases topics.len() - i,
    {
        assert(all[i as int] == topics@[i as int]@);
        if same(topics[i].name, name) {
            return Some(topics.remove(i));
        }
        i += 1;
    }
    None
}

fn names_of_commands(cmds: &Vec<CmdHelp>) -> (r: Vec<String>)
    ensures
        texts(r@) == command_names(pages(cmds@)),
{
    let ghost all = pages(cmds@);
    let mut r: Vec<String> = Vec::new();
    let mut i: usize = 0;
    assert(texts(r@) =~= command_names(all.take(0)));
    while i < cmds.len()
        invariant
            i <= cmds.len(),
            all == pages(cmds@),
            texts(r@) == command_names(all.take(i as int)),
        decreases cmds.len() - i,
    {
        let ghost before = r@;
        r.push(cmds[i].name.to_string());
        let mut aliases = owned(&cmds[i].aliases);
        let ghost added = aliases@;
        r.append(&mut aliases);
        proof {
            assert(texts(r@) =~= texts(before).push(cmds@[i as int].name@) + texts(added));
            assert(all.take(i + 1).drop_last() =~= all.take(i as int));
            assert(all.take(i + 1).last() == cmds@[i as int]@);
        }
        i += 1;
    }
    assert(all.take(all.len() as int) =~= all);
    r
}

/// Message for an unknown `csvm help` topic, with a near-match suggestion.
fn unknown(t: &str) -> (r: String)
    ensures
        r@ == unknown_text(command_pages(), topic_pages(), t@),
{
    let cmds = commands();
    let pages = topics();
    let mut names = names_of_commands(&cmds);
    let mut more = names_of_topics(&pages);
    let ghost all = command_names(command_pages()) + topic_names(topic_pages());
    names.append(&mut more);
    assert(texts(names@) =~= all);
    let mut r = "no help for `".to_string();
    r.append(t);
    r.append("`");
    let ghost head = r@;
    match did_you_mean(t, names.as_slice()) {
        Some(s) => {
            r.append(" (did you mean `");
            r.append(s);
            r.append("`?)");
            assert(r@ =~= head + hint(t@, all));
        },
        None => {
            assert(r@ =~= head + hint(t@, all));
        },
    }
    r.append("\nrun `csvm help` for the list of commands and topics");
    r
}

proof fn lemma_first_called(cmds: Seq<CmdHelpV>, name: Seq<char>, i: int, k: int)
    requires
        0 <= i <= k <= cmds.len(),
        forall|j: int| i <= j < k ==> !is_called(#[trigger] cmds[j], name),
        k < cmds.len() ==> is_called(cmds[k], name),
    ensures
        command_called(cmds, name, i) == (if k < cmds.len() {
            Some(cmds[k])
        } else {
            None
        }),
    decreases k - i,
{
    if i < k {
        lemma_first_called(cmds, name, i + 1, k);
    }
}

proof fn lemma_uncalled(topics: Seq<TopicV>, name: Seq<char>, i: int)
    requires
        0 <= i <= topics.len(),
    ensures
        topic_called(topics, name, i) is None <==> forall|j: int|
            i <= j < topics.len() ==> (#[trigger] topics[j]).name != name,
    decreases topics.len() - i,
{
    if i < topics.len() && topics[i].name != name {
        lemma_uncalled(topics, name, i + 1);
    }
}

/// A command's name and each of its aliases give its page.
pub proof fn law_a_name_or_an_alias_gives_the_page(i: int, name: Seq<char>)
    requires
        0 <= i < command_pages().len(),
        is_called(command_pages()[i], name),
    ensures
        help_text(command_pages(), topic_pages(), Some(name)) == Ok::<Seq<char>, Seq<char>>(
            command_text(command_pages()[i]),
        ),
{
    let cmds = command_pages();
    assert forall|j: int| 0 <= j < i implies !is_called(#[trigger] cmds[j], name) by {
        if is_called(cmds[j], name) {
            law_names_tell_commands_apart(i, j, name);
        }
    }
    lemma_first_called(cmds, name, 0, i);
}

proof fn lemma_any_called(cmds: Seq<CmdHelpV>, name: Seq<char>, i: int)
    requires
        0 <= i <= cmds.len(),
    ensures
        command_called(cmds, name, i) is None <==> forall|j: int|
            i <= j < cmds.len() ==> !is_called(#[trigger] cmds[j], name),
    decreases cmds.len() - i,
{
    if i < cmds.len() && !is_called(cmds[i], name) {
        lemma_any_called(cmds, name, i + 1);
    }
}

/// There is no help just for what names no command and no topic; without a topic
/// there is always the overview.
pub proof fn law_help_is_refused_where_nothing_is_named(t: Seq<char>)
    ensures
        help_text(command_pages(), topic_pages(), None) is Ok,
        help_text(command_pages(), topic_pages(), Some(t)) is Err <==> {
            &&& forall|i: int|
                0 <= i < command_pages().len() ==> !is_called(#[trigger] command_pages()[i], t)
            &&& forall|i: int|
                0 <= i < topic_pages().len() ==> (#[trigger] topic_pages()[i]).name != t
        },
{
    lemma_any_called(command_pages(), t, 0);
    lemma_uncalled(topic_pages(), t, 0);
}

/// What is refused is named, and where the name of a command, an alias or a topic is
/// one edit away, such a name is offered.
pub proof fn law_a_refusal_offers_a_name_one_edit_away(t: Seq<char>, i: int)
    requires
        help_text(command_pages(), topic_pages(), Some(t)) is Err,
        0 <= i < (command_names(command_pages()) + topic_names(topic_pages())).len(),
        edit_distance(t, (command_names(command_pages()) + topic_names(topic_pages()))[i]) <= 1,
    ensures
        exists|s: Seq<char>|
            {
                &&& (command_names(command_pages()) + topic_names(topic_pages())).contains(s)
                &&& #[trigger] edit_distance(t, s) <= 1
                &&& help_text(command_pages(), topic_pages(), Some(t)) == Err::<
                    Seq<char>,
                    Seq<char>,
                >(
                    "no help for `"@ + t + "`"@ + (" (did you mean `"@ + s + "`?)"@)
                        + "\nrun `csvm help` for the list of commands and topics"@,
                )
            },
{
    let names = command_names(command_pages()) + topic_names(topic_pages());
    law_a_name_one_edit_away_is_suggested(t, names, i);
    let s = suggestion(t, names)->0;
    assert(edit_distance(t, s) <= 1);
}

} // verus!
