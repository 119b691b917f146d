//! What help lists.

use crate::help::{
    CmdHelpV, TopicV, alias_note, command_called, command_lines, command_names, command_text,
    help_text, indented_lines, is_called, name_width, topic_called, topic_names,
};
use crate::text::{joined, repeated, trimmed_end};
use vstd::prelude::*;

verus! {

/// The column of names is as wide as the longest of them.
pub proof fn law_names_fit_their_column(cmds: Seq<CmdHelpV>)
    ensures
        forall|i: int| 0 <= i < cmds.len() ==> (#[trigger] cmds[i]).name.len() <= name_width(cmds),
        cmds.len() > 0 ==> exists|i: int|
            0 <= i < cmds.len() && (#[trigger] cmds[i]).name.len() == name_width(cmds),
    decreases cmds.len(),
{
    if cmds.len() > 0 {
        let front = cmds.drop_last();
        law_names_fit_their_column(front);
        assert forall|i: int| 0 <= i < cmds.len() implies (#[trigger] cmds[i]).name.len()
            <= name_width(cmds) by {
            if i < front.len() {
                assert(front[i] == cmds[i]);
            }
        }
        if name_width(front) < cmds.last().name.len() || front.len() == 0 {
            assert(cmds[cmds.len() - 1].name.len() == name_width(cmds));
        } else {
            let i = choose|i: int|
                0 <= i < front.len() && (#[trigger] front[i]).name.len() == name_width(front);
            assert(cmds[i].name.len() == name_width(cmds));
        }
    }
}

/// The overview has a line for each command, in order: its name, filled up to the width
/// of the column, what it does, and its other names.
pub proof fn law_the_overview_lists_every_command(
    cmds: Seq<CmdHelpV>,
    c: CmdHelpV,
    width: nat,
)
    requires
        c.name.len() <= width,
    ensures
        command_lines(seq![], width) == Seq::<char>::empty(),
        command_lines(cmds.push(c), width) == command_lines(cmds, width) + (seq![' ', ' '] + (c.name
            + repeated(' ', (width - c.name.len()) as nat)) + seq![' ', ' '] + c.summary
            + alias_note(c.aliases) + seq!['\n']),
{
    reveal_strlit("  ");
    reveal_strlit("\n");
    assert(cmds.push(c).drop_last() =~= cmds);
    assert(command_lines(cmds.push(c), width) =~= command_lines(cmds, width) + (seq![' ', ' '] + (
    c.name + repeated(' ', (width - c.name.len()) as nat)) + seq![' ', ' '] + c.summary
        + alias_note(c.aliases) + seq!['\n']));
}

/// The names that help knows are those of the commands and their aliases.
pub proof fn law_the_names_are_those_that_call_a_command(cmds: Seq<CmdHelpV>, name: Seq<char>)
    ensures
        command_names(cmds).contains(name) <==> exists|i: int|
            0 <= i < cmds.len() && is_called(#[trigger] cmds[i], name),
    decreases cmds.len(),
{
    if cmds.len() > 0 {
        let front = cmds.drop_last();
        let c = cmds.last();
        law_the_names_are_those_that_call_a_command(front, name);
        let before = command_names(front);
        let all = command_names(cmds);
        assert(all =~= before.push(c.name) + c.aliases);
        if all.contains(name) {
            let k = all.index_of(name);
            if k < before.len() {
                assert(before[k] == name);
                let i = choose|i: int| 0 <= i < front.len() && is_called(#[trigger] front[i], name);
                assert(cmds[i] == front[i]);
            } else {
                if k > before.len() {
                    assert(c.aliases[k - before.len() - 1] == name);
                }
                assert(is_called(cmds[cmds.len() - 1], name));
            }
        }
        if exists|i: int| 0 <= i < cmds.len() && is_called(#[trigger] cmds[i], name) {
            let i = choose|i: int| 0 <= i < cmds.len() && is_called(#[trigger] cmds[i], name);
            if i < front.len() {
                assert(is_called(front[i], name));
                let k = before.index_of(name);
                assert(all[k] == name);
            } else if c.name == name {
                assert(all[before.len() as int] == name);
            } else {
                let k = c.aliases.index_of(name);
                assert(all[before.len() + 1 + k] == name);
            }
        }
    }
}

/// The page that a name finds is the first that it calls.
pub proof fn law_the_first_page_called_is_found(
    cmds: Seq<CmdHelpV>,
    topics: Seq<TopicV>,
    name: Seq<char>,
    k: int,
)
    requires
        0 <= k,
    ensures
        match command_called(cmds, name, k) {
            Some(c) => exists|i: int|
                {
                    &&& k <= i < cmds.len()
                    &&& #[trigger] cmds[i] == c
                    &&& is_called(c, name)
                    &&& forall|j: int| k <= j < i ==> !is_called(#[trigger] cmds[j], name)
                },
            None => forall|j: int| k <= j < cmds.len() ==> !is_called(#[trigger] cmds[j], name),
        },
        match topic_called(topics, name, k) {
            Some(t) => exists|i: int|
                {
                    &&& k <= i < topics.len()
                    &&& #[trigger] topics[i] == t
                    &&& t.name == name
                    &&& forall|j: int| k <= j < i ==> (#[trigger] topics[j]).name != name
                },
            None => forall|j: int| k <= j < topics.len() ==> (#[trigger] topics[j]).name != name,
        },
{
    lemma_command(cmds, name, k);
    lemma_topic(topics, name, k);
}

proof fn lemma_command(cmds: Seq<CmdHelpV>, name: Seq<char>, k: int)
    requires
        0 <= k,
    ensures
        match command_called(cmds, name, k) {
            Some(c) => exists|i: int|
                {
                    &&& k <= i < cmds.len()
                    &&& #[trigger] cmds[i] == c
                    &&& is_called(c, name)
                    &&& forall|j: int| k <= j < i ==> !is_called(#[trigger] cmds[j], name)
                },
            None => forall|j: int| k <= j < cmds.len() ==> !is_called(#[trigger] cmds[j], name),
        },
    decreases cmds.len() - k,
{
    if k < cmds.len() {
        if is_called(cmds[k], name) {
            assert(cmds[k] == command_called(cmds, name, k)->Some_0);
        } else {
            lemma_command(cmds, name, k + 1);
            if let Some(c) = command_called(cmds, name, k + 1) {
                let i = choose|i: int|
                    {
                        &&& k + 1 <= i < cmds.len()
                        &&& #[trigger] cmds[i] == c
                        &&& is_called(c, name)
                        &&& forall|j: int| k + 1 <= j < i ==> !is_called(#[trigger] cmds[j], name)
                    };
                assert(cmds[i] == c);
            }
        }
    }
}

proof fn lemma_topic(topics: Seq<TopicV>, name: Seq<char>, k: int)
    requires
        0 <= k,
    ensures
        match topic_called(topics, name, k) {
            Some(t) => exists|i: int|
                {
                    &&& k <= i < topics.len()
                    &&& #[trigger] topics[i] == t
                    &&& t.name == name
                    &&& forall|j: int| k <= j < i ==> (#[trigger] topics[j]).name != name
                },
            None => forall|j: int| k <= j < topics.len() ==> (#[trigger] topics[j]).name != name,
        },
    decreases topics.len() - k,
{
    if k < topics.len() {
        if topics[k].name == name {
            assert(topics[k] == topic_called(topics, name, k)->Some_0);
        } else {
            lemma_topic(topics, name, k + 1);
            if let Some(t) = topic_called(topics, name, k + 1) {
                let i = choose|i: int|
                    {
                        &&& k + 1 <= i < topics.len()
                        &&& #[trigger] topics[i] == t
                        &&& t.name == name
                        &&& forall|j: int| k + 1 <= j < i ==> (#[trigger] topics[j]).name != name
                    };
                assert(topics[i] == t);
            }
        }
    }
}

/// Lines are indented by two spaces each, in order; and other names are noted where there
/// are any.
pub proof fn law_lines_are_indented_in_order(lines: Seq<Seq<char>>, line: Seq<char>)
    ensures
        indented_lines(seq![]) == Seq::<char>::empty(),
        indented_lines(lines.push(line)) == indented_lines(lines) + (seq![' ', ' '] + line + seq![
            '\n',
        ]),
        lines.len() == 0 ==> alias_note(lines).len() == 0,
        lines.len() > 0 ==> alias_note(lines) == "  (alias: "@ + joined(lines, ", "@) + ")"@,
{
    reveal_strlit("  ");
    reveal_strlit("\n");
    assert(lines.push(line).drop_last() =~= lines);
    assert(indented_lines(lines.push(line)) =~= indented_lines(lines) + (seq![' ', ' '] + line
        + seq!['\n']));
}

/// The topics are listed by their names, in order.
pub proof fn law_topics_are_listed_by_name(topics: Seq<TopicV>, i: int)
    requires
        0 <= i < topics.len(),
    ensures
        topic_names(topics).len() == topics.len(),
        topic_names(topics)[i] == topics[i].name,
{
}

/// A topic's page is its name and what it is about, then its text.
pub proof fn law_a_topic_gives_its_page(
    cmds: Seq<CmdHelpV>,
    topics: Seq<TopicV>,
    i: int,
)
    requires
        0 <= i < topics.len(),
        forall|k: int| 0 <= k < i ==> (#[trigger] topics[k]).name != topics[i].name,
        forall|k: int| 0 <= k < cmds.len() ==> !is_called(#[trigger] cmds[k], topics[i].name),
    ensures
        help_text(cmds, topics, Some(topics[i].name)) == Ok::<Seq<char>, Seq<char>>(
            "  "@ + topics[i].name + " — "@ + topics[i].summary + "\n\n"@ + topics[i].body,
        ),
{
    let name = topics[i].name;
    law_the_first_page_called_is_found(cmds, topics, name, 0);
    let t = topic_called(topics, name, 0);
    assert(topics[i].name == name);
    assert(t is Some);
    let k = choose|k: int|
        {
            &&& 0 <= k < topics.len()
            &&& #[trigger] topics[k] == t->Some_0
            &&& t->Some_0.name == name
            &&& forall|j: int| 0 <= j < k ==> (#[trigger] topics[j]).name != name
        };
    if k < i {
        assert(topics[k].name != name);
    }
    if i < k {
        assert(topics[i].name != name);
    }
}

/// A command's page has its name, what it does and its other names, then its forms, its
/// detail and its examples, as far as it has them.
pub proof fn law_a_page_has_its_parts_in_order(c: CmdHelpV)
    ensures
        command_text(c) == trimmed_end(
            "  "@ + c.name + " — "@ + c.summary + alias_note(c.aliases) + "\n\nforms:\n"@
                + indented_lines(c.synopsis) + (if c.detail.len() == 0 {
                Seq::empty()
            } else {
                "\n"@ + c.detail + "\n"@
            }) + (if c.examples.len() == 0 {
                Seq::empty()
            } else {
                "\nexamples:\n"@ + indented_lines(c.examples)
            }),
        ),
{
}

} // verus!
