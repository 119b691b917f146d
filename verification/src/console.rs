//! How output is shown, decided from facts about the terminal and the
//! command line that are gathered once into a [`Console`]. Each rule is a
//! method on it, so it can be tested without a terminal.

use vstd::prelude::*;

use crate::cli::{Args, ColorWhen};
use crate::color::Depth;
use crate::text::{opt_text, same};

verus! {

/// Where stdout goes, as far as the way output is shown cares.
#[derive(Clone, Copy, Debug, PartialEq, Eq, Structural)]
pub enum Sink {
    /// The terminal the user is looking at.
    Terminal,
    /// A pipe or a socket into another program, which may itself be showing
    /// the output on the terminal (a `less`).
    Pipe,
    /// Anything else: `-o FILE`, or the shell's `>` to a file or a device
    /// such as `/dev/null`.
    File,
}

/// The terminal csvm runs in, and what the user asked for about it: the facts
/// every decision about how output is shown starts from.
#[derive(Clone, Debug)]
pub struct Console {
    /// `--color`.
    pub color: ColorWhen,
    /// `NO_COLOR` is set and not empty.
    pub no_color: bool,
    /// `CLICOLOR_FORCE` is set and not `0`.
    pub force_color: bool,
    /// The depth `$COLORTERM` announces.
    pub depth: Depth,
    /// `TERM=dumb`: the terminal prints text and nothing else.
    pub dumb: bool,
    /// Where stdout goes.
    pub stdout: Sink,
    /// The terminal's column count, when it is known.
    pub columns: Option<usize>,
    /// The terminal's row count, when it is known.
    pub rows: Option<usize>,
    /// stderr is a terminal.
    pub stderr_terminal: bool,
    /// The input is stdin, and stdin is a terminal: someone is typing it.
    pub typed_input: bool,
    /// The pager to run, from `$CSVM_PAGER` and `$PAGER` (see
    /// [`crate::pager::command`]); `None` when they turn paging off.
    pub pager_command: Option<String>,
    /// `--no-pager`.
    pub no_pager: bool,
    /// `--no-progress`.
    pub no_progress: bool,
}

/// What rendering needs to know about where its output is shown.
#[derive(Clone, Copy, Debug)]
pub struct Screen {
    /// The depth colour is drawn at, or `None` with colour off.
    pub color: Option<Depth>,
    /// The width of the terminal, when the output goes to it.
    pub width: Option<usize>,
    /// Whether a table is fitted to the width.
    pub fit: bool,
    /// Whether web addresses become links.
    pub links: bool,
}

/// How many newlines there are in `bytes`.
pub open spec fn newlines(bytes: Seq<u8>) -> nat
    decreases bytes.len(),
{
    if bytes.len() == 0 {
        0
    } else {
        newlines(bytes.drop_first()) + if bytes[0] == 10u8 {
            1nat
        } else {
            0nat
        }
    }
}

proof fn lemma_newlines_behind(bytes: Seq<u8>, i: int)
    requires
        0 <= i < bytes.len(),
        bytes[i] == 10u8,
        forall|k: int| 0 <= k < i ==> bytes[k] != 10u8,
    ensures
        newlines(bytes) == newlines(bytes.skip(i + 1)) + 1,
    decreases i,
{
    if i > 0 {
        let rest = bytes.drop_first();
        assert forall|k: int| 0 <= k < i - 1 implies rest[k] != 10u8 by {
            assert(rest[k] == bytes[k + 1]);
        }
        lemma_newlines_behind(rest, i - 1);
        assert(rest.skip(i) =~= bytes.skip(i + 1));
    } else {
        assert(bytes.skip(1) =~= bytes.drop_first());
    }
}

proof fn lemma_no_newlines(bytes: Seq<u8>)
    requires
        forall|k: int| 0 <= k < bytes.len() ==> bytes[k] != 10u8,
    ensures
        newlines(bytes) == 0,
    decreases bytes.len(),
{
    if bytes.len() > 0 {
        lemma_no_newlines(bytes.drop_first());
    }
}

/// The environment variables that say how output is shown; `None` for one that is
/// not set.
pub struct Vars {
    pub no_color: Option<String>,
    pub clicolor_force: Option<String>,
    pub term: Option<String>,
    pub csvm_pager: Option<String>,
    pub pager: Option<String>,
}

/// What the streams are connected to: where stdout goes, the depth and the size of
/// the terminal, whether stderr is one, and whether stdin is.
pub struct Streams {
    pub stdout: Sink,
    pub depth: Depth,
    pub columns: Option<usize>,
    pub rows: Option<usize>,
    pub stderr_terminal: bool,
    pub stdin_terminal: bool,
}

impl Console {
    /// The facts for a run with no flags, from the environment and what the
    /// streams are connected to.
    pub fn from_env(vars: &Vars, streams: &Streams) -> (r: Console)
        ensures
            r.color == ColorWhen::Auto,
            r.no_color == (opt_text(vars.no_color) matches Some(v) && v.len() > 0),
            r.force_color == (opt_text(vars.clicolor_force) matches Some(v) && v != "0"@),
            r.dumb == (opt_text(vars.term) == Some("dumb"@)),
            r.depth == streams.depth,
            r.stdout == streams.stdout,
            r.columns == streams.columns,
            r.rows == streams.rows,
            r.stderr_terminal == streams.stderr_terminal,
            r.typed_input == streams.stdin_terminal,
            opt_text(r.pager_command) == crate::pager::command_of(
                opt_text(vars.csvm_pager),
                opt_text(vars.pager),
            ),
            !r.no_pager,
            !r.no_progress,
    {
        let no_color = match &vars.no_color {
            Some(v) => !v.as_str().is_empty(),
            None => false,
        };
        let force_color = match &vars.clicolor_force {
            Some(v) => !same(v.as_str(), "0"),
            None => false,
        };
        let dumb = match &vars.term {
            Some(v) => same(v.as_str(), "dumb"),
            None => false,
        };
        let csvm_pager = match &vars.csvm_pager {
            Some(v) => Some(v.as_str()),
            None => None,
        };
        let pager = match &vars.pager {
            Some(v) => Some(v.as_str()),
            None => None,
        };
        Console {
            color: ColorWhen::Auto,
            no_color,
            force_color,
            depth: streams.depth,
            dumb,
            stdout: streams.stdout,
            columns: streams.columns,
            rows: streams.rows,
            stderr_terminal: streams.stderr_terminal,
            typed_input: streams.stdin_terminal,
            pager_command: crate::pager::command(csvm_pager, pager),
            no_pager: false,
            no_progress: false,
        }
    }

    /// Whether a stream is coloured: an explicit `--color always`/`never` wins.
    /// Under `auto`, `NO_COLOR` turns colour off and `CLICOLOR_FORCE` on, else
    /// the stream must go to a `terminal`, and not `TERM=dumb`.
    pub open spec fn coloring(self, terminal: bool) -> bool {
        match self.color {
            ColorWhen::Always => true,
            ColorWhen::Never => false,
            ColorWhen::Auto => !self.no_color && (self.force_color || (terminal && !self.dumb)),
        }
    }

    /// The depth colour is drawn at on stdout, or `None` with colour off.
    pub open spec fn drawn(self) -> Option<Depth> {
        if self.coloring(self.stdout == Sink::Terminal) {
            Some(self.depth)
        } else {
            None
        }
    }

    /// The width that output is laid out in.
    pub open spec fn shown_width(self) -> Option<usize> {
        if self.stdout == Sink::Terminal {
            self.columns
        } else {
            None
        }
    }

    /// Whether output shown on the terminal goes through a pager.
    pub open spec fn paging(self) -> bool {
        self.stdout == Sink::Terminal && !self.dumb && !self.no_pager
            && self.pager_command is Some
    }

    /// What rendering is told of a pager that shows links or not, or of none.
    pub open spec fn seen_through(self, pager: Option<bool>) -> Screen {
        Screen {
            color: self.drawn(),
            width: self.shown_width(),
            fit: pager is None,
            links: self.linking() && pager != Some(false),
        }
    }

    /// Whether output has as many lines as the window.
    pub open spec fn filled_by(self, output: Seq<u8>) -> bool {
        self.rows is Some && newlines(output) >= self.rows->0
    }

    /// Whether the progress meter is drawn on stderr.
    pub open spec fn metering(self, buffered: bool) -> bool {
        &&& !self.no_progress
        &&& self.stderr_terminal
        &&& !self.dumb
        &&& !self.typed_input
        &&& self.stdout == Sink::File || (self.stdout == Sink::Terminal && buffered)
    }

    /// Whether web addresses become links.
    pub open spec fn linking(self) -> bool {
        self.drawn() is Some && self.stdout == Sink::Terminal
    }

    /// The facts for a run of `args`: those of a run with no flags, with its
    /// flags, its output file and its input file.
    pub fn read(env: Console, args: &Args, no_pager: bool, no_progress: bool) -> (r: Console)
        ensures
            r == (Console {
                color: args.color,
                stdout: if args.out_file is Some {
                    Sink::File
                } else {
                    env.stdout
                },
                typed_input: env.typed_input && args.input() is None,
                no_pager,
                no_progress,
                ..env
            }),
    {
        Console {
            color: args.color,
            stdout: if args.out_path().is_some() {
                Sink::File
            } else {
                env.stdout
            },
            typed_input: env.typed_input && args.in_path().is_none(),
            no_pager,
            no_progress,
            ..env
        }
    }

    /// The depth colour is drawn at on stdout, or `None` with colour off.
    pub fn color(&self) -> (r: Option<Depth>)
        ensures
            r == self.drawn(),
    {
        if self.colors(self.stdout == Sink::Terminal) {
            Some(self.depth)
        } else {
            None
        }
    }

    /// Whether an error on stderr is coloured, by the rules stdout's colour
    /// follows.
    pub fn error_color(&self) -> (r: bool)
        ensures
            r == self.coloring(self.stderr_terminal),
    {
        self.colors(self.stderr_terminal)
    }

    /// Whether to colour a stream: an explicit `--color always`/`never` wins.
    /// Under `auto`, `NO_COLOR` turns colour off and `CLICOLOR_FORCE` on, else
    /// the stream must go to a `terminal`, and not `TERM=dumb`.
    fn colors(&self, terminal: bool) -> (r: bool)
        ensures
            r == self.coloring(terminal),
    {
        match self.color {
            ColorWhen::Always => true,
            ColorWhen::Never => false,
            ColorWhen::Auto => if self.no_color {
                false
            } else if self.force_color {
                true
            } else {
                terminal && !self.dumb
            },
        }
    }

    /// The terminal's width, when stdout is the terminal: a chart's default
    /// width, and the width a table is fitted to.
    pub fn width(&self) -> (r: Option<usize>)
        ensures
            r == self.shown_width(),
    {
        if self.stdout == Sink::Terminal {
            self.columns
        } else {
            None
        }
    }

    /// Whether output shown on the terminal goes through a pager.
    pub fn pages(&self) -> (r: bool)
        ensures
            r == (self.stdout == Sink::Terminal && !self.dumb && !self.no_pager
                && self.pager_command is Some),
            r == self.paging(),
    {
        self.stdout == Sink::Terminal && !self.dumb && !self.no_pager
            && self.pager_command.is_some()
    }

    /// Whether `output`, one line on screen per line of it, has as many lines
    /// as the window, so a pager would scroll it.
    pub fn fills(&self, output: &[u8]) -> (r: bool)
        requires
            self.rows != Some(0usize),
        ensures
            r == (self.rows is Some && newlines(output@) >= self.rows->0),
            r == self.filled_by(output@),
    {
        let rows: usize = match self.rows {
            None => {
                return false;
            },
            Some(rows) => rows,
        };
        let mut seen: usize = 0;
        let mut at: usize = 0;
        assert(output@.skip(0) =~= output@);
        while seen < rows
            invariant
                at <= output.len(),
                seen <= rows,
                self.rows == Some(rows),
                newlines(output@) == seen + newlines(output@.skip(at as int)),
            decreases rows - seen,
        {
            let rest: &[u8] = &output[at..output.len()];
            assert(rest@ =~= output@.skip(at as int));
            match memchr::memchr(10, rest) {
                None => {
                    proof {
                        lemma_no_newlines(rest@);
                    }
                    return false;
                },
                Some(i) => {
                    proof {
                        lemma_newlines_behind(rest@, i as int);
                        assert(rest@.skip(i + 1) =~= output@.skip(at + i + 1));
                    }
                    at = at + i + 1;
                    seen += 1;
                },
            }
        }
        true
    }

    /// Whether a table's web addresses become links. A link is an escape like a
    /// colour, and only a terminal opens it, so it needs colour on and stdout
    /// the terminal.
    pub fn links(&self) -> (r: bool)
        ensures
            r == self.linking(),
    {
        self.color().is_some() && self.stdout == Sink::Terminal
    }

    /// What rendering needs to know about where its output is shown, through a
    /// pager when there is one (and then whether it shows links): a paged table
    /// is not fitted, since the pager scrolls it sideways, and links only reach a
    /// pager that shows them.
    pub fn screen(&self, pager: Option<bool>) -> (r: Screen)
        ensures
            r == (Screen {
                color: self.drawn(),
                width: self.shown_width(),
                fit: pager is None,
                links: self.linking() && pager != Some(false),
            }),
            r == self.seen_through(pager),
    {
        let links = self.links() && match pager {
            None => true,
            Some(shows) => shows,
        };
        Screen { color: self.color(), width: self.width(), fit: pager.is_none(), links }
    }

    /// Whether to draw the progress meter on stderr. It needs a terminal on
    /// stderr that nothing else is drawing on while the run reads: nobody
    /// typing the input into it, and stdout not writing rows to it (`buffered`
    /// output waits for the run) nor feeding a program that may be showing
    /// them there (a pipe into `less`).
    pub fn meter(&self, buffered: bool) -> (r: bool)
        ensures
            r == {
                &&& !self.no_progress
                &&& self.stderr_terminal
                &&& !self.dumb
                &&& !self.typed_input
                &&& self.stdout == Sink::File || (self.stdout == Sink::Terminal && buffered)
            },
            r == self.metering(buffered),
    {
        let quiet_stdout = match self.stdout {
            Sink::Terminal => buffered,
            Sink::File => true,
            Sink::Pipe => false,
        };
        !self.no_progress && self.stderr_terminal && !self.dumb && !self.typed_input && quiet_stdout
    }
}

impl Args {
    /// The input file; `-` and none at all are stdin.
    pub open spec fn input(self) -> Option<Seq<char>> {
        match self.in_file {
            Some(f) => if f@ == "-"@ {
                None
            } else {
                Some(f@)
            },
            None => None,
        }
    }

    /// The input file, or `None` for stdin.
    pub fn in_path(&self) -> (r: Option<&str>)
        ensures
            crate::pager::opt_str(r) == self.input(),
    {
        match &self.in_file {
            Some(f) => if same(f.as_str(), "-") {
                None
            } else {
                Some(f.as_str())
            },
            None => None,
        }
    }

    /// The output file, or `None` for stdout.
    pub fn out_path(&self) -> (r: Option<&str>)
        ensures
            crate::pager::opt_str(r) == opt_text(self.out_file),
    {
        match &self.out_file {
            Some(f) => Some(f.as_str()),
            None => None,
        }
    }
}

} // verus!
