//! Paging long output through `$PAGER`, the way git does.
//!
//! The caller decides *whether* to page and runs the pager; this module picks the
//! command and its options. The pager is started through `sh -c`, so a `$PAGER`
//! with options of its own (`less -i`) works as it does in git. A table's lines
//! are cut off instead of wrapped, with its header row kept on screen when the
//! table is taller than the window.

use vstd::prelude::*;

use crate::text::{
    chars_of, find_char, next_of, same, split, split_on, split_words, texts, trim, trimmed, words,
    read_digits, all_digits, digits_value, is_digit,
};

verus! {

/// The command that the two variables ask for, trimmed.
pub open spec fn asked_pager(
    csvm_pager: Option<Seq<char>>,
    pager: Option<Seq<char>>,
) -> Seq<char> {
    trimmed(
        match csvm_pager {
            Some(c) => c,
            None => match pager {
                Some(p) => p,
                None => "less"@,
            },
        },
    )
}

/// A borrowed text that may be missing, as its characters.
pub open spec fn opt_str(o: Option<&str>) -> Option<Seq<char>> {
    match o {
        Some(s) => Some(s@),
        None => None,
    }
}

/// The pager to run, none where the one that was asked for is empty or `cat`.
pub open spec fn command_of(csvm_pager: Option<Seq<char>>, pager: Option<Seq<char>>) -> Option<
    Seq<char>,
> {
    let cmd = asked_pager(csvm_pager, pager);
    if cmd.len() == 0 || cmd == "cat"@ {
        None
    } else {
        Some(cmd)
    }
}

/// The pager to run: `$CSVM_PAGER`, else `$PAGER`, else `less`. An empty value
/// or `cat` means no pager, so either variable can turn paging off.
pub fn command(csvm_pager: Option<&str>, pager: Option<&str>) -> (r: Option<String>)
    ensures
        crate::text::opt_text(r) == command_of(opt_str(csvm_pager), opt_str(pager)),
{
    let asked: &str = match csvm_pager {
        Some(c) => c,
        None => match pager {
            Some(p) => p,
            None => "less",
        },
    };
    let cmd = trim(asked);
    if cmd.as_str().is_empty() || same(cmd.as_str(), "cat") {
        None
    } else {
        Some(cmd)
    }
}

/// Whether `c` can start a variable's name.
pub open spec fn name_start(c: char) -> bool {
    c == '_' || 'a' <= c <= 'z' || 'A' <= c <= 'Z'
}

/// Whether `word` sets a variable for the command after it: `NAME=value`.
pub open spec fn assigns(word: Seq<char>) -> bool {
    let e = next_of(word, '=', 0);
    &&& 0 < e < word.len()
    &&& name_start(word[0])
    &&& forall|i: int| 0 <= i < e ==> name_start(#[trigger] word[i]) || is_digit(word[i])
}

fn starts_name(c: char) -> (r: bool)
    ensures
        r == name_start(c),
{
    c == '_' || ('a' <= c && c <= 'z') || ('A' <= c && c <= 'Z')
}

/// Whether `word` sets a variable for the command after it: `NAME=value`.
pub fn is_assignment(word: &str) -> (r: bool)
    ensures
        r == assigns(word@),
{
    let v = chars_of(word);
    let e = find_char(v.as_slice(), '=', 0);
    if e == 0 || e >= v.len() || !starts_name(v[0]) {
        return false;
    }
    let mut i: usize = 0;
    while i < e
        invariant
            i <= e < v.len(),
            v@ == word@,
            e == next_of(word@, '=', 0),
            forall|k: int| 0 <= k < i ==> name_start(#[trigger] word@[k]) || is_digit(word@[k]),
        decreases e - i,
    {
        let c = v[i];
        if !starts_name(c) && !('0' <= c && c <= '9') {
            assert(!(name_start(word@[i as int]) || is_digit(word@[i as int])));
            return false;
        }
        i += 1;
    }
    true
}

/// How many assignments stand before the program.
pub open spec fn assignments_from(ws: Seq<Seq<char>>, i: int) -> int
    decreases ws.len() - i,
{
    if i >= ws.len() || !assigns(ws[i]) {
        i
    } else {
        assignments_from(ws, i + 1)
    }
}

/// The program `cmd` runs: its first word that is not a variable assignment
/// (`LESS=-i less` runs `less`), or nothing.
pub open spec fn program_of(cmd: Seq<char>) -> Seq<char> {
    let i = assignments_from(words(cmd), 0);
    if i < words(cmd).len() {
        words(cmd)[i]
    } else {
        seq![]
    }
}

fn assignments(ws: &Vec<String>) -> (n: usize)
    ensures
        n == assignments_from(texts(ws@), 0),
        n <= ws.len(),
{
    let mut n: usize = 0;
    while n < ws.len() && is_assignment(ws[n].as_str())
        invariant
            n <= ws.len(),
            assignments_from(texts(ws@), 0) == assignments_from(texts(ws@), n as int),
        decreases ws.len() - n,
    {
        assert(texts(ws@)[n as int] == ws@[n as int]@);
        n += 1;
    }
    assert(n < ws.len() ==> texts(ws@)[n as int] == ws@[n as int]@);
    n
}

/// The program `cmd` runs: its first word that is not a variable assignment
/// (`LESS=-i less` runs `less`).
pub fn program(cmd: &str) -> (r: String)
    ensures
        r@ == program_of(cmd@),
{
    let ws = split_words(cmd);
    let n = assignments(&ws);
    assert(ws.len() == words(cmd@).len());
    if n < ws.len() {
        assert(texts(ws@)[n as int] == ws@[n as int]@);
        ws[n].as_str().to_string()
    } else {
        let r = String::new();
        assert(r@ =~= seq![]);
        r
    }
}

/// The last piece of a path that names something, counted back from the first
/// `n` pieces: neither empty nor a single dot.
pub open spec fn last_name(pieces: Seq<Seq<char>>, n: int) -> Option<Seq<char>>
    decreases n,
{
    if n <= 0 || n > pieces.len() {
        None
    } else if pieces[n - 1].len() == 0 || pieces[n - 1] == seq!['.'] {
        last_name(pieces, n - 1)
    } else {
        Some(pieces[n - 1])
    }
}

/// Whether `cmd` runs `less`, by the file name of its program.
pub open spec fn runs_less(cmd: Seq<char>) -> bool {
    let pieces = split(program_of(cmd), '/');
    last_name(pieces, pieces.len() as int) == Some("less"@)
}

/// Whether `cmd` runs `less`, by the file name of its program.
pub fn is_less(cmd: &str) -> (r: bool)
    ensures
        r == runs_less(cmd@),
{
    let pieces = split_on(program(cmd).as_str(), '/');
    let mut n: usize = pieces.len();
    while n > 0
        invariant
            n <= pieces.len(),
            last_name(texts(pieces@), pieces.len() as int) == last_name(texts(pieces@), n as int),
            texts(pieces@) == split(program_of(cmd@), '/'),
            texts(pieces@).len() == pieces.len(),
        decreases n,
    {
        let v = chars_of(pieces[n - 1].as_str());
        assert(texts(pieces@)[n - 1] == v@);
        let dot = v.len() == 1 && v[0] == '.';
        assert(dot == (v@ == seq!['.'])) by {
            if dot {
                assert(v@ =~= seq!['.']);
            }
        }
        if v.len() == 0 || dot {
            n -= 1;
        } else {
            return same(pieces[n - 1].as_str(), "less");
        }
    }
    false
}

/// Where the digits that start `word` end.
pub open spec fn digits_end(word: Seq<char>, i: int) -> int
    decreases word.len() - i,
{
    if i >= word.len() || !is_digit(word[i]) {
        i
    } else {
        digits_end(word, i + 1)
    }
}

/// The number at the front of the second word of a banner, when it fits.
pub open spec fn banner_release(banner: Seq<char>) -> Option<u32> {
    let ws = words(banner);
    let digits = ws[1].take(digits_end(ws[1], 0));
    if ws.len() >= 2 && all_digits(digits) && digits_value(digits) <= u32::MAX {
        Some(digits_value(digits) as u32)
    } else {
        None
    }
}

/// The release number in `less --version`'s first line (`less 668 (…)`); a
/// beta's letter suffix (`661x`) is dropped.
pub fn release_in_banner(banner: &str) -> (r: Option<u32>)
    ensures
        r == banner_release(banner@),
{
    let ws = split_words(banner);
    assert(ws.len() == words(banner@).len());
    if ws.len() < 2 {
        return None;
    }
    let v = chars_of(ws[1].as_str());
    assert(texts(ws@)[1] == v@);
    let mut e: usize = 0;
    while e < v.len() && '0' <= v[e] && v[e] <= '9'
        invariant
            e <= v.len(),
            digits_end(v@, 0) == digits_end(v@, e as int),
        decreases v.len() - e,
    {
        e += 1;
    }
    let digits: &[char] = &v[0..e];
    assert(digits@ =~= v@.take(e as int));
    match read_digits(digits, 0xffff_ffff) {
        Some(n) => Some(n as u32),
        None => None,
    }
}

/// The first general `less` release with `--header` (its NEWS lists the
/// option under the changes from 590 to 608).
pub const LESS_HEADER_SINCE: u32 = 608;

/// The options that a table gets from `less` at that release.
pub open spec fn table_options(version: Option<u32>, tall: bool) -> Seq<Seq<char>> {
    if tall && version is Some && version->0 >= LESS_HEADER_SINCE {
        seq!["-S"@, "--header=1"@]
    } else {
        seq!["-S"@]
    }
}

/// The options a table gets from `less` at `version`: cut long lines off
/// instead of wrapping them (`-S`, so a wide table scrolls sideways and keeps
/// its columns lined up) and, when `tall` (the table does not fit on one
/// screen), keep the header row on screen (`--header=1`, only where the
/// release has it). A short table must not get `--header`: it turns off `-F`,
/// so the table would open in the pager when it could just be printed.
pub fn table_args(version: Option<u32>, tall: bool) -> (r: Vec<&'static str>)
    ensures
        r@.map_values(|s: &'static str| s@) == (if tall && version is Some && version->0
            >= LESS_HEADER_SINCE {
            seq!["-S"@, "--header=1"@]
        } else {
            seq!["-S"@]
        }),
        r@.map_values(|s: &'static str| s@) == table_options(version, tall),
{
    let mut args: Vec<&'static str> = Vec::new();
    args.push("-S");
    let has_header = match version {
        Some(v) => v >= LESS_HEADER_SINCE,
        None => false,
    };
    if tall && has_header {
        args.push("--header=1");
        assert(args@.map_values(|s: &'static str| s@) =~= seq!["-S"@, "--header=1"@]);
    } else {
        assert(args@.map_values(|s: &'static str| s@) =~= seq!["-S"@]);
    }
    args
}

/// Whether the shell can run a pager, as far as its command alone tells.
pub enum Runnable {
    /// It names no program.
    No,
    /// It quotes or escapes its program, or anything before it, so it is left to
    /// the shell whole.
    Yes,
    /// The shell is asked for this program.
    Ask(String),
}

/// Whether `word` quotes or escapes anything.
pub open spec fn quotes(word: Seq<char>) -> bool {
    word.contains('\'') || word.contains('"') || word.contains('\\')
}

/// Whether one of the first `n` words quotes or escapes anything.
pub open spec fn quotes_before(ws: Seq<Seq<char>>, n: int) -> bool {
    exists|i: int| 0 <= i < n && i < ws.len() && quotes(#[trigger] ws[i])
}

fn has_quotes(word: &str) -> (r: bool)
    ensures
        r == quotes(word@),
{
    let v = chars_of(word);
    let mut i: usize = 0;
    while i < v.len()
        invariant
            i <= v.len(),
            v@ == word@,
            forall|k: int|
                0 <= k < i ==> #[trigger] v@[k] != '\'' && v@[k] != '"' && v@[k] != '\\',
        decreases v.len() - i,
    {
        let c = v[i];
        if c == '\'' || c == '"' || c == '\\' {
            assert(word@.contains(v@[i as int]));
            return true;
        }
        i += 1;
    }
    false
}

/// Whether the pager `cmd` can be run, as far as that can be said without the
/// shell. A pager whose program the shell cannot find is not started, and the
/// output goes to stdout instead. A command that quotes or escapes its program,
/// or anything before it, is left to the shell whole, since a single word of it
/// may not parse alone.
pub fn runnable(cmd: &str) -> (r: Runnable)
    ensures
        match r {
            Runnable::No => program_of(cmd@).len() == 0,
            Runnable::Yes => program_of(cmd@).len() > 0 && quotes_before(
                words(cmd@),
                assignments_from(words(cmd@), 0) + 1,
            ),
            Runnable::Ask(p) => {
                &&& program_of(cmd@).len() > 0
                &&& p@ == program_of(cmd@)
                &&& !quotes_before(words(cmd@), assignments_from(words(cmd@), 0) + 1)
            },
        },
{
    let program = program(cmd);
    if program.as_str().is_empty() {
        return Runnable::No;
    }
    let ws = split_words(cmd);
    let n = assignments(&ws);
    let mut i: usize = 0;
    while i <= n && i < ws.len()
        invariant
            i <= n + 1,
            n <= ws.len(),
            program_of(cmd@).len() > 0,
            texts(ws@) == words(cmd@),
            n == assignments_from(words(cmd@), 0),
            forall|k: int| 0 <= k < i && k < ws.len() ==> !quotes(#[trigger] texts(ws@)[k]),
        decreases ws.len() - i,
    {
        assert(texts(ws@)[i as int] == ws@[i as int]@);
        if has_quotes(ws[i].as_str()) {
            assert(quotes(words(cmd@)[i as int]));
            return Runnable::Yes;
        }
        i += 1;
    }
    Runnable::Ask(program)
}

} // verus!
