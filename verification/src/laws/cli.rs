//! What the command line asks for.

use crate::cli::{
    ArgsV, ColorWhen, FlagV, HeaderV, InputFormat, MAX_THREADS, OptsV, ParsedV, ScanV, UsageV,
    asked, flag_kind, flag_of, header_of, no_opts, parsed_of, scan, size_of_text, suffix_of,
    takes_value, threads_for, with_value_of,
};
use crate::csv::line_fields;
use crate::laws::csv::{law_a_line_is_read_between_its_commas, plain};
use crate::text::{
    all_digits, digits_value, int_value, is_white, joined, lemma_next_of, next_of, starts_with,
    trimmed,
};
use vstd::prelude::*;

verus! {

/// What each option is for, by its short and its long name.
pub proof fn law_options_go_by_their_names()
    ensures
        flag_kind("-h"@) is Help && flag_kind("--help"@) is Help,
        flag_kind("-V"@) is Version && flag_kind("--version"@) is Version,
        flag_kind("-o"@) is Output && flag_kind("--output"@) is Output,
        flag_kind("-n"@) is Threads && flag_kind("--threads"@) is Threads,
        flag_kind("-f"@) is File && flag_kind("--file"@) is File,
        flag_kind("-t"@) is TempDir && flag_kind("--temp-dir"@) is TempDir,
        flag_kind("--chunk-size"@) is ChunkSize,
        flag_kind("--sort-buffer"@) is SortBuffer,
        flag_kind("--explain"@) is Explain,
        flag_kind("--header"@) is Header,
        flag_kind("--format"@) is Format,
        flag_kind("--color"@) is Color,
        flag_kind("-"@) is Positional,
{
    reveal_strlit("-h");
    reveal_strlit("--help");
    reveal_strlit("-V");
    reveal_strlit("--version");
    reveal_strlit("-o");
    reveal_strlit("--output");
    reveal_strlit("-n");
    reveal_strlit("--threads");
    reveal_strlit("-f");
    reveal_strlit("--file");
    reveal_strlit("-t");
    reveal_strlit("--temp-dir");
    reveal_strlit("--chunk-size");
    reveal_strlit("--sort-buffer");
    reveal_strlit("--explain");
    reveal_strlit("--header");
    reveal_strlit("--format");
    reveal_strlit("--color");
    reveal_strlit("-");
    assert("-h"@[1] == 'h' && "-V"@[1] == 'V' && "-o"@[1] == 'o' && "-n"@[1] == 'n' && "-f"@[1]
        == 'f' && "-t"@[1] == 't');
    assert("-"@.len() == 1 && "-h"@.len() == 2 && "-V"@.len() == 2 && "-o"@.len() == 2 && "-n"@.len() == 2
        && "-f"@.len() == 2 && "-t"@.len() == 2);
    assert("--help"@.len() == 6 && "--version"@.len() == 9 && "--output"@.len() == 8
        && "--threads"@.len() == 9 && "--file"@.len() == 6 && "--temp-dir"@.len() == 10
        && "--chunk-size"@.len() == 12 && "--sort-buffer"@.len() == 13 && "--explain"@.len() == 9
        && "--header"@.len() == 8 && "--format"@.len() == 8 && "--color"@.len() == 7);
    assert("--help"@[2] == 'h' && "--file"@[2] == 'f');
    assert("--version"@[2] == 'v' && "--threads"@[2] == 't' && "--explain"@[2] == 'e');
    assert("--output"@[2] == 'o' && "--header"@[2] == 'h' && "--format"@[2] == 'f');
}

/// What an argument that begins with a dash, and names no option, is: a mistake; and one
/// that does not begin with a dash is the script, the input, or too much.
pub proof fn law_a_dash_begins_an_option(arg: Seq<char>)
    ensures
        arg.len() == 0 || arg[0] != '-' ==> flag_kind(arg) is Positional,
        arg.len() > 1 && arg[0] == '-' ==> !(flag_kind(arg) is Positional),
{
    reveal_strlit("-h");
    reveal_strlit("--help");
    reveal_strlit("-V");
    reveal_strlit("--version");
    reveal_strlit("-o");
    reveal_strlit("--output");
    reveal_strlit("-n");
    reveal_strlit("--threads");
    reveal_strlit("-f");
    reveal_strlit("--file");
    reveal_strlit("-t");
    reveal_strlit("--temp-dir");
    reveal_strlit("--chunk-size");
    reveal_strlit("--sort-buffer");
    reveal_strlit("--explain");
    reveal_strlit("--header");
    reveal_strlit("--format");
    reveal_strlit("--color");
    reveal_strlit("-");
    assert("-h"@[0] == '-' && "-V"@[0] == '-' && "-o"@[0] == '-' && "-n"@[0] == '-' && "-f"@[0]
        == '-' && "-t"@[0] == '-' && "-"@[0] == '-');
    assert("--help"@[0] == '-' && "--version"@[0] == '-' && "--output"@[0] == '-'
        && "--threads"@[0] == '-' && "--file"@[0] == '-' && "--temp-dir"@[0] == '-'
        && "--chunk-size"@[0] == '-' && "--sort-buffer"@[0] == '-' && "--explain"@[0] == '-'
        && "--header"@[0] == '-' && "--format"@[0] == '-' && "--color"@[0] == '-');
    if starts_with(arg, "-"@) {
        assert(arg.take(1)[0] == arg[0]);
    }
    if arg.len() > 1 && arg[0] == '-' {
        assert(arg.take(1) =~= "-"@);
    }
}

/// A long option takes its value behind an equals sign just as it takes it as the next
/// argument.
pub proof fn law_a_value_stands_behind_or_next(
    args: Seq<Seq<char>>,
    i: int,
    o: OptsV,
    flag: Seq<char>,
    v: Seq<char>,
)
    requires
        0 <= i < args.len(),
        args[i] == flag + seq!['='] + v,
        starts_with(flag, "--"@),
        forall|k: int| 0 <= k < flag.len() ==> #[trigger] flag[k] != '=',
        takes_value(flag_kind(flag)),
    ensures
        scan(args, i, o) == match with_value_of(o, flag_kind(flag), v) {
            Ok(next) => scan(args, i + 1, next),
            Err(e) => ScanV::Fail(i, e),
        },
{
    let raw = args[i];
    let n = flag.len() as int;
    lemma_next_of(raw, '=', 0);
    let m = next_of(raw, '=', 0);
    assert(raw[n] == '=');
    if m < n {
        assert(raw[m] == flag[m]);
    }
    assert(m == n) by {
        if n < m {
            assert(raw[n] != '=');
        }
    }
    assert(raw.take(n) =~= flag);
    assert(raw.skip(n + 1) =~= v);
}

/// An option takes its value as the next argument; without one it is a mistake.
pub proof fn law_a_value_is_the_next_argument(
    args: Seq<Seq<char>>,
    i: int,
    o: OptsV,
)
    requires
        0 <= i < args.len(),
        forall|k: int| 0 <= k < args[i].len() ==> #[trigger] args[i][k] != '=',
        takes_value(flag_kind(args[i])),
    ensures
        scan(args, i, o) == (if i + 1 < args.len() {
            match with_value_of(o, flag_kind(args[i]), args[i + 1]) {
                Ok(next) => scan(args, i + 2, next),
                Err(e) => ScanV::Fail(i + 1, e),
            }
        } else {
            ScanV::Fail(i, "missing value for "@ + args[i])
        }),
{
    lemma_next_of(args[i], '=', 0);
}

/// Whether the options differ in no more than what the option sets.
pub open spec fn sets_only(f: FlagV, o: OptsV, to: OptsV) -> bool {
    &&& to.positionals == o.positionals
    &&& to.places == o.places
    &&& to.explain == o.explain
    &&& !(f is Output) ==> to.out_file == o.out_file
    &&& !(f is Threads) ==> to.threads == o.threads
    &&& !(f is File) ==> to.script_file == o.script_file
    &&& !(f is TempDir) ==> to.temp_dir == o.temp_dir
    &&& !(f is ChunkSize) ==> to.chunk_size == o.chunk_size
    &&& !(f is SortBuffer) ==> to.sort_buffer == o.sort_buffer
    &&& !(f is Header) ==> to.header == o.header
    &&& !(f is Format) ==> to.format == o.format
    &&& !(f is Color) ==> to.color == o.color
}

/// An option sets what it is for, to its value, and nothing else; the last one wins.
pub proof fn law_an_option_sets_what_it_is_for(o: OptsV, f: FlagV, v: Seq<char>)
    requires
        takes_value(f),
    ensures
        with_value_of(o, f, v) matches Ok(to) ==> {
            &&& sets_only(f, o, to)
            &&& f is Output ==> to.out_file == Some(v)
            &&& f is File ==> to.script_file == Some(v)
            &&& f is TempDir ==> to.temp_dir == Some(v)
            &&& f is Threads ==> to.threads == int_value(v)
            &&& f is ChunkSize ==> size_of_text(v) is Some && to.chunk_size == (if size_of_text(
                v,
            )->0 > 0 {
                size_of_text(v)->0 as usize
            } else {
                1_000_000
            })
            &&& f is SortBuffer ==> size_of_text(v) is Some && to.sort_buffer == (if size_of_text(
                v,
            )->0 > 0 {
                size_of_text(v)->0 as usize
            } else {
                268_435_456
            })
            &&& f is Header ==> header_of(v) is Ok && to.header == Some(header_of(v)->Ok_0)
            &&& f is Format ==> match to.format {
                Some(InputFormat::Csv) => v == "csv"@,
                Some(InputFormat::Parquet) => v == "parquet"@,
                None => false,
            }
            &&& f is Color ==> v == match to.color {
                ColorWhen::Auto => "auto"@,
                ColorWhen::Always => "always"@,
                ColorWhen::Never => "never"@,
            }
        },
        with_value_of(o, f, v) is Err ==> match f {
            FlagV::Threads => int_value(v) is None,
            FlagV::ChunkSize => size_of_text(v) is None,
            FlagV::SortBuffer => size_of_text(v) is None,
            FlagV::Header => header_of(v) is Err,
            FlagV::Format => v != "csv"@ && v != "parquet"@,
            FlagV::Color => v != "auto"@ && v != "always"@ && v != "never"@,
            _ => false,
        },
{
}

/// The first argument that is no option is the script and the second the input; where a
/// file has the script, the first is the input. More than that is a mistake, and so is a
/// run without a script.
pub proof fn law_the_script_comes_before_the_input(o: OptsV, cores: usize)
    requires
        o.places.len() == o.positionals.len(),
        o.positionals.len() > 0 ==> o.positionals[0] != "help"@,
    ensures
        ({
            let p = o.positionals;
            match asked(o, cores) {
                Ok(ParsedV::Run(a)) => {
                    &&& a.script_file == o.script_file
                    &&& o.script_file is None ==> {
                        &&& 1 <= p.len() <= 2
                        &&& a.script == p[0]
                        &&& a.script_at == Some(o.places[0])
                        &&& a.in_file == (if p.len() == 2 {
                            Some(p[1])
                        } else {
                            None
                        })
                    }
                    &&& o.script_file is Some ==> {
                        &&& p.len() <= 1
                        &&& a.script_at is None
                        &&& a.in_file == (if p.len() == 1 {
                            Some(p[0])
                        } else {
                            None
                        })
                    }
                    &&& a.out_file == o.out_file
                    &&& a.temp_dir == o.temp_dir
                    &&& a.chunk_size == o.chunk_size
                    &&& a.sort_buffer == o.sort_buffer
                    &&& a.explain == o.explain
                    &&& a.color == o.color
                    &&& a.header == o.header
                    &&& a.format == o.format
                },
                Ok(_) => false,
                Err(e) => if o.script_file is Some {
                    p.len() > 1 && e.arg == Some(o.places[1])
                } else {
                    p.len() == 0 && e.arg is None || p.len() > 2 && e.arg == Some(o.places[2])
                },
            }
        }),
{
    let p = o.positionals;
    if o.script_file is None {
        if p.len() > 1 {
            assert(p.skip(1)[0] == p[1]);
        }
    } else {
        assert(p.skip(0) =~= p);
    }
}

/// A run has at least one thread and no more than there may be, and as many as were asked
/// for in between; without being asked, as many as there are cores.
pub proof fn law_threads_stay_in_bounds(requested: Option<i64>, cores: usize)
    ensures
        1 <= threads_for(requested, cores) <= MAX_THREADS,
        requested matches Some(n) ==> {
            &&& 1 <= n <= MAX_THREADS ==> threads_for(requested, cores) == n
            &&& n < 1 ==> threads_for(requested, cores) == 1
            &&& n > MAX_THREADS ==> threads_for(requested, cores) == MAX_THREADS
        },
        requested is None && 1 <= cores <= MAX_THREADS ==> threads_for(requested, cores) == cores,
{
}

proof fn lemma_untrimmed(s: Seq<char>)
    requires
        s.len() > 0,
        !is_white(s[0]),
        !is_white(s.last()),
    ensures
        trimmed(s) == s,
{
}

/// A size is its number, times 1024 with a `K` behind it, times that again with an `M`,
/// and again with a `G`, in capitals or not.
pub proof fn law_sizes_go_by_their_suffix(digits: Seq<char>, n: nat)
    requires
        all_digits(digits),
        n == digits_value(digits),
        n * 1_073_741_824 <= i64::MAX,
    ensures
        size_of_text(digits) == Some(n as i64),
        size_of_text(digits.push('k')) == Some((n * 1024) as i64),
        size_of_text(digits.push('K')) == Some((n * 1024) as i64),
        size_of_text(digits.push('m')) == Some((n * 1024 * 1024) as i64),
        size_of_text(digits.push('M')) == Some((n * 1024 * 1024) as i64),
        size_of_text(digits.push('g')) == Some((n * 1024 * 1024 * 1024) as i64),
        size_of_text(digits.push('G')) == Some((n * 1024 * 1024 * 1024) as i64),
{
    assert(crate::text::is_digit(digits[0]));
    assert(crate::text::is_digit(digits[digits.len() - 1]));
    lemma_untrimmed(digits);
    assert(int_value(digits) == Some(n as i64));
    lemma_size(digits, 'k', n);
    lemma_size(digits, 'K', n);
    lemma_size(digits, 'm', n);
    lemma_size(digits, 'M', n);
    lemma_size(digits, 'g', n);
    lemma_size(digits, 'G', n);
}

proof fn lemma_size(digits: Seq<char>, c: char, n: nat)
    requires
        all_digits(digits),
        n == digits_value(digits),
        n * 1_073_741_824 <= i64::MAX,
        suffix_of(c) is Some,
    ensures
        size_of_text(digits.push(c)) == Some((n * suffix_of(c)->0) as i64),
{
    let s = digits.push(c);
    assert(crate::text::is_digit(digits[0]));
    assert(crate::text::is_digit(digits[digits.len() - 1]));
    assert(!is_white(c));
    assert(s[0] == digits[0]);
    lemma_untrimmed(s);
    lemma_untrimmed(digits);
    assert(int_value(digits) == Some(n as i64));
    assert(s.drop_last() =~= digits);
    let m = suffix_of(c)->0;
    assert(0 <= n * m <= n * 1_073_741_824) by (nonlinear_arith)
        requires
            0 < m <= 1_073_741_824,
            0 <= n,
    ;
}

/// A command line that is just a script runs it over the input there is, with everything
/// else as it is by default.
pub proof fn law_a_script_alone_runs_with_the_defaults(script: Seq<char>, cores: usize)
    requires
        script.len() > 0 ==> script[0] != '-',
        script != "help"@,
    ensures
        parsed_of(seq![script], cores) == Ok::<ParsedV, UsageV>(
            ParsedV::Run(
                ArgsV {
                    script,
                    script_at: Some(0),
                    script_file: None,
                    in_file: None,
                    out_file: None,
                    threads: threads_for(None, cores),
                    temp_dir: None,
                    chunk_size: 1_000_000,
                    sort_buffer: 268_435_456,
                    explain: false,
                    color: ColorWhen::Auto,
                    header: None,
                    format: None,
                },
            ),
        ),
{
    let args = seq![script];
    lemma_next_of(script, '=', 0);
    reveal_strlit("--");
    let n = next_of(script, '=', 0);
    assert(flag_of(script).0 == script) by {
        if n < script.len() && starts_with(script.take(n), "--"@) {
            assert(script.take(n).take(2)[0] == script[0]);
        }
    }
    law_a_dash_begins_an_option(script);
    reveal_with_fuel(scan, 3);
    let o = OptsV {
        positionals: Seq::<Seq<char>>::empty().push(script),
        places: Seq::<int>::empty().push(0),
        ..no_opts()
    };
    assert(scan(args, 0, no_opts()) == ScanV::Done(o));
    assert(o.positionals.skip(1).len() == 0);
}

/// What an argument that takes no value does: a positional one is kept with its place,
/// `--explain` asks for the plan, `--help` and `--version` end the reading, and an option
/// that there is none of is a mistake there.
pub proof fn law_arguments_without_values(args: Seq<Seq<char>>, i: int, o: OptsV)
    requires
        0 <= i < args.len(),
        forall|k: int| 0 <= k < args[i].len() ==> #[trigger] args[i][k] != '=',
    ensures
        match flag_kind(args[i]) {
            FlagV::Positional => scan(args, i, o) == scan(
                args,
                i + 1,
                OptsV {
                    positionals: o.positionals.push(args[i]),
                    places: o.places.push(i),
                    ..o
                },
            ),
            FlagV::Explain => scan(args, i, o) == scan(args, i + 1, OptsV { explain: true, ..o }),
            FlagV::Help => scan(args, i, o) == ScanV::Help,
            FlagV::Version => scan(args, i, o) == ScanV::Version,
            FlagV::Unknown => scan(args, i, o) matches ScanV::Fail(at, _) && at == i,
            _ => true,
        },
        scan(args, args.len() as int, o) == ScanV::Done(o),
{
    lemma_next_of(args[i], '=', 0);
}

/// `--header` names the columns between its commas, in order; an empty one, or a dash,
/// leaves them to be numbered.
pub proof fn law_the_header_option_names_the_columns(names: Seq<Seq<char>>)
    requires
        names.len() > 0,
        forall|i: int|
            0 <= i < names.len() ==> plain(#[trigger] names[i]) && names[i].len() > 0 && !is_white(
                names[i][0],
            ) && !is_white(names[i].last()),
        names != seq![seq!['-']],
    ensures
        header_of(joined(names, seq![','])) == Ok::<HeaderV, Seq<char>>(HeaderV::Named(names)),
        header_of(seq![]) == Ok::<HeaderV, Seq<char>>(HeaderV::Auto),
        header_of(seq!['-']) == Ok::<HeaderV, Seq<char>>(HeaderV::Auto),
{
    let v = joined(names, seq![',']);
    lemma_ends(names);
    lemma_untrimmed(v);
    law_a_line_is_read_between_its_commas(names);
    let got = line_fields(v).map_values(|n: Seq<char>| trimmed(n));
    assert forall|i: int| 0 <= i < names.len() implies got[i] == names[i] by {
        assert(plain(names[i]));
        lemma_untrimmed(names[i]);
    }
    assert(got =~= names);
    reveal_strlit("-");
    assert("-"@ =~= seq!['-']);
    if v == "-"@ {
        assert(names.len() == 1) by {
            if names.len() > 1 {
                assert(names[0].len() > 0 && names[names.len() - 1].len() > 0);
                lemma_longer(names);
            }
        }
        assert(names =~= seq![seq!['-']]);
    }
    lemma_untrimmed(seq!['-']);
}

proof fn lemma_longer(names: Seq<Seq<char>>)
    requires
        names.len() > 1,
        forall|i: int| 0 <= i < names.len() ==> (#[trigger] names[i]).len() > 0,
    ensures
        joined(names, seq![',']).len() > 1,
{
    assert(names.last().len() > 0);
}

proof fn lemma_ends(names: Seq<Seq<char>>)
    requires
        names.len() > 0,
        forall|i: int| 0 <= i < names.len() ==> (#[trigger] names[i]).len() > 0,
    ensures
        joined(names, seq![',']).len() > 0,
        joined(names, seq![','])[0] == names[0][0],
        joined(names, seq![',']).last() == names.last().last(),
    decreases names.len(),
{
    assert(names.last().len() > 0);
    if names.len() > 1 {
        let front = names.drop_last();
        assert forall|i: int| 0 <= i < front.len() implies (#[trigger] front[i]).len() > 0 by {
            assert(front[i] == names[i]);
        }
        lemma_ends(front);
    }
}

} // verus!
