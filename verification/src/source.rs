//! Where input comes from and what its columns are called: the choices a run
//! makes before it reads rows.

use crate::cli::{Args, Header, InputFormat};
use crate::csv::line_fields;
use crate::outside::utf8_fault;
use crate::pager::opt_str;
use crate::plan::{OutputFormat, Plan};
use crate::resolve::copy_names;
use crate::stream::{fields_of_line, no_header, without_newline};
use crate::text::{cat2, chars_of, decimal, show_usize, texts};
use vstd::prelude::*;
use vstd::utf8::{decode_utf8, valid_utf8};

verus! {

/// An ASCII letter made small; any other character as it is.
pub open spec fn small(c: char) -> char {
    if 'A' <= c <= 'Z' {
        ((c as u32 + 32) as u32) as char
    } else {
        c
    }
}

/// The text with its ASCII letters made small.
pub open spec fn smalls(s: Seq<char>) -> Seq<char> {
    s.map_values(|c: char| small(c))
}

fn is_parquet(extension: &str) -> (r: bool)
    ensures
        r == (smalls(extension@) == "parquet"@),
{
    let v = chars_of(extension);
    let want = chars_of("parquet");
    if v.len() != want.len() {
        return false;
    }
    let mut i: usize = 0;
    while i < v.len()
        invariant
            i <= v@.len(),
            v@ == extension@,
            want@ == "parquet"@,
            v@.len() == want@.len(),
            forall|k: int| 0 <= k < i ==> small(#[trigger] v@[k]) == want@[k],
        decreases v@.len() - i,
    {
        let c = v[i];
        let s = if 'A' <= c && c <= 'Z' {
            ((c as u32 + 32) as u8) as char
        } else {
            c
        };
        assert(s == small(c)) by {
            if 'A' <= c && c <= 'Z' {
                vstd::utf8::char_u32_cast(c, c as u32);
            }
        }
        if s != want[i] {
            assert(smalls(extension@)[i as int] != want@[i as int]);
            return false;
        }
        i += 1;
    }
    assert(smalls(extension@) =~= want@);
    true
}

/// The format of an input that is asked for, or that has that extension.
pub open spec fn format_of(format: Option<InputFormat>, extension: Option<Seq<char>>) -> InputFormat {
    match format {
        Some(f) => f,
        None => if extension matches Some(e) && smalls(e) == "parquet"@ {
            InputFormat::Parquet
        } else {
            InputFormat::Csv
        },
    }
}

/// The input format: an explicit `--format` wins, else the input file's
/// extension decides (`parquet` ⇒ Parquet, everything else CSV).
pub fn input_format(format: Option<InputFormat>, extension: Option<&str>) -> (r: InputFormat)
    ensures
        r == (match format {
            Some(f) => f,
            None => if opt_str(extension) matches Some(e) && smalls(e) == "parquet"@ {
                InputFormat::Parquet
            } else {
                InputFormat::Csv
            },
        }),
        r == format_of(format, opt_str(extension)),
{
    match format {
        Some(f) => f,
        None => match extension {
            Some(e) => if is_parquet(e) {
                InputFormat::Parquet
            } else {
                InputFormat::Csv
            },
            None => InputFormat::Csv,
        },
    }
}

/// The file that a parquet input is read from. It has to be seekable, as its
/// metadata are at its end, and it brings its own column names.
pub fn parquet_path(args: &Args) -> (r: Result<&str, String>)
    ensures
        match args.input() {
            None => r matches Err(e) && e@ == "parquet input must be a seekable file, not stdin"@,
            Some(p) => if args.header is Some {
                r matches Err(e) && e@
                    == "--header doesn't apply to parquet input (it carries a typed schema)"@
            } else {
                r matches Ok(f) && f@ == p
            },
        },
{
    match args.in_path() {
        None => Err("parquet input must be a seekable file, not stdin".to_string()),
        Some(p) => if args.header.is_some() {
            Err(
                "--header doesn't apply to parquet input (it carries a typed schema)".to_string(),
            )
        } else {
            Ok(p)
        },
    }
}

/// The names `c1`, `c2`, … of `n` columns.
pub open spec fn auto_names(n: nat) -> Seq<Seq<char>> {
    Seq::new(n, |i: int| "c"@ + decimal((i + 1) as nat))
}

fn name_columns(n: usize) -> (r: Vec<String>)
    requires
        n < usize::MAX,
    ensures
        texts(r@) == auto_names(n as nat),
{
    let mut r: Vec<String> = Vec::new();
    let mut i: usize = 0;
    while i < n
        invariant
            i <= n < usize::MAX,
            texts(r@) == auto_names(i as nat),
        decreases n - i,
    {
        let ghost before = r@;
        r.push(cat2("c", show_usize(i + 1).as_str()));
        assert(texts(r@) =~= texts(before).push("c"@ + decimal((i + 1) as nat)));
        assert(auto_names((i + 1) as nat) =~= auto_names(i as nat).push(
            "c"@ + decimal((i + 1) as nat),
        ));
        i += 1;
    }
    r
}

impl Header {
    /// The columns' names and where the data begin, from the fields of the first
    /// line and where the second begins: the first line is the header unless
    /// `--header` names the columns, and then it is data.
    pub fn resolve(header: Option<&Header>, first: Vec<String>, second_line: u64) -> (r: (
        Vec<String>,
        u64,
    ))
        requires
            first@.len() < usize::MAX,
        ensures
            match header {
                None => r == (first, second_line),
                Some(Header::Named(names)) => texts(r.0@) == texts(names@) && r.1 == 0,
                Some(Header::Auto) => texts(r.0@) == auto_names(first@.len()) && r.1 == 0,
            },
    {
        match header {
            None => (first, second_line),
            Some(Header::Named(names)) => (copy_names(names.as_slice()), 0),
            Some(Header::Auto) => (name_columns(first.len()), 0),
        }
    }
}

/// The fields of the first line of a stream, its bytes up to and with the
/// newline.
pub fn first_fields(line: &[u8]) -> (r: Result<Vec<String>, String>)
    ensures
        match r {
            Ok(names) => {
                &&& line@.len() > 0
                &&& valid_utf8(line@)
                &&& texts(names@) == line_fields(without_newline(decode_utf8(line@)))
            },
            Err(e) => if line@.len() == 0 {
                e@ == no_header()
            } else {
                !valid_utf8(line@) && e@ == "input is not valid UTF-8: "@ + utf8_fault(line@)
            },
        },
{
    fields_of_line(line, "input is not valid UTF-8: ")
}

/// Whether the output is drawn from all of the rows at once.
pub open spec fn rendered(plan: Plan, color: bool) -> bool {
    plan.output == OutputFormat::Aligned || plan.graph is Some || (color && plan.colors@.len() > 0)
}

/// Whether the output is drawn from all of the rows at once: a table for its
/// widths, a chart, and colours for the range of a gradient.
pub fn renders(plan: &Plan, color: bool) -> (r: bool)
    ensures
        r == (plan.output == OutputFormat::Aligned || plan.graph is Some || (color
            && plan.colors@.len() > 0)),
        r == rendered(*plan, color),
{
    plan.output == OutputFormat::Aligned || plan.graph.is_some() || (color && plan.colors.len() > 0)
}

/// What is said of arguments that cannot be understood: what is wrong, how the
/// program is called, and where to read more.
pub fn usage_error(wrong: &str) -> (r: String)
    ensures
        r@ == wrong@ + "\n\n"@ + crate::help::USAGE@
            + "\nrun `csvm --help` for options, `csvm help CMD` for a command"@,
{
    let mut r = wrong.to_string();
    r.append("\n\n");
    r.append(crate::help::usage_line());
    r.append("\nrun `csvm --help` for options, `csvm help CMD` for a command");
    r
}

} // verus!
