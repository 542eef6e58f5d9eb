use vstd::prelude::*;

use crate::options::{Method, OutputFormat};
use crate::text::chars_of;

verus! {

/// What the command line asks for; the saturation stays text for the caller
/// to read as a number.
pub struct CliArgs {
    pub method: Method,
    pub format: OutputFormat,
    pub verbose: bool,
    pub preview: bool,
    pub saturation: Option<String>,
    pub image_path: Option<String>,
}

/// Why a command line was refused; each carries the index of the argument at fault.
#[derive(Debug, Clone, Copy, PartialEq, Eq, Structural)]
pub enum CliError {
    MissingImagePath,
    MissingValue(usize),
    InvalidMethod(usize),
    InvalidFormat(usize),
    UnknownFlag(usize),
    UnexpectedArgument(usize),
}

/// Method, format, verbose, preview, saturation text, image path.
pub type CliState = (Method, OutputFormat, bool, bool, Option<Seq<char>>, Option<Seq<char>>);

pub open spec fn initial_state() -> CliState {
    (Method::AreaAverage, OutputFormat::HEX, false, false, None, None)
}

pub open spec fn text_of(s: Option<String>) -> Option<Seq<char>> {
    match s {
        Some(t) => Some(t@),
        None => None,
    }
}

impl CliArgs {
    pub open spec fn state(&self) -> CliState {
        (self.method, self.format, self.verbose, self.preview, text_of(self.saturation), text_of(self.image_path))
    }
}

pub open spec fn method_named(v: Seq<char>) -> Option<Method> {
    if v == "area_average"@ || v == "aa"@ {
        Some(Method::AreaAverage)
    } else if v == "kmeans"@ || v == "km"@ {
        Some(Method::KMeans)
    } else if v == "ansi"@ || v == "an"@ {
        Some(Method::ANSI)
    } else {
        None
    }
}

pub open spec fn format_named(v: Seq<char>) -> Option<OutputFormat> {
    if v == "rgb"@ {
        Some(OutputFormat::RGB)
    } else if v == "hex"@ {
        Some(OutputFormat::HEX)
    } else {
        None
    }
}

pub open spec fn is_saturation_flag(a: Seq<char>) -> bool {
    a == "-s"@ || a == "--saturation"@
}

pub open spec fn is_method_flag(a: Seq<char>) -> bool {
    a == "-m"@ || a == "--method"@
}

pub open spec fn is_format_flag(a: Seq<char>) -> bool {
    a == "-f"@ || a == "--format"@
}

pub open spec fn is_verbose_flag(a: Seq<char>) -> bool {
    a == "-v"@ || a == "--verbose"@
}

pub open spec fn is_preview_flag(a: Seq<char>) -> bool {
    a == "-p"@ || a == "--preview"@
}

/// Reads `args` from index `i` on, in state `st`: a flag that takes a value
/// takes the next argument, the first plain argument is the image path.
pub open spec fn parse_from(args: Seq<Seq<char>>, i: nat, st: CliState) -> Result<CliState, CliError>
    decreases args.len() - i,
{
    if i >= args.len() {
        if st.5 is None {
            Err(CliError::MissingImagePath)
        } else {
            Ok(st)
        }
    } else {
        let a = args[i as int];
        if a.len() > 0 && a[0] == '-' {
            if is_verbose_flag(a) {
                parse_from(args, i + 1, (st.0, st.1, true, st.3, st.4, st.5))
            } else if is_preview_flag(a) {
                parse_from(args, i + 1, (st.0, st.1, st.2, true, st.4, st.5))
            } else if is_saturation_flag(a) || is_method_flag(a) || is_format_flag(a) {
                if i + 1 >= args.len() {
                    Err(CliError::MissingValue(i as usize))
                } else {
                    let v = args[(i + 1) as int];
                    if is_saturation_flag(a) {
                        parse_from(args, i + 2, (st.0, st.1, st.2, st.3, Some(v), st.5))
                    } else if is_method_flag(a) {
                        match method_named(v) {
                            Some(m) => parse_from(args, i + 2, (m, st.1, st.2, st.3, st.4, st.5)),
                            None => Err(CliError::InvalidMethod((i + 1) as usize)),
                        }
                    } else {
                        match format_named(v) {
                            Some(f) => parse_from(args, i + 2, (st.0, f, st.2, st.3, st.4, st.5)),
                            None => Err(CliError::InvalidFormat((i + 1) as usize)),
                        }
                    }
                }
            } else {
                Err(CliError::UnknownFlag(i as usize))
            }
        } else if st.5 is None {
            parse_from(args, i + 1, (st.0, st.1, st.2, st.3, st.4, Some(a)))
        } else {
            Err(CliError::UnexpectedArgument(i as usize))
        }
    }
}

pub open spec fn arg_texts(args: Seq<String>) -> Seq<Seq<char>> {
    Seq::new(args.len(), |i: int| args[i]@)
}

fn is_text(s: &Vec<char>, lit: &str) -> (r: bool)
    ensures
        r == (s@ == lit@),
{
    let l = chars_of(lit);
    if l.len() != s.len() {
        return false;
    }
    let mut i: usize = 0;
    while i < l.len()
        invariant
            i <= l@.len() == s@.len(),
            l@ == lit@,
            forall|k: int| 0 <= k < i ==> s@[k] == l@[k],
        decreases l@.len() - i,
    {
        if s[i] != l[i] {
            return false;
        }
        i = i + 1;
    }
    proof {
        assert(s@ == l@);
    }
    true
}

fn method_of(v: &Vec<char>) -> (r: Option<Method>)
    ensures
        r == method_named(v@),
{
    if is_text(v, "area_average") || is_text(v, "aa") {
        Some(Method::AreaAverage)
    } else if is_text(v, "kmeans") || is_text(v, "km") {
        Some(Method::KMeans)
    } else if is_text(v, "ansi") || is_text(v, "an") {
        Some(Method::ANSI)
    } else {
        None
    }
}

fn format_of(v: &Vec<char>) -> (r: Option<OutputFormat>)
    ensures
        r == format_named(v@),
{
    if is_text(v, "rgb") {
        Some(OutputFormat::RGB)
    } else if is_text(v, "hex") {
        Some(OutputFormat::HEX)
    } else {
        None
    }
}

/// Reads a command line; `args[0]` is the program name.
pub fn parse_cli(args: &Vec<String>) -> (r: Result<CliArgs, CliError>)
    ensures
        match r {
            Ok(a) => parse_from(arg_texts(args@), 1, initial_state()) == Ok::<CliState, CliError>(a.state()),
            Err(e) => parse_from(arg_texts(args@), 1, initial_state()) == Err::<CliState, CliError>(e),
        },
{
    let ghost av = arg_texts(args@);
    let mut out = CliArgs {
        method: Method::AreaAverage,
        format: OutputFormat::HEX,
        verbose: false,
        preview: false,
        saturation: None,
        image_path: None,
    };
    let n = args.len();
    let mut i: usize = 1;
    while i < n
        invariant
            n == args@.len() == av.len(),
            av == arg_texts(args@),
            1 <= i,
            parse_from(av, 1, initial_state()) == parse_from(av, i as nat, out.state()),
        decreases n - i,
    {
        let a = chars_of(args[i].as_str());
        assert(a@ == av[i as int]);
        if a.len() > 0 && a[0] == '-' {
            if is_text(&a, "-v") || is_text(&a, "--verbose") {
                out.verbose = true;
                i = i + 1;
            } else if is_text(&a, "-p") || is_text(&a, "--preview") {
                out.preview = true;
                i = i + 1;
            } else if is_text(&a, "-s") || is_text(&a, "--saturation") {
                if i + 1 >= n {
                    return Err(CliError::MissingValue(i));
                }
                out.saturation = Some(args[i + 1].clone());
                i = i + 2;
            } else if is_text(&a, "-m") || is_text(&a, "--method") {
                if i + 1 >= n {
                    return Err(CliError::MissingValue(i));
                }
                let v = chars_of(args[i + 1].as_str());
                match method_of(&v) {
                    Some(m) => out.method = m,
                    None => return Err(CliError::InvalidMethod(i + 1)),
                }
                i = i + 2;
            } else if is_text(&a, "-f") || is_text(&a, "--format") {
                if i + 1 >= n {
                    return Err(CliError::MissingValue(i));
                }
                let v = chars_of(args[i + 1].as_str());
                match format_of(&v) {
                    Some(f) => out.format = f,
                    None => return Err(CliError::InvalidFormat(i + 1)),
                }
                i = i + 2;
            } else {
                return Err(CliError::UnknownFlag(i));
            }
        } else if out.image_path.is_none() {
            out.image_path = Some(args[i].clone());
            i = i + 1;
        } else {
            return Err(CliError::UnexpectedArgument(i));
        }
    }
    if out.image_path.is_none() {
        return Err(CliError::MissingImagePath);
    }
    Ok(out)
}

} // verus!
