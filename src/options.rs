use vstd::prelude::*;

use crate::color::Saturation;

verus! {

/// The palette construction strategy.
#[derive(Debug, Clone, Copy, PartialEq, Eq, Structural)]
pub enum Method {
    AreaAverage,
    KMeans,
    ANSI,
}

/// How a color is written out.
#[derive(Debug, Clone, Copy, PartialEq, Eq, Structural)]
pub enum OutputFormat {
    RGB,
    HEX,
}

pub open spec fn method_tag_spec(m: Method) -> u8 {
    match m {
        Method::AreaAverage => 0,
        Method::KMeans => 1,
        Method::ANSI => 2,
    }
}

impl Method {
    /// The byte that identifies the method in a cache key.
    pub fn tag(&self) -> (t: u8)
        ensures
            t == method_tag_spec(*self),
    {
        match self {
            Method::AreaAverage => 0,
            Method::KMeans => 1,
            Method::ANSI => 2,
        }
    }
}

/// The settings of one run.
pub struct Args {
    pub saturation: Saturation,
    pub method: Method,
    pub format: OutputFormat,
    pub verbose: bool,
    pub preview: bool,
}

impl Default for Args {
    /// Saturation one, area average, hexadecimal output, quiet, templates on.
    fn default() -> (a: Args)
        ensures
            a.saturation == (Saturation { num: 1, den: 1 }),
            a.method == Method::AreaAverage,
            a.format == OutputFormat::HEX,
            !a.verbose,
            !a.preview,
    {
        Args {
            saturation: Saturation { num: 1, den: 1 },
            method: Method::AreaAverage,
            format: OutputFormat::HEX,
            verbose: false,
            preview: false,
        }
    }
}

} // verus!
