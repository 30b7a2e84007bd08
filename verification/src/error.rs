//! Error type of the library.

use vstd::prelude::*;

verus! {

/// `std::io::Error`, carried as an opaque value by [`SelError::Io`].
#[verifier::external_type_specification]
#[verifier::external_body]
pub struct ExIoError(std::io::Error);

/// Calls `<std::io::Error as Display>::fmt` through `format!`. Nothing is
/// claimed of the text it returns.
#[verifier::external_body]
fn io_error_text(e: &std::io::Error) -> String {
    format!("{}", e)
}

/// Result type of `sel`.
pub type Result<T> = std::result::Result<T, SelError>;

/// Errors reported by `sel`.
#[derive(Debug)]
pub enum SelError {
    /// Invalid selector syntax.
    InvalidSelector(String),
    /// Invalid regular expression.
    InvalidRegex(String),
    /// Positional selectors used with stdin (unseekable).
    PositionalWithStdin,
    /// `--invert-match` used without `--regex`.
    InvertWithoutRegex,
    /// `--char-context` used without a target.
    CharContextWithoutTarget,
    /// I/O error with the offending path.
    Io { path: String, source: std::io::Error },
    /// Output file already exists and `--force` was not given.
    OutputExists(String),
}

/// `e` is the I/O error `source` on the path `<unknown>`.
pub open spec fn unknown_path_io(e: SelError, source: std::io::Error) -> bool {
    e matches SelError::Io { path, source: s } && path@ == "<unknown>"@ && s == source
}

/// A bare `io::Error` becomes `SelError::Io` with an unknown path.
impl From<std::io::Error> for SelError {
    fn from(source: std::io::Error) -> (r: SelError)
        ensures
            unknown_path_io(r, source),
    {
        SelError::Io { path: String::from_str("<unknown>"), source }
    }
}

/// The result of `from` holds a path made afresh, and two `String`s with the
/// same text need not be one value, so no single spec value is the result:
/// `from` states what it returns in its own `ensures` instead, and the
/// generic contract is not claimed.
impl vstd::std_specs::convert::FromSpecImpl<std::io::Error> for SelError {
    open spec fn obeys_from_spec() -> bool {
        false
    }

    open spec fn from_spec(v: std::io::Error) -> SelError {
        choose|e: SelError| #[trigger] unknown_path_io(e, v)
    }
}

impl SelError {
    /// The user-facing message of this error.
    pub fn message(&self) -> (r: String)
        ensures
            match self {
                SelError::InvalidSelector(m) => r@ == "invalid selector: "@ + m@,
                SelError::InvalidRegex(m) => r@ == "invalid regex: "@ + m@,
                SelError::PositionalWithStdin => r@
                    == "positional selectors require a seekable file; stdin is line-only"@,
                SelError::InvertWithoutRegex => r@ == "--invert-match requires --regex"@,
                SelError::CharContextWithoutTarget => r@
                    == "--char-context requires --regex or a positional selector"@,
                SelError::Io { path, source } => exists|t: Seq<char>| r@ == path@ + ": "@ + t,
                SelError::OutputExists(p) => r@ == "output file already exists: "@ + p@
                    + " (use --force to overwrite)"@,
            },
    {
        match self {
            SelError::InvalidSelector(m) => String::from_str("invalid selector: ").concat(m.as_str()),
            SelError::InvalidRegex(m) => String::from_str("invalid regex: ").concat(m.as_str()),
            SelError::PositionalWithStdin => String::from_str(
                "positional selectors require a seekable file; stdin is line-only",
            ),
            SelError::InvertWithoutRegex => String::from_str("--invert-match requires --regex"),
            SelError::CharContextWithoutTarget => String::from_str(
                "--char-context requires --regex or a positional selector",
            ),
            SelError::Io { path, source } => {
                let t = io_error_text(source);
                let r = path.clone().concat(": ").concat(t.as_str());
                assert(r@ == path@ + ": "@ + t@);
                r
            },
            SelError::OutputExists(p) => String::from_str("output file already exists: ").concat(
                p.as_str(),
            ).concat(" (use --force to overwrite)"),
        }
    }
}

} // verus!
