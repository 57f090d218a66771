//! Parsing Python source with the `rustpython-parser` crate.

use vstd::prelude::*;
use rustpython_ast::text_size::TextRange;
use rustpython_ast::Stmt;
use rustpython_parser::{Parse, ParseErrorType};
use rustpython_parser_core::BaseError;

verus! {

#[verifier::external_type_specification]
#[verifier::external_body]
pub struct ExTextRange(TextRange);

#[verifier::external_type_specification]
#[verifier::external_body]
#[verifier::reject_recursive_types(R)]
pub struct ExStmt<R>(Stmt<R>);

#[verifier::external_type_specification]
#[verifier::external_body]
pub struct ExParseErrorType(ParseErrorType);

#[verifier::external_type_specification]
#[verifier::external_body]
#[verifier::reject_recursive_types(T)]
pub struct ExBaseError<T>(BaseError<T>);

/// The error of a failed parse: its kind, offset and the source path given.
pub type ParseError = BaseError<ParseErrorType>;

/// What `rustpython-parser` makes of `source` read as the text of the Python
/// module at `source_path`: its statements, or the error of a failed parse.
pub uninterp spec fn parse_outcome(source: Seq<char>, source_path: Seq<char>) -> Result<
    Seq<Stmt<TextRange>>,
    ParseError,
>;

/// Calls `rustpython_parser::Parse::parse` for a suite of statements
/// (`Vec<Stmt>`), the statements of a module.  Claimed: what it returns, the
/// statements or the error, is `parse_outcome` of its two arguments.  The
/// parser's source also shows that whether it succeeds, and the statements,
/// depend on `source` alone, `source_path` going only into the error; that is
/// not stated.  The parser keeps offsets as 32-bit numbers and panics on a
/// text longer than `u32::MAX` bytes; with fewer than `2^30` characters, of at
/// most four bytes each, the text stays below that.
#[verifier::external_body]
fn parse_suite(source: &str, source_path: &str) -> (r: Result<Vec<Stmt<TextRange>>, ParseError>)
    requires
        source@.len() < 0x4000_0000,
    ensures
        match r {
            Ok(s) => parse_outcome(source@, source_path@) == Ok::<
                Seq<Stmt<TextRange>>,
                ParseError,
            >(s@),
            Err(e) => parse_outcome(source@, source_path@) == Err::<
                Seq<Stmt<TextRange>>,
                ParseError,
            >(e),
        },
{
    <Vec<Stmt<TextRange>>>::parse(source, source_path)
}

/// What reading one Python file of a package gives.
#[derive(Debug)]
pub enum ParsedSource {
    /// The statements of the file.
    Statements(Vec<Stmt<TextRange>>),
    /// The file does not parse and is passed over.
    Skip(ParseError),
    /// The file does not parse and reading the package stops.
    Fail(ParseError),
}

/// Parses the text of a file of a package.  A file that does not parse is
/// passed over, unless it is the package's `__init__.py`, which stops the
/// reading of the package.  The text has fewer than `2^30` characters, as
/// the parser's offsets are 32-bit.
pub fn parse_package_file(content: &str, source_path: &str, is_package_init: bool) -> (r:
    ParsedSource)
    requires
        content@.len() < 0x4000_0000,
    ensures
        match r {
            ParsedSource::Statements(s) => parse_outcome(content@, source_path@) == Ok::<
                Seq<Stmt<TextRange>>,
                ParseError,
            >(s@),
            ParsedSource::Skip(e) => !is_package_init && parse_outcome(content@, source_path@)
                == Err::<Seq<Stmt<TextRange>>, ParseError>(e),
            ParsedSource::Fail(e) => is_package_init && parse_outcome(content@, source_path@)
                == Err::<Seq<Stmt<TextRange>>, ParseError>(e),
        },
{
    match parse_suite(content, source_path) {
        Ok(stmts) => ParsedSource::Statements(stmts),
        Err(e) => if is_package_init {
            ParsedSource::Fail(e)
        } else {
            ParsedSource::Skip(e)
        },
    }
}

} // verus!
