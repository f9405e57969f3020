//! Choosing how to read a file from its extension, and building the token
//! stream of a document.

use vstd::prelude::*;

use harper_core::parsers::Markdown;
use harper_core::{Document, FstDictionary};
use harper_typst::Typst;

use crate::path_key::{components_of, segment_text, PathSegment};

verus! {

#[verifier::external_type_specification]
#[verifier::external_body]
pub struct ExDocument(Document);

#[verifier::external_type_specification]
#[verifier::external_body]
pub struct ExFstDictionary(FstDictionary);

#[verifier::external_type_specification]
#[verifier::external_body]
pub struct ExMarkdown(Markdown);

#[verifier::external_type_specification]
#[verifier::external_body]
pub struct ExTypst(Typst);

/// The structural format of a file, which decides how it is tokenized.
#[derive(Debug, Clone, Copy, PartialEq, Eq, Structural)]
pub enum FileFormat {
    /// `.md`
    Markdown,
    /// `.lhs`: Markdown prose around literate code.
    LiterateHaskell,
    /// `.typ`
    Typst,
    /// Anything else: the comments of a program, if its language is known.
    SourceComments,
}

/// The position of the last `.` in `name`, or -1 when there is none.
pub open spec fn last_dot(name: Seq<char>) -> int
    decreases name.len(),
{
    if name.len() == 0 {
        -1
    } else if name.last() == '.' {
        name.len() - 1
    } else {
        last_dot(name.drop_last())
    }
}

/// The extension of a file name: what follows its last `.`, unless the name
/// has no `.` or only a leading one.
pub open spec fn name_extension(name: Seq<char>) -> Option<Seq<char>> {
    if last_dot(name) <= 0 {
        None
    } else {
        Some(name.subrange(last_dot(name) + 1, name.len() as int))
    }
}

/// The extension of a path with these components: that of its last
/// component, if that is a normal name (a path ending in `..` has none).
pub open spec fn components_extension(segs: Seq<PathSegment>) -> Option<Seq<char>> {
    if segs.len() > 0 && segs.last() is Normal {
        name_extension(segment_text(segs.last()))
    } else {
        None
    }
}

/// The contents of an optional character vector.
pub open spec fn opt_chars(o: Option<Vec<char>>) -> Option<Seq<char>> {
    match o {
        Some(v) => Some(v@),
        None => None,
    }
}

/// The fixed, case-sensitive table from extension to format.
pub open spec fn format_of_extension(ext: Option<Seq<char>>) -> FileFormat {
    match ext {
        Some(e) => if e == seq!['m', 'd'] {
            FileFormat::Markdown
        } else if e == seq!['l', 'h', 's'] {
            FileFormat::LiterateHaskell
        } else if e == seq!['t', 'y', 'p'] {
            FileFormat::Typst
        } else {
            FileFormat::SourceComments
        },
        None => FileFormat::SourceComments,
    }
}

/// Relies on `std::path::Path::extension`, converted to characters: what
/// follows the last `.` of the path's file name, which is its last component
/// when that is a normal name; none when that name has no `.`, or only a
/// leading one.
#[verifier::external_body]
fn path_extension(path: &str) -> (r: Option<Vec<char>>)
    ensures
        opt_chars(r) == components_extension(components_of(path@)),
{
    std::path::Path::new(path).extension().map(|e| e.to_string_lossy().chars().collect())
}

/// The format that the extension `ext` selects.
pub fn format_for_extension(ext: &Option<Vec<char>>) -> (r: FileFormat)
    ensures
        r == format_of_extension(opt_chars(*ext)),
{
    match ext {
        Some(e) => {
            if e.len() == 2 && e[0] == 'm' && e[1] == 'd' {
                assert(e@ =~= seq!['m', 'd']);
                FileFormat::Markdown
            } else if e.len() == 3 && e[0] == 'l' && e[1] == 'h' && e[2] == 's' {
                assert(e@ =~= seq!['l', 'h', 's']);
                FileFormat::LiterateHaskell
            } else if e.len() == 3 && e[0] == 't' && e[1] == 'y' && e[2] == 'p' {
                assert(e@ =~= seq!['t', 'y', 'p']);
                FileFormat::Typst
            } else {
                assert(e@ != seq!['m', 'd']) by {
                    if e@ == seq!['m', 'd'] {
                        assert(e@[0] == 'm' && e@[1] == 'd');
                    }
                }
                assert(e@ != seq!['l', 'h', 's']) by {
                    if e@ == seq!['l', 'h', 's'] {
                        assert(e@[0] == 'l' && e@[1] == 'h' && e@[2] == 's');
                    }
                }
                assert(e@ != seq!['t', 'y', 'p']) by {
                    if e@ == seq!['t', 'y', 'p'] {
                        assert(e@[0] == 't' && e@[1] == 'y' && e@[2] == 'p');
                    }
                }
                FileFormat::SourceComments
            }
        },
        None => FileFormat::SourceComments,
    }
}

/// The format of the file at `path`, chosen by its extension alone.
pub fn detect_format(path: &str) -> (r: FileFormat)
    ensures
        r == format_of_extension(components_extension(components_of(path@))),
{
    let ext = path_extension(path);
    format_for_extension(&ext)
}

/// The text that a document was built from (its `source` field).
pub uninterp spec fn doc_source(d: Document) -> Seq<char>;

/// The document that harper builds from `text` with the parser of `format`
/// (Markdown with default options, or Typst), looking words up in `dictionary`.
pub uninterp spec fn document_of(text: Seq<char>, format: FileFormat, dictionary: FstDictionary) -> Document;

/// Relies on `Document::new` with `Markdown::default()`: the source is the
/// characters of `source`, and the result depends on the text, the parser
/// and the dictionary alone.
#[verifier::external_body]
fn markdown_document(source: &str, dictionary: &FstDictionary) -> (r: Document)
    ensures
        r == document_of(source@, FileFormat::Markdown, *dictionary),
        doc_source(r) == source@,
{
    Document::new(source, &Markdown::default(), dictionary)
}

/// Relies on `Document::new` with `harper_typst::Typst`: the source is the
/// characters of `source`, and the result depends on the text, the parser and
/// the dictionary alone.
#[verifier::external_body]
fn typst_document(source: &str, dictionary: &FstDictionary) -> (r: Document)
    ensures
        r == document_of(source@, FileFormat::Typst, *dictionary),
        doc_source(r) == source@,
{
    Document::new(source, &Typst, dictionary)
}

/// The document of `source` read as `format`, for the formats whose parsers
/// this library holds (Markdown and Typst); `None` for the formats whose
/// parsers come from elsewhere.
pub fn build_document(source: &str, format: FileFormat, dictionary: &FstDictionary) -> (r: Option<
    Document,
>)
    ensures
        (format == FileFormat::Markdown || format == FileFormat::Typst) ==> r == Some(
            document_of(source@, format, *dictionary),
        ),
        (format == FileFormat::LiterateHaskell || format == FileFormat::SourceComments) ==> r
            is None,
        r is Some ==> doc_source(r->0) == source@,
{
    match format {
        FileFormat::Markdown => Some(markdown_document(source, dictionary)),
        FileFormat::Typst => Some(typst_document(source, dictionary)),
        FileFormat::LiterateHaskell => None,
        FileFormat::SourceComments => None,
    }
}

} // verus!
