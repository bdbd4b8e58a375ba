//! Turns an encyclopedia export into a tree of static query documents: page
//! assembly, topic filtering, markup normalisation, filename encoding and
//! collision-aware artifact writing.
use vstd::prelude::*;

pub mod filename_encoding;
pub mod filters;
pub mod generator;
pub mod parser;
pub mod store;
pub mod text;
pub mod types;
pub mod wikitext;

pub use filters::TopicFilter;
pub use generator::StaticMcpGenerator;
pub use parser::WikipediaParser;
pub use types::{
    Article, ArticleCategorizer, NoCategorizer, Resource, ResourceResponse, ServerInfo,
    ToolContent, ToolResponse,
};

use text::{lower_of, lowercase, same_text};

verus! {

/// What a run is asked to do: where to read and write, the language code, an optional cap
/// on stored pages, an optional topic filter, and whether every article gets a document.
#[derive(Clone, Debug)]
pub struct Config {
    pub input_path: String,
    pub output_path: String,
    pub language: String,
    pub max_articles: Option<usize>,
    pub topic_filter: Option<TopicFilter>,
    pub exact_matches: bool,
}

impl Config {
    /// A configuration with English, no cap, no filter and the default document limit.
    pub fn new(input_path: String, output_path: String) -> (r: Self)
        ensures
            r.input_path == input_path,
            r.output_path == output_path,
            r.language@ == "en"@,
            r.max_articles.is_none(),
            r.topic_filter.is_none(),
            !r.exact_matches,
    {
        Config {
            input_path,
            output_path,
            language: String::from_str("en"),
            max_articles: None,
            topic_filter: None,
            exact_matches: false,
        }
    }

    pub fn language(self, language: String) -> (r: Self)
        ensures
            r.language == language,
            r.input_path == self.input_path,
            r.output_path == self.output_path,
            r.max_articles == self.max_articles,
            r.topic_filter == self.topic_filter,
            r.exact_matches == self.exact_matches,
    {
        Config { language, ..self }
    }

    pub fn max_articles(self, max: usize) -> (r: Self)
        ensures
            r.max_articles == Some(max),
            r.input_path == self.input_path,
            r.output_path == self.output_path,
            r.language == self.language,
            r.topic_filter == self.topic_filter,
            r.exact_matches == self.exact_matches,
    {
        Config { max_articles: Some(max), ..self }
    }

    pub fn topic_filter(self, filter: TopicFilter) -> (r: Self)
        ensures
            r.topic_filter == Some(filter),
            r.input_path == self.input_path,
            r.output_path == self.output_path,
            r.language == self.language,
            r.max_articles == self.max_articles,
            r.exact_matches == self.exact_matches,
    {
        Config { topic_filter: Some(filter), ..self }
    }

    pub fn exact_matches(self, enabled: bool) -> (r: Self)
        ensures
            r.exact_matches == enabled,
            r.input_path == self.input_path,
            r.output_path == self.output_path,
            r.language == self.language,
            r.max_articles == self.max_articles,
            r.topic_filter == self.topic_filter,
    {
        Config { exact_matches: enabled, ..self }
    }
}

/// The kinds of input a run reads.
#[derive(Clone, Copy, Debug, PartialEq, Eq, Structural)]
pub enum InputFormat {
    /// Plain markup.
    Xml,
    /// Markup in a bzip2 stream.
    Bz2,
}

/// An input whose extension names no supported format.
#[derive(Clone, Copy, Debug, PartialEq, Eq, Structural)]
pub struct UnsupportedFormat;

impl UnsupportedFormat {
    pub fn message(&self) -> (r: &'static str)
        ensures
            r@ == "Unsupported file format. Use .xml or .bz2 files."@,
    {
        "Unsupported file format. Use .xml or .bz2 files."
    }
}

/// What `Path::extension` gives for a path: the part of its file name after the last dot.
pub uninterp spec fn extension_of(path: Seq<char>) -> Option<Seq<char>>;

/// Relies on `std::path::Path::extension` and `OsStr::to_str`: the extension of the path's
/// file name, when it has one that is valid text.
#[verifier::external_body]
fn path_extension(path: &str) -> (r: Option<String>)
    ensures
        match r {
            Some(e) => extension_of(path@) == Some(e@),
            None => extension_of(path@) is None,
        },
{
    let extension = std::path::Path::new(path).extension()?;
    Some(extension.to_str()?.to_string())
}

/// The format an already lower-cased extension names.
pub fn format_from_extension(extension: &str) -> (r: Result<InputFormat, UnsupportedFormat>)
    ensures
        extension@ == "xml"@ ==> r == Ok::<InputFormat, UnsupportedFormat>(InputFormat::Xml),
        extension@ == "bz2"@ ==> r == Ok::<InputFormat, UnsupportedFormat>(InputFormat::Bz2),
        extension@ != "xml"@ && extension@ != "bz2"@ ==> r == Err::<InputFormat, UnsupportedFormat>(
            UnsupportedFormat,
        ),
{
    proof {
        reveal_strlit("xml");
        reveal_strlit("bz2");
        assert("xml"@[0] != "bz2"@[0]);
    }
    if same_text(extension, "xml") {
        Ok(InputFormat::Xml)
    } else if same_text(extension, "bz2") {
        Ok(InputFormat::Bz2)
    } else {
        Err(UnsupportedFormat)
    }
}

/// The format of an input path, by its extension in any case; a path without an
/// extension is unsupported.
pub fn input_format(path: &str) -> (r: Result<InputFormat, UnsupportedFormat>)
    ensures
        match extension_of(path@) {
            Some(e) => {
                &&& lower_of(e) == "xml"@ ==> r == Ok::<InputFormat, UnsupportedFormat>(InputFormat::Xml)
                &&& lower_of(e) == "bz2"@ ==> r == Ok::<InputFormat, UnsupportedFormat>(InputFormat::Bz2)
                &&& lower_of(e) != "xml"@ && lower_of(e) != "bz2"@ ==> r == Err::<
                    InputFormat,
                    UnsupportedFormat,
                >(UnsupportedFormat)
            },
            None => r == Err::<InputFormat, UnsupportedFormat>(UnsupportedFormat),
        },
{
    match path_extension(path) {
        Some(e) => {
            let lower = lowercase(e.as_str());
            format_from_extension(lower.as_str())
        },
        None => Err(UnsupportedFormat),
    }
}

} // verus!
