//! The errors of the library and their messages.
use vstd::prelude::*;
use crate::strs::append_chars;
use crate::text::{chars_of, string_of};

verus! {

/// An error of a data source, the database or an LLM provider.
#[derive(Debug, Clone)]
pub enum ResynError {
    ArxivApi(String),
    HtmlDownload(String),
    /// An HTTP request failed; holds the message of the client's error.
    HttpRequest(String),
    PaperNotFound(String),
    InvalidPaperId(String),
    NoArxivLink,
    InspireHepApi(String),
    Database(String),
    LlmApi(String),
}

/// The message of an error: a description of its kind, then its detail.
pub open spec fn error_message(e: ResynError) -> Seq<char> {
    match e {
        ResynError::ArxivApi(m) => "arXiv API error: "@ + m@,
        ResynError::HtmlDownload(m) => "HTML download error: "@ + m@,
        ResynError::HttpRequest(m) => "HTTP request error: "@ + m@,
        ResynError::PaperNotFound(m) => "paper not found: "@ + m@,
        ResynError::InvalidPaperId(m) => "invalid paper ID: "@ + m@,
        ResynError::NoArxivLink => "no arXiv link found in reference"@,
        ResynError::InspireHepApi(m) => "InspireHEP API error: "@ + m@,
        ResynError::Database(m) => "database error: "@ + m@,
        ResynError::LlmApi(m) => "LLM API error: "@ + m@,
    }
}

/// `prefix` followed by `detail`.
fn prefixed(prefix: &str, detail: &String) -> (res: String)
    ensures
        res@ == prefix@ + detail@,
{
    let mut v = chars_of(prefix);
    append_chars(&mut v, &chars_of(detail.as_str()));
    string_of(&v)
}

impl ResynError {
    /// A copy of this error.
    pub fn copied(&self) -> (res: ResynError)
        ensures
            res == *self,
    {
        match self {
            ResynError::ArxivApi(m) => ResynError::ArxivApi(m.clone()),
            ResynError::HtmlDownload(m) => ResynError::HtmlDownload(m.clone()),
            ResynError::HttpRequest(m) => ResynError::HttpRequest(m.clone()),
            ResynError::PaperNotFound(m) => ResynError::PaperNotFound(m.clone()),
            ResynError::InvalidPaperId(m) => ResynError::InvalidPaperId(m.clone()),
            ResynError::NoArxivLink => ResynError::NoArxivLink,
            ResynError::InspireHepApi(m) => ResynError::InspireHepApi(m.clone()),
            ResynError::Database(m) => ResynError::Database(m.clone()),
            ResynError::LlmApi(m) => ResynError::LlmApi(m.clone()),
        }
    }

    /// The message of this error (what it displays as).
    pub fn message(&self) -> (res: String)
        ensures
            res@ == error_message(*self),
    {
        match self {
            ResynError::ArxivApi(m) => prefixed("arXiv API error: ", m),
            ResynError::HtmlDownload(m) => prefixed("HTML download error: ", m),
            ResynError::HttpRequest(m) => prefixed("HTTP request error: ", m),
            ResynError::PaperNotFound(m) => prefixed("paper not found: ", m),
            ResynError::InvalidPaperId(m) => prefixed("invalid paper ID: ", m),
            ResynError::NoArxivLink => "no arXiv link found in reference".to_string(),
            ResynError::InspireHepApi(m) => prefixed("InspireHEP API error: ", m),
            ResynError::Database(m) => prefixed("database error: ", m),
            ResynError::LlmApi(m) => prefixed("LLM API error: ", m),
        }
    }
}

} // verus!
