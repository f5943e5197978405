//! The whole analysis: tokenize, detect, then render in the requested shape.

use vstd::prelude::*;
use crate::words::{WordView, tokenization, split_text_into_words};
use crate::detector::{marked_up, stop_view, mark_up};
use crate::runs::{Run, runs_view, runs_of, rebuild_run};
use crate::report::{join_lines, repeated_lines, report};

verus! {

/// The shape of the result of an analysis.
#[derive(Debug, Clone, Copy, PartialEq, Eq)]
pub enum ResponseType {
    /// The text as runs of repeated and unrepeated words.
    Raw,
    /// The positional report of the repeated words.
    Formatted,
}

/// The result of an analysis.
#[derive(Debug)]
pub enum Response {
    VecOfRuns(Vec<Run>),
    Str(String),
}

/// `r` renders the flagged words `ws` in the shape `kind`.
pub open spec fn renders(r: Response, ws: Seq<WordView>, kind: ResponseType) -> bool {
    match kind {
        ResponseType::Raw => match r {
            Response::VecOfRuns(rs) => runs_view(rs@) == runs_of(ws),
            Response::Str(_) => false,
        },
        ResponseType::Formatted => match r {
            Response::Str(s) => s@ == join_lines(repeated_lines(ws)),
            Response::VecOfRuns(_) => false,
        },
    }
}

/// Whether two texts are equal.
fn same_text(a: &str, b: &str) -> (r: bool)
    ensures
        r == (a@ == b@),
{
    <String as vstd::string::StringExecFns>::from_str(a) == <String as vstd::string::StringExecFns>::from_str(b)
}

impl ResponseType {
    /// The shape named `name`: `raw` or `formatted`.
    pub fn from_name(name: &str) -> (r: Option<ResponseType>)
        ensures
            name@ == "raw"@ <==> r == Some(ResponseType::Raw),
            name@ == "formatted"@ <==> r == Some(ResponseType::Formatted),
            r is None <==> (name@ != "raw"@ && name@ != "formatted"@),
    {
        proof {
            reveal_strlit("raw");
            reveal_strlit("formatted");
            assert("raw"@.len() != "formatted"@.len());
        }
        if same_text(name, "raw") {
            Some(ResponseType::Raw)
        } else if same_text(name, "formatted") {
            Some(ResponseType::Formatted)
        } else {
            None
        }
    }
}

impl std::str::FromStr for ResponseType {
    type Err = String;

    fn from_str(res_type: &str) -> Result<Self, String> {
        match ResponseType::from_name(res_type) {
            Some(t) => Ok(t),
            None => Err(<String as vstd::string::StringExecFns>::from_str("Could not parse a response type")),
        }
    }
}

/// Splits `s` into words, flags the words that recur within `buffer_length`
/// positions unless they are stop words, and renders the flagged words as
/// `response_type` asks.
pub fn tell_you_how_bad(
    s: String,
    buffer_length: usize,
    stop_words: Vec<String>,
    response_type: ResponseType,
) -> (r: Response)
    requires
        s@.len() <= u32::MAX,
    ensures
        exists|ws: Seq<WordView>|
            tokenization(s@, ws) && #[trigger] renders(
                r,
                marked_up(ws, stop_view(stop_words@), buffer_length as int),
                response_type,
            ),
{
    let ghost text = s@;
    let ghost stops = stop_view(stop_words@);
    let word_vec = split_text_into_words(s);
    let ghost ws = crate::words::words_view(word_vec@);
    let marked = mark_up(word_vec, stop_words, buffer_length);
    let r = match response_type {
        ResponseType::Raw => Response::VecOfRuns(rebuild_run(marked)),
        ResponseType::Formatted => Response::Str(report(&marked)),
    };
    assert(tokenization(text, ws) && renders(r, marked_up(ws, stops, buffer_length as int), response_type));
    r
}

} // verus!
