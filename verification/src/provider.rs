//! LLM providers: the provider that does no LLM calls at all, and how an LLM's answer to
//! a gap verification is read.
use vstd::prelude::*;
use crate::annotation::LlmAnnotation;
use crate::error::ResynError;
use crate::strs::{trim, trim_chars};
use crate::text::chars_of;

verus! {

/// The current time in UTC as an RFC 3339 string, from `chrono::Utc::now().to_rfc3339()`.
/// The time is not named; the contract only says the string is not empty, which holds of
/// every RFC 3339 timestamp.
#[verifier::external_body]
pub(crate) fn now_rfc3339() -> (res: String)
    ensures
        res@.len() > 0,
{
    chrono::Utc::now().to_rfc3339()
}

/// A provider that never calls an LLM: it annotates every paper as of unknown type with
/// nothing found, and never confirms a gap.
#[derive(Debug, Clone, Copy, Default)]
pub struct NoopProvider;

/// The annotation the no-op provider gives the paper `arxiv_id`.
pub open spec fn noop_annotation(a: LlmAnnotation, arxiv_id: Seq<char>) -> bool {
    &&& a.arxiv_id@ == arxiv_id
    &&& a.paper_type@ == "unknown"@
    &&& a.methods@.len() == 0
    &&& a.findings@.len() == 0
    &&& a.open_problems@.len() == 0
    &&& a.provider@ == "noop"@
    &&& a.model_name@ == "noop"@
    &&& a.annotated_at@.len() > 0
}

impl NoopProvider {
    /// The provider's name.
    pub fn provider_name(&self) -> (res: &'static str)
        ensures
            res@ == "noop"@,
    {
        "noop"
    }

    /// The empty annotation of the paper `arxiv_id`, stamped with the current time.
    pub fn annotate_paper(&mut self, arxiv_id: &str, abstract_text: &str) -> (res: Result<LlmAnnotation, ResynError>)
        ensures
            res matches Ok(a) && noop_annotation(a, arxiv_id@),
    {
        let a = LlmAnnotation {
            arxiv_id: arxiv_id.to_string(),
            paper_type: "unknown".to_string(),
            methods: Vec::new(),
            findings: Vec::new(),
            open_problems: Vec::new(),
            provider: "noop".to_string(),
            model_name: "noop".to_string(),
            annotated_at: now_rfc3339(),
        };
        Ok(a)
    }

    /// The answer to every gap verification: "NO".
    pub fn verify_gap(&mut self, prompt: &str, context: &str) -> (res: Result<String, ResynError>)
        ensures
            res matches Ok(s) && s@ == "NO"@,
    {
        Ok("NO".to_string())
    }
}

/// `c` in ASCII lowercase.
pub open spec fn ascii_lower(c: char) -> char {
    if 'A' <= c <= 'Z' {
        ((c as u32) + 32) as char
    } else {
        c
    }
}

/// `a` and `b` are equal up to ASCII case (`eq_ignore_ascii_case`).
pub open spec fn eq_ignore_ascii_case(a: Seq<char>, b: Seq<char>) -> bool {
    a.len() == b.len() && forall|i: int| 0 <= i < a.len() ==> ascii_lower(#[trigger] a[i]) == ascii_lower(b[i])
}

fn ascii_lower_exec(c: char) -> (res: char)
    ensures
        res == ascii_lower(c),
{
    if 'A' <= c && c <= 'Z' {
        ((c as u8) + 32) as char
    } else {
        c
    }
}

/// Whether an LLM's answer to a gap verification rejects the gap: the answer, trimmed,
/// is "NO" in any case.
pub fn is_rejection(response: &str) -> (res: bool)
    ensures
        res == eq_ignore_ascii_case(trim(response@), "NO"@),
{
    let t = trim_chars(&chars_of(response));
    let no = chars_of("NO");
    proof {
        reveal_strlit("NO");
    }
    if t.len() != 2 {
        return false;
    }
    let r = ascii_lower_exec(t[0]) == ascii_lower_exec(no[0]) && ascii_lower_exec(t[1]) == ascii_lower_exec(no[1]);
    proof {
        if r {
            assert forall|i: int| 0 <= i < t@.len() implies ascii_lower(#[trigger] t@[i]) == ascii_lower(no@[i]) by {
                if i == 0 {
                } else {
                    assert(i == 1);
                }
            }
        }
    }
    r
}

} // verus!
