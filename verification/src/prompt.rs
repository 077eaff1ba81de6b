//! The user message sent to the LLM: the paper's sections under headers.
use vstd::prelude::*;
use crate::extraction::{opt_view, TextExtractionResult};
use crate::strs::{append_chars, join_parts, join_with};
use crate::text::{chars_of, string_of};
use crate::words::slice_chars;

verus! {

/// The system prompt asking the LLM for a structured annotation of a paper.
pub const SYSTEM_PROMPT: &'static str = r#"You are a scientific paper analyst. Extract structured information from the paper text below.
The paper text is organized by section. Sections marked [EMPTY] were not available.
For each finding and method you extract, include:
- source_section: the section name where this was found (e.g., "results", "methods", "abstract")
- source_snippet: a verbatim 1-2 sentence quote from that section supporting this finding/method
Extract:
- paper_type: experimental | theoretical | review | computational
- methods: array of {name, category, source_section, source_snippet}
- findings: array of {text, strength, source_section, source_snippet}
- open_problems: array of strings
Respond ONLY with a JSON object."#;

/// Added to the system prompt when the first answer was not valid JSON.
pub const RETRY_NUDGE: &'static str = "IMPORTANT: respond ONLY with valid JSON, nothing else.";

/// The JSON schema an annotation answer must follow.
pub const LLM_ANNOTATION_SCHEMA: &'static str = r#"{
  "type": "object",
  "properties": {
    "arxiv_id": { "type": "string" },
    "paper_type": {
      "type": "string",
      "enum": ["experimental", "theoretical", "review", "computational", "unknown"]
    },
    "methods": {
      "type": "array",
      "items": {
        "type": "object",
        "properties": {
          "name": { "type": "string" },
          "category": {
            "type": "string",
            "enum": ["experimental", "theoretical", "computational", "statistical", "analytical"]
          },
          "source_section": { "type": "string" },
          "source_snippet": { "type": "string" }
        },
        "required": ["name", "category"]
      }
    },
    "findings": {
      "type": "array",
      "items": {
        "type": "object",
        "properties": {
          "text": { "type": "string" },
          "strength": {
            "type": "string",
            "enum": ["strong_evidence", "moderate_evidence", "preliminary", "inconclusive"]
          },
          "source_section": { "type": "string" },
          "source_snippet": { "type": "string" }
        },
        "required": ["text", "strength"]
      }
    },
    "open_problems": {
      "type": "array",
      "items": { "type": "string" }
    },
    "provider": { "type": "string" },
    "model_name": { "type": "string" },
    "annotated_at": { "type": "string" }
  },
  "required": ["paper_type", "methods", "findings", "open_problems"]
}"#;

/// Sections longer than this many characters are truncated.
pub const MAX_CHARS: usize = 3000;

/// The body of a section: its text, cut to its first `MAX_CHARS` characters with a
/// `[truncated]` marker when longer, or `[EMPTY]` when missing or empty.
pub open spec fn section_body(text: Option<Seq<char>>) -> Seq<char> {
    match text {
        Some(t) => if t.len() == 0 {
            "[EMPTY]"@
        } else if t.len() > MAX_CHARS {
            t.take(MAX_CHARS as int) + "[truncated]"@
        } else {
            t
        },
        None => "[EMPTY]"@,
    }
}

/// A section under its header: `[HEADER]`, a newline, then the body.
pub open spec fn section_block(header: Seq<char>, text: Option<Seq<char>>) -> Seq<char> {
    seq!['['] + header + seq![']', '\n'] + section_body(text)
}

/// Adds the block of one section (`[HEADER]`, newline, body) to `parts`.
fn push_section(parts: &mut Vec<Vec<char>>, header: &str, text: Option<&str>)
    ensures
        final(parts)@.len() == old(parts)@.len() + 1,
        forall|k: int| 0 <= k < old(parts)@.len() ==> final(parts)@[k] == old(parts)@[k],
        final(parts)@.last()@ == section_block(header@, match text { Some(t) => Some(t@), None => None }),
{
    let mut block: Vec<char> = Vec::new();
    block.push('[');
    append_chars(&mut block, &chars_of(header));
    block.push(']');
    block.push('\n');
    match text {
        Some(t) if !t.is_empty() => {
            let tv = chars_of(t);
            if tv.len() > MAX_CHARS {
                append_chars(&mut block, &slice_chars(&tv, 0, MAX_CHARS));
                append_chars(&mut block, &chars_of("[truncated]"));
            } else {
                append_chars(&mut block, &tv);
            }
        },
        _ => {
            append_chars(&mut block, &chars_of("[EMPTY]"));
        },
    }
    assert(block@ =~= section_block(header@, match text { Some(t) => Some(t@), None => None }));
    parts.push(block);
}

/// The section-aware user message of an extraction.
pub open spec fn section_message(e: TextExtractionResult) -> Seq<char> {
    join_with(seq![
        section_block("ABSTRACT"@, opt_view(e.sections.abstract_text)),
        section_block("INTRODUCTION"@, opt_view(e.sections.introduction)),
        section_block("METHODS"@, opt_view(e.sections.methods)),
        section_block("RESULTS"@, opt_view(e.sections.results)),
        section_block("CONCLUSION"@, opt_view(e.sections.conclusion)),
    ], "\n\n"@)
}

/// The text of an optional section as a `&str`.
fn as_deref(o: &Option<String>) -> (res: Option<&str>)
    ensures
        match res { Some(t) => Some(t@), None => None } == opt_view(*o),
{
    match o {
        Some(s) => Some(s.as_str()),
        None => None,
    }
}

/// Build a section-aware user message from a `TextExtractionResult`.
///
/// Each section is emitted under a header like `[ABSTRACT]`. Sections that are
/// `None` or empty are represented as `[EMPTY]`. Section text is truncated to
/// `MAX_CHARS` characters with a `[truncated]` suffix; blocks are separated by a blank line.
pub fn build_section_aware_user_message(extraction: &TextExtractionResult) -> (res: String)
    ensures
        res@ == section_message(*extraction),
{
    let mut parts: Vec<Vec<char>> = Vec::new();
    push_section(&mut parts, "ABSTRACT", as_deref(&extraction.sections.abstract_text));
    push_section(&mut parts, "INTRODUCTION", as_deref(&extraction.sections.introduction));
    push_section(&mut parts, "METHODS", as_deref(&extraction.sections.methods));
    push_section(&mut parts, "RESULTS", as_deref(&extraction.sections.results));
    push_section(&mut parts, "CONCLUSION", as_deref(&extraction.sections.conclusion));
    let sep = chars_of("\n\n");
    let joined = join_parts(&parts, &sep);
    assert(parts@.map_values(|w: Vec<char>| w@) =~= seq![
        section_block("ABSTRACT"@, opt_view(extraction.sections.abstract_text)),
        section_block("INTRODUCTION"@, opt_view(extraction.sections.introduction)),
        section_block("METHODS"@, opt_view(extraction.sections.methods)),
        section_block("RESULTS"@, opt_view(extraction.sections.results)),
        section_block("CONCLUSION"@, opt_view(extraction.sections.conclusion)),
    ]);
    string_of(&joined)
}

} // verus!
