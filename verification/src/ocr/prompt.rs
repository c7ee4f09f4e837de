//! The prompt that goes with each page.

use vstd::prelude::*;

use crate::text;

verus! {

/// What the model is asked to do with a page.
pub const TRANSCRIBE_PROMPT_BASE: &'static str = "Transcribe the handwritten text in this image verbatim — \
exact words, exact spelling, exact punctuation, exact line breaks. \
Preserve paragraph structure, lists, headings, indentation, and any underlining or emphasis you can see. \
Reproduce mathematical expressions, equations, and code samples character-for-character; do not paraphrase or convert them. \
If a word is unclear, transcribe your single best guess rather than skipping it. \
If a region is genuinely illegible, write [illegible] in its place — do not omit it silently. \
Output the transcript only — no preamble, no commentary, no description of the image, no markdown code fences.";

/// The request for Markdown.
pub const MARKDOWN_HINT: &'static str = "\n\nWhere the original handwriting clearly indicates structure (titles, bullet lists, indented quotes), output it as Markdown. Otherwise output plain prose.";

/// How a page is to be transcribed.
#[derive(Debug)]
pub struct TranscribeOptions {
    /// The main language of the text, if it is known.
    pub language: Option<String>,
    /// Whether the transcript may use Markdown.
    pub markdown: bool,
}

/// The hint at the language, if there is one that is more than whitespace.
pub open spec fn language_hint(language: Option<Seq<char>>) -> Seq<char> {
    match language {
        Some(lang) => if text::trimmed(lang).len() == 0 {
            Seq::empty()
        } else {
            "\n\nThe text is primarily in "@ + lang + "; recognise that script accordingly."@
        },
        None => Seq::empty(),
    }
}

/// The whole prompt.
pub open spec fn prompt(language: Option<Seq<char>>, markdown: bool) -> Seq<char> {
    TRANSCRIBE_PROMPT_BASE@ + language_hint(language) + (if markdown {
        MARKDOWN_HINT@
    } else {
        Seq::empty()
    })
}

/// Writes the prompt for the given options.
pub fn build_prompt(opts: &TranscribeOptions) -> (p: String)
    ensures
        p@ == prompt(opts.language.deep_view(), opts.markdown),
{
    let mut p = TRANSCRIBE_PROMPT_BASE.to_owned();
    if let Some(lang) = &opts.language {
        let bare = text::trim(lang.as_str());
        if !bare.as_str().is_empty() {
            let hint = text::concat3(
                "\n\nThe text is primarily in ",
                lang.as_str(),
                "; recognise that script accordingly.",
            );
            p.append(hint.as_str());
        }
    }
    assert(p@ =~= TRANSCRIBE_PROMPT_BASE@ + language_hint(opts.language.deep_view()));
    if opts.markdown {
        p.append(MARKDOWN_HINT);
    }
    assert(p@ =~= prompt(opts.language.deep_view(), opts.markdown));
    p
}

/// A prompt begins with the instruction, names the language as it was given if it is more than
/// whitespace, and ends with the request for Markdown exactly if that may be used.
pub proof fn prompt_says_what_is_wanted(language: Option<Seq<char>>, markdown: bool)
    ensures
        ({
            let tail = if markdown {
                MARKDOWN_HINT@
            } else {
                Seq::empty()
            };
            if language is None || text::trimmed(language->0).len() == 0 {
                prompt(language, markdown) == TRANSCRIBE_PROMPT_BASE@ + tail
            } else {
                prompt(language, markdown) == TRANSCRIBE_PROMPT_BASE@ + (
                "\n\nThe text is primarily in "@ + language->0
                    + "; recognise that script accordingly."@) + tail
            }
        }),
{
    if language is None || text::trimmed(language->0).len() == 0 {
        assert(TRANSCRIBE_PROMPT_BASE@ + Seq::<char>::empty() =~= TRANSCRIBE_PROMPT_BASE@);
    }
}

} // verus!
