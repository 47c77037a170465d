//! An input-method backend: converts a sequence of romanized Mandarin
//! syllables (pinyin) into the most likely Chinese character string,
//! scored by an n-gram language model learned from a segmented corpus.
use vstd::prelude::*;

pub mod codec;
pub mod decoder;
pub mod dict;
pub mod engine;
pub mod laws;
pub mod store;
pub mod tables;
pub mod trie;
pub mod words;

verus! {

/// One training-corpus record: either a structured record carrying an
/// `html` payload, or a plain line of text.
pub enum Raw {
    Weibo { html: String },
    Plain(String),
}

impl Raw {
    /// The text carried by the record, as a sequence of characters.
    pub open spec fn spec_text(self) -> Seq<char> {
        match self {
            Raw::Weibo { html } => html@,
            Raw::Plain(plain) => plain@,
        }
    }

    /// Unwrap the record into the text it carries.
    pub fn to_string(self) -> (r: String)
        ensures
            r@ == self.spec_text(),
    {
        match self {
            Raw::Weibo { html } => html,
            Raw::Plain(plain) => plain,
        }
    }
}

} // verus!
