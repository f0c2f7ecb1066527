//! Books as ordered blocks of text, and token counting.
use vstd::prelude::*;
use crate::formats::Format;
use crate::rows;
use crate::text;
use crate::types;

verus! {

/// An ordered unit of text from a book, with structural metadata. Pages are known for PDF only.
#[derive(Debug, PartialEq, Eq)]
pub struct Block {
    pub text: String,
    pub chapter: Option<String>,
    pub page: Option<u32>,
}

/// What a [`Block`] holds.
#[verifier::ext_equal]
pub struct BlockV {
    pub text: Seq<char>,
    pub chapter: Option<Seq<char>>,
    pub page: Option<u32>,
}

impl View for Block {
    type V = BlockV;

    open spec fn view(&self) -> BlockV {
        BlockV { text: self.text@, chapter: text::opt_text(self.chapter), page: self.page }
    }
}

impl Clone for Block {
    fn clone(&self) -> (r: Self)
        ensures
            r@ == self@,
    {
        Block {
            text: self.text.clone(),
            chapter: types::copy_opt(&self.chapter),
            page: self.page,
        }
    }
}

impl Block {
    pub fn new(text: String, chapter: Option<String>, page: Option<u32>) -> (r: Self)
        ensures
            r@ == (BlockV { text: text@, chapter: text::opt_text(chapter), page }),
    {
        Block { text, chapter, page }
    }
}

/// A normalized, format-agnostic book: ordered blocks plus metadata.
#[derive(Debug, PartialEq, Eq)]
pub struct BookDoc {
    pub book_id: String,
    pub title: String,
    pub author: Option<String>,
    pub source_path: String,
    pub format: Format,
    pub blocks: Vec<Block>,
}

/// What a [`BookDoc`] holds.
#[verifier::ext_equal]
pub struct BookDocV {
    pub book_id: Seq<char>,
    pub title: Seq<char>,
    pub author: Option<Seq<char>>,
    pub source_path: Seq<char>,
    pub format: Format,
    pub blocks: Seq<BlockV>,
}

impl View for BookDoc {
    type V = BookDocV;

    open spec fn view(&self) -> BookDocV {
        BookDocV {
            book_id: self.book_id@,
            title: self.title@,
            author: text::opt_text(self.author),
            source_path: self.source_path@,
            format: self.format,
            blocks: rows::vals(self.blocks@),
        }
    }
}

/// Counts tokens for chunk sizing. A counter gives the same text the same count every time.
pub trait TokenCounter {
    /// The number of tokens of a text: one and the same for a text, and nothing more is known of it
    /// where a counter does not say.
    open spec fn tokens(&self, text: Seq<char>) -> nat {
        arbitrary()
    }

    fn count(&self, text: &str) -> (r: usize)
        ensures
            r == self.tokens(text@),
    ;
}

/// Cheap, offline token estimate: one token per whitespace-delimited word.
pub struct WhitespaceCounter;

impl TokenCounter for WhitespaceCounter {
    open spec fn tokens(&self, text: Seq<char>) -> nat {
        text::words(text).len()
    }

    fn count(&self, text: &str) -> (r: usize) {
        let v = text::chars_of(text);
        let w = text::words_of(&v);
        assert(text::texts(w@).len() == w@.len());
        w.len()
    }
}

} // verus!
