//! The clipboard side of the launcher: the text that a copy action hands to
//! the system clipboard.

use vstd::prelude::*;

verus! {

/// Holds the text to be placed on the system clipboard.
#[derive(Debug)]
pub struct Clipboard {
    text: Option<String>,
}

impl View for Clipboard {
    type V = Option<Seq<char>>;

    closed spec fn view(&self) -> Option<Seq<char>> {
        match self.text {
            Some(t) => Some(t@),
            None => None,
        }
    }
}

impl Clipboard {
    /// An empty clipboard.
    pub fn new() -> (r: Clipboard)
        ensures
            r@ is None,
    {
        Clipboard { text: None }
    }

    /// Replaces the clipboard's text.
    pub fn set_text(&mut self, text: String)
        ensures
            final(self)@ == Some(text@),
    {
        self.text = Some(text);
    }

    /// The clipboard's text, if any.
    pub fn text(&self) -> (r: Option<&String>)
        ensures
            match r {
                Some(t) => self@ == Some(t@),
                None => self@ is None,
            },
    {
        match &self.text {
            Some(t) => Some(t),
            None => None,
        }
    }
}

} // verus!
