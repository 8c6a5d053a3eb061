//! Character sources for the engine.
//!
//! An input yields one character at a time until it reports end of input;
//! after that it keeps reporting end of input. A source that can fail, such
//! as a reader over a file, reports its own errors; the engine hands them
//! on unchanged.

use crate::chars::string_chars;
use vstd::prelude::*;

verus! {

/// An error of an input source.
#[derive(Debug, PartialEq, Eq, Clone)]
pub enum LexxInputError {
    /// An error occurred in the input source or during decoding.
    Error(String),
}

/// A pull-based character source.
///
/// The model of an input is the sequence of characters it has yet to
/// yield, [`LexxInput::remaining`]; an input that cannot fail says so
/// through [`LexxInput::infallible`], and the engine's contracts are exact
/// for such inputs.
pub trait LexxInput: Sized {
    /// The characters this input has yet to yield.
    spec fn remaining(&self) -> Seq<char>;

    /// Whether this input never reports an error.
    spec fn infallible(&self) -> bool;

    /// Yields the next character, `Ok(None)` at the end of input, or an
    /// error of the underlying source.
    fn next(&mut self) -> (r: Result<Option<char>, LexxInputError>)
        ensures
            final(self).infallible() == old(self).infallible(),
            match r {
                Ok(Some(c)) => old(self).remaining().len() >= 1 && c == old(self).remaining()[0]
                    && final(self).remaining() == old(self).remaining().skip(1),
                Ok(None) => old(self).remaining().len() == 0 && final(self).remaining() == old(
                    self,
                ).remaining(),
                Err(_) => final(self).remaining() == old(self).remaining() && !old(
                    self,
                ).infallible(),
            },
    ;
}

/// An in-memory input over the characters of a string.
#[derive(Debug)]
pub struct InputString {
    index: usize,
    size: usize,
    chars: Vec<char>,
}

impl InputString {
    #[verifier::type_invariant]
    spec fn inv(&self) -> bool {
        self.index <= self.size && self.size == self.chars@.len()
    }

    /// Creates an input over the characters of `text`.
    pub fn new(text: String) -> (r: Self)
        ensures
            r.remaining() == text@,
            r.infallible(),
    {
        let chars = string_chars(&text);
        let size = chars.len();
        proof {
            assert(chars@.skip(0) =~= chars@);
        }
        InputString { index: 0, size, chars }
    }
}

impl LexxInput for InputString {
    closed spec fn remaining(&self) -> Seq<char> {
        self.chars@.skip(self.index as int)
    }

    closed spec fn infallible(&self) -> bool {
        true
    }

    fn next(&mut self) -> (r: Result<Option<char>, LexxInputError>) {
        proof {
            use_type_invariant(&*self);
        }
        if self.index < self.size {
            let c = self.chars[self.index];
            self.index = self.index + 1;
            proof {
                assert(final(self).remaining() =~= old(self).remaining().skip(1));
            }
            return Ok(Some(c));
        }
        Ok(None)
    }
}

} // verus!
