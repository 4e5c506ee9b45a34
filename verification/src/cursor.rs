//! A forward-only cursor over the characters of one input string.

use vstd::prelude::*;

verus! {

/// The characters of an input that have not been consumed yet.
///
/// A cursor only moves forward: a character that was consumed is never seen
/// again. One character of lookahead is available through [`Cursor::peek`].
pub struct Cursor {
    chars: Vec<char>,
    pos: usize,
}

impl View for Cursor {
    type V = Seq<char>;

    /// The characters still to come, in order.
    closed spec fn view(&self) -> Seq<char> {
        self.chars@.skip(self.pos as int)
    }
}

impl Cursor {
    #[verifier::type_invariant]
    spec fn in_bounds(&self) -> bool {
        self.pos <= self.chars.len()
    }

    /// A cursor at the start of `input`.
    pub fn new(input: &str) -> (cursor: Cursor)
        ensures
            cursor@ == input@,
    {
        let mut chars: Vec<char> = Vec::new();
        for c in it: input.chars()
            invariant
                chars@ == it.seq().take(it.index()),
                it.seq() == input@,
        {
            chars.push(c);
        }
        Cursor { chars, pos: 0 }
    }

    /// Consumes and returns the next character, or returns `None` at the end of
    /// the input.
    pub fn next(&mut self) -> (c: Option<char>)
        ensures
            old(self)@.len() == 0 ==> c.is_none() && final(self)@ == old(self)@,
            old(self)@.len() > 0 ==> {
                &&& c == Some(old(self)@[0])
                &&& final(self)@ == old(self)@.drop_first()
            },
    {
        proof {
            use_type_invariant(&*self);
        }
        if self.pos < self.chars.len() {
            let c = self.chars[self.pos];
            self.pos = self.pos + 1;
            assert(final(self)@ == old(self)@.drop_first());
            Some(c)
        } else {
            None
        }
    }

    /// The next character, which stays in the input, or `None` at the end of the
    /// input.
    pub fn peek(&self) -> (c: Option<char>)
        ensures
            self@.len() == 0 ==> c.is_none(),
            self@.len() > 0 ==> c == Some(self@[0]),
    {
        proof {
            use_type_invariant(self);
        }
        if self.pos < self.chars.len() {
            Some(self.chars[self.pos])
        } else {
            None
        }
    }
}

} // verus!
