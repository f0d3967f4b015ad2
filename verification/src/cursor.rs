//! A character cursor with one character of look-ahead.
//!
//! The cursor owns the characters of its input and an index into them. It is
//! the stream that the lexer and the scanner consume.

use vstd::prelude::*;

verus! {

/// The first index at or after `from` at which `s` holds `stop`, or the length
/// of `s` when no such index exists.
pub open spec fn index_of_from(s: Seq<char>, stop: char, from: int) -> int
    decreases s.len() - from,
{
    if from >= s.len() {
        s.len() as int
    } else if s[from] == stop {
        from
    } else {
        index_of_from(s, stop, from + 1)
    }
}

/// `index_of_from` stays within the sequence, skips only characters other than
/// `stop`, and rests on `stop` unless it ran to the end.
pub proof fn lemma_index_of_from(s: Seq<char>, stop: char, from: int)
    requires
        0 <= from <= s.len(),
    ensures
        from <= index_of_from(s, stop, from) <= s.len(),
        forall|i: int| from <= i < index_of_from(s, stop, from) ==> s[i] != stop,
        index_of_from(s, stop, from) < s.len() ==> s[index_of_from(s, stop, from)] == stop,
    decreases s.len() - from,
{
    if from < s.len() && s[from] != stop {
        lemma_index_of_from(s, stop, from + 1);
    }
}

/// A position in a sequence of characters.
pub struct CharCursor {
    chars: Vec<char>,
    pos: usize,
}

impl CharCursor {
    /// The whole input, consumed part included.
    pub closed spec fn chars(&self) -> Seq<char> {
        self.chars@
    }

    /// The index of the next character to be read.
    pub closed spec fn pos(&self) -> int {
        self.pos as int
    }

    /// The position never passes the end of the input.
    #[verifier::type_invariant]
    pub closed spec fn in_bounds(&self) -> bool {
        self.pos <= self.chars.len()
    }

    /// A cursor at the start of the characters of `s`.
    pub fn new(s: &str) -> (cursor: Self)
        ensures
            cursor.chars() == s@,
            cursor.pos() == 0,
    {
        let mut chars: Vec<char> = Vec::new();
        for c in it: s.chars()
            invariant
                it.seq() == s@,
                chars@ == it.seq().take(it.index() as int),
        {
            chars.push(c);
        }
        CharCursor { chars, pos: 0 }
    }

    /// A cursor at the start of `chars`.
    pub fn from_chars(chars: Vec<char>) -> (cursor: Self)
        ensures
            cursor.chars() == chars@,
            cursor.pos() == 0,
    {
        CharCursor { chars, pos: 0 }
    }

    /// The index of the next character to be read.
    pub fn position(&self) -> (p: usize)
        ensures
            p == self.pos(),
            0 <= self.pos() <= self.chars().len(),
    {
        proof {
            use_type_invariant(self);
        }
        self.pos
    }

    /// The number of characters of the whole input.
    pub fn len(&self) -> (n: usize)
        ensures
            n == self.chars().len(),
    {
        self.chars.len()
    }

    /// The next character, which stays unread; `None` at the end of the input.
    pub fn peek(&self) -> (c: Option<char>)
        ensures
            0 <= self.pos() <= self.chars().len(),
            c == if self.pos() < self.chars().len() {
                Some(self.chars()[self.pos()])
            } else {
                None
            },
    {
        proof {
            use_type_invariant(self);
        }
        if self.pos < self.chars.len() {
            Some(self.chars[self.pos])
        } else {
            None
        }
    }

    /// Reads the next character and moves past it; `None` at the end of the
    /// input, where the cursor stays.
    pub fn next(&mut self) -> (c: Option<char>)
        ensures
            final(self).chars() == old(self).chars(),
            0 <= old(self).pos() <= final(self).pos() <= old(self).chars().len(),
            old(self).pos() < old(self).chars().len() ==> c == Some(
                old(self).chars()[old(self).pos()],
            ) && final(self).pos() == old(self).pos() + 1,
            old(self).pos() >= old(self).chars().len() ==> c.is_none() && final(self).pos() == old(
                self,
            ).pos(),
    {
        proof {
            use_type_invariant(&*self);
        }
        if self.pos < self.chars.len() {
            let c = self.chars[self.pos];
            self.pos = self.pos + 1;
            Some(c)
        } else {
            None
        }
    }
}

} // verus!
