use vstd::prelude::*;
use vstd::string::StrSliceExecFns;

verus! {

/// A wrapper around a str reference that allows slices of it to be taken
///
/// The slice may only grow in length, be reduced by a character it ends with,
/// or move right to a non-intersecting position with its length being reset
#[derive(Debug, Clone, Copy)]
pub struct SubString<'s> {
    source: &'s str,
    start: usize,
    len: usize,
}

/// The mathematical value of a `SubString`: the source text and the window on it
pub struct SpecSubString {
    pub source: Seq<char>,
    pub start: nat,
    pub len: nat,
}

impl<'s> View for SubString<'s> {
    type V = SpecSubString;

    closed spec fn view(&self) -> SpecSubString {
        SpecSubString { source: self.source@, start: self.start as nat, len: self.len as nat }
    }
}

impl SpecSubString {
    /// The window lies within the source text
    pub open spec fn wf(self) -> bool {
        self.start + self.len <= self.source.len()
    }

    /// The characters in the window
    pub open spec fn slice(self) -> Seq<char> {
        self.source.subrange(self.start as int, (self.start + self.len) as int)
    }
}

impl<'s> SubString<'s> {
    #[verifier::type_invariant]
    spec fn inv(self) -> bool {
        &&& self.start + self.len <= self.source@.len()
        &&& self.source@.len() <= usize::MAX
    }

    /// Creates a new `SubString` with an empty window at the start of `source`
    pub fn new(source: &'s str) -> (r: Self)
        ensures
            r@ == (SpecSubString { source: source@, start: 0, len: 0 }),
    {
        let _ = source.unicode_len();
        SubString { source, start: 0, len: 0 }
    }

    /// Returns if the substring has 0 length
    pub fn is_empty(&self) -> (r: bool)
        ensures
            r == (self@.len == 0),
    {
        self.len == 0
    }

    /// Retrieves the internal substring (may be done any number of times)
    pub fn take_slice(&self) -> (r: &'s str)
        ensures
            r@ == self@.slice(),
    {
        proof {
            use_type_invariant(self);
        }
        self.source.substring_char(self.start, self.start + self.len)
    }

    /// Grows the window by one character, the character `c` that follows it
    pub fn grow(&mut self, c: char)
        requires
            old(self)@.start + old(self)@.len < old(self)@.source.len(),
            old(self)@.source[(old(self)@.start + old(self)@.len) as int] == c,
        ensures
            final(self)@ == (SpecSubString { len: old(self)@.len + 1, ..old(self)@ }),
    {
        proof {
            use_type_invariant(&*self);
        }
        self.len = self.len + 1;
    }

    /// Moves the window start to the index after the window ends and resets the length
    pub fn move_after(&mut self)
        ensures
            final(self)@ == (SpecSubString { start: old(self)@.start + old(self)@.len, len: 0, ..old(self)@ }),
    {
        proof {
            use_type_invariant(&*self);
        }
        let end = self.start + self.len;
        *self = SubString { source: self.source, start: end, len: 0 };
    }

    /// Moves the window start after the window, then past the character `c` that follows it
    pub fn skip(&mut self, c: char)
        requires
            old(self)@.start + old(self)@.len < old(self)@.source.len(),
            old(self)@.source[(old(self)@.start + old(self)@.len) as int] == c,
        ensures
            final(self)@ == (SpecSubString { start: old(self)@.start + old(self)@.len + 1, len: 0, ..old(self)@ }),
    {
        proof {
            use_type_invariant(&*self);
        }
        let end = self.start + self.len + 1;
        *self = SubString { source: self.source, start: end, len: 0 };
    }

    /// Shrinks the window by one character if it ends with `c`
    ///
    /// Returns `true` if the window was shrunk
    pub fn shrink(&mut self, c: char) -> (r: bool)
        ensures
            r == (old(self)@.len > 0 && old(self)@.slice().last() == c),
            r ==> final(self)@ == (SpecSubString { len: (old(self)@.len - 1) as nat, ..old(self)@ }),
            !r ==> final(self)@ == old(self)@,
    {
        proof {
            use_type_invariant(&*self);
        }
        if self.len > 0 && self.source.get_char(self.start + self.len - 1) == c {
            self.len = self.len - 1;
            true
        } else {
            false
        }
    }
}

}
