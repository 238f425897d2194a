//! Rendering resolution output as text.

use vstd::prelude::*;
use vstd::string::StringExecFns;
use crate::kinds::Tag;
use crate::kinds::tag_name;

verus! {

/// Encodes a stream of final tags as text, one tag name per line,
/// ready for rendering or for diffing against an annotated fixture.
pub struct Encode {
    buf: String,
}

impl View for Encode {
    type V = Seq<char>;

    closed spec fn view(&self) -> Seq<char> {
        self.buf@
    }
}

impl Encode {
    pub fn new() -> (e: Encode)
        ensures
            e@ == Seq::<char>::empty(),
    {
        Encode { buf: String::new() }
    }

    /// Appends one tag's name and a line break.
    pub fn put(&mut self, t: Tag)
        ensures
            final(self)@ == old(self)@ + tag_name(t) + "\n"@,
    {
        self.buf.append(t.name());
        self.buf.append("\n");
    }

    /// The text encoded so far.
    pub fn as_str(&self) -> (r: &str)
        ensures
            r@ == self@,
    {
        self.buf.as_str()
    }
}

} // verus!
