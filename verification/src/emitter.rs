//! The two text buffers into which the generated program is written.
use vstd::prelude::*;
use vstd::string::*;

verus! {

/// What the emitter holds: the text of the header region and the text of the
/// body region, each in the order in which it was written.
pub struct EmitterView {
    pub header: Seq<char>,
    pub code: Seq<char>,
}

/// An append-only accumulator of generated text. Declarations go to the
/// header, statements to the body; the finished text is the header followed by
/// the body.
pub struct Emitter {
    full_path: String,
    header: String,
    code: String,
}

impl View for Emitter {
    type V = EmitterView;

    closed spec fn view(&self) -> EmitterView {
        EmitterView { header: self.header@, code: self.code@ }
    }
}

impl Emitter {
    /// The path that the emitter was made for.
    pub closed spec fn path(&self) -> Seq<char> {
        self.full_path@
    }

    /// An emitter with both buffers empty, for output that is to go to
    /// `full_path`.
    pub fn build(full_path: String) -> (emitter: Emitter)
        ensures
            emitter@.header == Seq::<char>::empty(),
            emitter@.code == Seq::<char>::empty(),
            emitter.path() == full_path@,
    {
        Emitter { full_path, header: String::new(), code: String::new() }
    }

    /// Appends `code` to the body.
    pub fn emit(&mut self, code: String)
        ensures
            final(self)@.code == old(self)@.code + code@,
            final(self)@.header == old(self)@.header,
            final(self).path() == old(self).path(),
    {
        self.code.append(code.as_str());
    }

    /// Appends `code` and a line terminator to the body.
    pub fn emit_line(&mut self, code: String)
        ensures
            final(self)@.code == (old(self)@.code + code@).push('\n'),
            final(self)@.header == old(self)@.header,
            final(self).path() == old(self).path(),
    {
        self.code.append(code.as_str());
        self.code.push('\n');
    }

    /// Appends `code` and a line terminator to the header.
    pub fn header_line(&mut self, code: String)
        ensures
            final(self)@.header == (old(self)@.header + code@).push('\n'),
            final(self)@.code == old(self)@.code,
            final(self).path() == old(self).path(),
    {
        self.header.append(code.as_str());
        self.header.push('\n');
    }

    /// The finished text: the header, then the body, with nothing between
    /// them.
    pub fn finalize(&self) -> (text: String)
        ensures
            text@ == self@.header + self@.code,
    {
        let mut text = self.header.clone();
        text.append(self.code.as_str());
        text
    }

    /// The path that the emitter was made for.
    pub fn full_path(&self) -> (path: &String)
        ensures
            path@ == self.path(),
    {
        &self.full_path
    }
}

} // verus!
