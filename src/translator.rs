use vstd::prelude::*;

verus! {

/// The languages that a program can be rendered in.
#[derive(Clone, Copy, Debug, PartialEq, Eq, Structural)]
pub enum TargetLang {
    Python,
    Rust,
    C,
}

/// The state of a source-to-source rendering: the text so far, the current
/// indentation, and the target language.
///
/// Rendering programs into other languages is done outside this library; it
/// only holds the renderer's state.
pub struct Translator {
    code: String,
    indent: usize,
    target: TargetLang,
}

impl Translator {
    /// The text rendered so far.
    pub closed spec fn text(&self) -> Seq<char> {
        self.code@
    }

    /// The current indentation.
    pub closed spec fn depth(&self) -> nat {
        self.indent as nat
    }

    /// The target language.
    pub closed spec fn lang(&self) -> TargetLang {
        self.target
    }

    /// A translator for `target` with no text yet and no indentation.
    pub fn new(target: TargetLang) -> (r: Translator)
        ensures
            r.text() == Seq::<char>::empty(),
            r.depth() == 0,
            r.lang() == target,
    {
        Translator { code: String::new(), indent: 0, target }
    }

    /// The target language.
    pub fn target(&self) -> (r: TargetLang)
        ensures
            r == self.lang(),
    {
        self.target
    }

    /// The current indentation, in spaces.
    pub fn indent(&self) -> (r: usize)
        ensures
            r == self.depth(),
    {
        self.indent
    }

    /// The text rendered so far.
    pub fn code(&self) -> (r: &str)
        ensures
            r@ == self.text(),
    {
        self.code.as_str()
    }
}

} // verus!
