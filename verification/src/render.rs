//! The string-form capability used by the diagnostic dump.

use vstd::prelude::*;

verus! {

/// The capability of a type to render itself as text, used by the map's
/// diagnostic dump.  `render` is pure: it returns exactly the character
/// sequence `render_spec`.
pub trait Render {
    /// The character sequence this value renders as.
    spec fn render_spec(&self) -> Seq<char>;

    /// Produces the text form of this value.
    fn render(&self) -> (s: String)
        ensures
            s@ == self.render_spec(),
    ;
}

impl Render for String {
    /// An owned string renders as its own characters.
    open spec fn render_spec(&self) -> Seq<char> {
        self@
    }

    fn render(&self) -> (s: String)
        ensures
            s@ == self.render_spec(),
    {
        self.clone()
    }
}

impl Render for &str {
    /// A borrowed string renders as its own characters.
    open spec fn render_spec(&self) -> Seq<char> {
        self@
    }

    fn render(&self) -> (s: String)
        ensures
            s@ == self.render_spec(),
    {
        (*self).to_owned()
    }
}

} // verus!
