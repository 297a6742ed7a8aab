//! Colour handling that honours the NO_COLOR convention: one switch decides
//! whether the ANSI helpers wrap their text in escape codes or return it
//! unchanged.  Reading the environment is left to the caller.

use vstd::prelude::*;

verus! {

/// The ANSI colour wrapping: `ESC [ <code> m <text> ESC [0m`.
pub open spec fn ansi_wrapped(text: Seq<char>, code: Seq<char>) -> Seq<char> {
    "\u{1b}["@ + code + "m"@ + text + "\u{1b}[0m"@
}

#[derive(Clone, Copy)]
pub struct ColorScheme {
    pub enabled: bool,
}

impl ColorScheme {
    /// A scheme with colours explicitly switched on or off.
    pub fn new(enabled: bool) -> (r: ColorScheme)
        ensures
            r.enabled == enabled,
    {
        ColorScheme { enabled }
    }

    /// Wrap `text` in the ANSI code when colours are on, else hand it back
    /// unchanged.
    pub fn ansi_format(&self, text: &str, ansi_code: &str) -> (r: String)
        ensures
            self.enabled ==> r@ == ansi_wrapped(text@, ansi_code@),
            !self.enabled ==> r@ == text@,
    {
        if self.enabled {
            let prefix: &str = "\u{1b}[";
            let mut r = prefix.to_owned();
            r.append(ansi_code);
            r.append("m");
            r.append(text);
            r.append("\u{1b}[0m");
            r
        } else {
            text.to_owned()
        }
    }

    /// ANSI yellow (33).
    pub fn ansi_yellow(&self, text: &str) -> (r: String)
        ensures
            self.enabled ==> r@ == ansi_wrapped(text@, "33"@),
            !self.enabled ==> r@ == text@,
    {
        self.ansi_format(text, "33")
    }

    /// ANSI green (32).
    pub fn ansi_green(&self, text: &str) -> (r: String)
        ensures
            self.enabled ==> r@ == ansi_wrapped(text@, "32"@),
            !self.enabled ==> r@ == text@,
    {
        self.ansi_format(text, "32")
    }

    /// ANSI red (31).
    pub fn ansi_red(&self, text: &str) -> (r: String)
        ensures
            self.enabled ==> r@ == ansi_wrapped(text@, "31"@),
            !self.enabled ==> r@ == text@,
    {
        self.ansi_format(text, "31")
    }

    /// ANSI cyan (36).
    pub fn ansi_cyan(&self, text: &str) -> (r: String)
        ensures
            self.enabled ==> r@ == ansi_wrapped(text@, "36"@),
            !self.enabled ==> r@ == text@,
    {
        self.ansi_format(text, "36")
    }

    /// ANSI bright black (90).
    pub fn ansi_gray(&self, text: &str) -> (r: String)
        ensures
            self.enabled ==> r@ == ansi_wrapped(text@, "90"@),
            !self.enabled ==> r@ == text@,
    {
        self.ansi_format(text, "90")
    }
}

} // verus!
