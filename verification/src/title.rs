//! Document-title state: the current text of the `<title>` tag and the
//! formatter wrapped around it.
//!
//! The formatter is a closed affix pair rather than an open-ended function:
//! applying it surrounds the text with a prefix and a suffix, which is what
//! a root-level formatter composes around the values set further down.

use vstd::prelude::*;
use vstd::string::StringExecFns;

verus! {

/// Applied to the text value before it is set as the document title: the
/// result is `prefix + text + suffix`.
#[derive(Clone)]
pub struct Formatter {
    pub prefix: String,
    pub suffix: String,
}

/// The current state of the document's `<title>`.
#[derive(Clone)]
pub struct TitleContext {
    pub formatter: Option<Formatter>,
    pub text: Option<String>,
}

impl TitleContext {
    /// The text content the current state denotes, if any.
    pub open spec fn spec_string(self) -> Option<Seq<char>> {
        match self.text {
            Option::Some(t) => Option::Some(
                match self.formatter {
                    Option::Some(f) => f.prefix@ + t@ + f.suffix@,
                    Option::None => t@,
                },
            ),
            Option::None => Option::None,
        }
    }

    /// Converts the title into a string usable as the text content of a
    /// `<title>` tag: the formatter's affixes around the text, or `None`
    /// while no text is set.
    pub fn as_string(&self) -> (r: Option<String>)
        ensures
            match r {
                Option::Some(s) => self.spec_string() == Option::Some(s@),
                Option::None => self.spec_string() is None,
            },
    {
        match &self.text {
            Option::Some(t) => match &self.formatter {
                Option::Some(f) => {
                    let s = f.prefix.clone().concat(t.as_str()).concat(f.suffix.as_str());
                    Option::Some(s)
                },
                Option::None => Option::Some(t.clone()),
            },
            Option::None => Option::None,
        }
    }
}

/// Applies a title update to the head state, the way the title component
/// does on the server: a given formatter or text replaces the stored one,
/// an absent one leaves it alone.  The document mutation that follows on a
/// client stays outside this crate.
pub fn set_title(meta: &mut TitleContext, formatter: Option<Formatter>, text: Option<String>)
    ensures
        final(meta).formatter == (if formatter is Some {
            formatter
        } else {
            old(meta).formatter
        }),
        final(meta).text == (if text is Some {
            text
        } else {
            old(meta).text
        }),
{
    match formatter {
        Option::Some(f) => {
            meta.formatter = Option::Some(f);
        },
        Option::None => {},
    }
    match text {
        Option::Some(t) => {
            meta.text = Option::Some(t);
        },
        Option::None => {},
    }
}

impl Default for TitleContext {
    /// An empty title state: no formatter, no text.
    fn default() -> (r: TitleContext)
        ensures
            r.formatter is None,
            r.text is None,
    {
        TitleContext { formatter: Option::None, text: Option::None }
    }
}

} // verus!
