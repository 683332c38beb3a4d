use vstd::prelude::*;

use crate::escape_code::EscapeCode;

verus! {

/// Character attributes that can be attached to an `AttributedString`.
#[derive(Clone, Copy, PartialEq, Eq, Structural, Debug)]
pub enum Attribute {
    Blink,
    Bold,
    Inverse,
    Underline,
    FgColor256(u8),
    FgColorDefault,
    BgColor256(u8),
    BgColorDefault,
}

impl Attribute {
    /// The escape code that switches this attribute on.
    pub open spec fn initiator_code(self) -> EscapeCode {
        match self {
            Attribute::Blink => EscapeCode::Blink,
            Attribute::Bold => EscapeCode::Bold,
            Attribute::Inverse => EscapeCode::Negative,
            Attribute::Underline => EscapeCode::Underline,
            Attribute::FgColor256(c) => EscapeCode::FgColor256(c),
            Attribute::FgColorDefault => EscapeCode::FgColorDefault,
            Attribute::BgColor256(c) => EscapeCode::BgColor256(c),
            Attribute::BgColorDefault => EscapeCode::BgColorDefault,
        }
    }

    /// The escape code that switches this attribute off; for a colour it
    /// restores the channel's default whatever colour was set.
    pub open spec fn terminator_code(self) -> EscapeCode {
        match self {
            Attribute::Blink => EscapeCode::NoBlink,
            Attribute::Bold => EscapeCode::NoBold,
            Attribute::Inverse => EscapeCode::NoNegative,
            Attribute::Underline => EscapeCode::NoUnderline,
            Attribute::FgColor256(_) => EscapeCode::FgColorDefault,
            Attribute::FgColorDefault => EscapeCode::FgColorDefault,
            Attribute::BgColor256(_) => EscapeCode::BgColorDefault,
            Attribute::BgColorDefault => EscapeCode::BgColorDefault,
        }
    }

    pub open spec fn enable_seq(self) -> Seq<char> {
        self.initiator_code().spec_string()
    }

    pub open spec fn disable_seq(self) -> Seq<char> {
        self.terminator_code().spec_string()
    }

    /// Returns the ANSI escape code that makes a terminal enable the attribute.
    pub fn initiator(&self) -> (r: String)
        ensures
            r@ == self.enable_seq(),
    {
        let code = match *self {
            Attribute::Blink => EscapeCode::Blink,
            Attribute::Bold => EscapeCode::Bold,
            Attribute::Inverse => EscapeCode::Negative,
            Attribute::Underline => EscapeCode::Underline,
            Attribute::FgColor256(c) => EscapeCode::FgColor256(c),
            Attribute::FgColorDefault => EscapeCode::FgColorDefault,
            Attribute::BgColor256(c) => EscapeCode::BgColor256(c),
            Attribute::BgColorDefault => EscapeCode::BgColorDefault,
        };
        code.to_string()
    }

    /// Returns the ANSI escape code that makes a terminal disable the attribute.
    pub fn terminator(&self) -> (r: String)
        ensures
            r@ == self.disable_seq(),
    {
        let code = match *self {
            Attribute::Blink => EscapeCode::NoBlink,
            Attribute::Bold => EscapeCode::NoBold,
            Attribute::Inverse => EscapeCode::NoNegative,
            Attribute::Underline => EscapeCode::NoUnderline,
            Attribute::FgColor256(_) => EscapeCode::FgColorDefault,
            Attribute::FgColorDefault => EscapeCode::FgColorDefault,
            Attribute::BgColor256(_) => EscapeCode::BgColorDefault,
            Attribute::BgColorDefault => EscapeCode::BgColorDefault,
        };
        code.to_string()
    }
}

} // verus!
