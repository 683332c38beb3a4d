use vstd::prelude::*;

verus! {

/// ANSI SGR escape codes used to switch character attributes on and off.
#[derive(Clone, Copy, PartialEq, Eq, Structural, Debug)]
pub enum EscapeCode {
    Reset,
    Bold,
    Underline,
    Blink,
    Negative,
    NoBold,
    NoUnderline,
    NoBlink,
    NoNegative,
    FgColor256(u8),
    FgColorDefault,
    BgColor256(u8),
    BgColorDefault,
}

/// The decimal digit `d` (`0 <= d < 10`) as a character.
pub open spec fn digit_char(d: nat) -> char {
    ((d + 48) as u8) as char
}

/// The decimal representation of `n`, without leading zeros.
pub open spec fn decimal(n: nat) -> Seq<char>
    decreases n,
{
    if n < 10 {
        seq![digit_char(n)]
    } else {
        decimal(n / 10).push(digit_char(n % 10))
    }
}

/// The control sequence `ESC [ params m`.
pub open spec fn sgr(params: Seq<char>) -> Seq<char> {
    seq!['\x1B', '['] + params + seq!['m']
}

impl EscapeCode {
    /// The parameters of the control sequence for this code.
    pub open spec fn params(self) -> Seq<char> {
        match self {
            EscapeCode::Reset => seq!['0'],
            EscapeCode::Bold => seq!['1'],
            EscapeCode::Underline => seq!['4'],
            EscapeCode::Blink => seq!['5'],
            EscapeCode::Negative => seq!['7'],
            EscapeCode::NoBold => seq!['2', '2'],
            EscapeCode::NoUnderline => seq!['2', '4'],
            EscapeCode::NoBlink => seq!['2', '5'],
            EscapeCode::NoNegative => seq!['2', '7'],
            EscapeCode::FgColor256(c) => seq!['3', '8', ';', '5', ';'] + decimal(c as nat),
            EscapeCode::FgColorDefault => seq!['3', '9'],
            EscapeCode::BgColor256(c) => seq!['4', '8', ';', '5', ';'] + decimal(c as nat),
            EscapeCode::BgColorDefault => seq!['4', '9'],
        }
    }

    /// The full control sequence for this code.
    pub open spec fn spec_string(self) -> Seq<char> {
        sgr(self.params())
    }

    /// Returns the control sequence for this code.
    pub fn to_string(&self) -> (r: String)
        ensures
            r@ == self.spec_string(),
    {
        let mut s = String::from_str("\x1B[");
        proof {
            reveal_strlit("\x1B[");
            reveal_strlit("0");
            reveal_strlit("1");
            reveal_strlit("4");
            reveal_strlit("5");
            reveal_strlit("7");
            reveal_strlit("22");
            reveal_strlit("24");
            reveal_strlit("25");
            reveal_strlit("27");
            reveal_strlit("38;5;");
            reveal_strlit("39");
            reveal_strlit("48;5;");
            reveal_strlit("49");
        }
        match *self {
            EscapeCode::Reset => append_lit(&mut s, "0"),
            EscapeCode::Bold => append_lit(&mut s, "1"),
            EscapeCode::Underline => append_lit(&mut s, "4"),
            EscapeCode::Blink => append_lit(&mut s, "5"),
            EscapeCode::Negative => append_lit(&mut s, "7"),
            EscapeCode::NoBold => append_lit(&mut s, "22"),
            EscapeCode::NoUnderline => append_lit(&mut s, "24"),
            EscapeCode::NoBlink => append_lit(&mut s, "25"),
            EscapeCode::NoNegative => append_lit(&mut s, "27"),
            EscapeCode::FgColor256(c) => {
                append_lit(&mut s, "38;5;");
                push_decimal(&mut s, c);
            },
            EscapeCode::FgColorDefault => append_lit(&mut s, "39"),
            EscapeCode::BgColor256(c) => {
                append_lit(&mut s, "48;5;");
                push_decimal(&mut s, c);
            },
            EscapeCode::BgColorDefault => append_lit(&mut s, "49"),
        }
        s.append("m");
        proof {
            reveal_strlit("m");
            assert(s@ =~= self.spec_string());
        }
        s
    }
}

fn append_lit(s: &mut String, lit: &str)
    ensures
        final(s)@ == old(s)@ + lit@,
{
    s.append(lit);
}

/// Appends the decimal digit `d`.
fn push_digit(s: &mut String, d: u8)
    requires
        d < 10,
    ensures
        final(s)@ == old(s)@.push(digit_char(d as nat)),
{
    let lit = match d {
        0 => "0",
        1 => "1",
        2 => "2",
        3 => "3",
        4 => "4",
        5 => "5",
        6 => "6",
        7 => "7",
        8 => "8",
        _ => "9",
    };
    proof {
        reveal_strlit("0");
        reveal_strlit("1");
        reveal_strlit("2");
        reveal_strlit("3");
        reveal_strlit("4");
        reveal_strlit("5");
        reveal_strlit("6");
        reveal_strlit("7");
        reveal_strlit("8");
        reveal_strlit("9");
    }
    s.append(lit);
    proof {
        assert(lit@ =~= seq![digit_char(d as nat)]);
    }
}

/// Appends the decimal representation of `n`.
fn push_decimal(s: &mut String, n: u8)
    ensures
        final(s)@ == old(s)@ + decimal(n as nat),
{
    if n >= 100 {
        push_digit(s, n / 100);
        push_digit(s, (n / 10) % 10);
        assert(decimal(n as nat) =~= seq![
            digit_char((n / 100) as nat),
            digit_char(((n / 10) % 10) as nat),
            digit_char((n % 10) as nat),
        ]) by {
            reveal_with_fuel(decimal, 3);
        }
    } else if n >= 10 {
        push_digit(s, n / 10);
        assert(decimal(n as nat) =~= seq![digit_char((n / 10) as nat), digit_char((n % 10) as nat)])
            by {
            reveal_with_fuel(decimal, 2);
        }
    } else {
        assert(decimal(n as nat) =~= seq![digit_char(n as nat)]);
    }
    push_digit(s, n % 10);
}

} // verus!
