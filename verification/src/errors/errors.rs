use vstd::prelude::*;

verus! {

/// A scanning failure, with the 1-based position where the offending segment begins.
#[derive(Debug, Clone, Copy, PartialEq, Eq, Structural)]
pub enum ScanError {
    /// Reached end of input before the closing quote.
    UnterminatedStringLiteral { line: u32, col: u32 },
    /// A token started with digits and ran into identifier characters, e.g. `123abc`.
    IdentifierStartsWithDigit { line: u32, col: u32 },
}

/// The character of decimal digit `d`.
pub open spec fn digit_char(d: int) -> char {
    if d == 0 {
        '0'
    } else if d == 1 {
        '1'
    } else if d == 2 {
        '2'
    } else if d == 3 {
        '3'
    } else if d == 4 {
        '4'
    } else if d == 5 {
        '5'
    } else if d == 6 {
        '6'
    } else if d == 7 {
        '7'
    } else if d == 8 {
        '8'
    } else {
        '9'
    }
}

/// The decimal notation of `n`, without leading zeros.
pub open spec fn decimal(n: nat) -> Seq<char>
    decreases n,
{
    if n < 10 {
        seq![digit_char(n as int)]
    } else {
        decimal(n / 10).push(digit_char((n % 10) as int))
    }
}

/// The human-readable description of a scanning error.
pub open spec fn message(e: ScanError) -> Seq<char> {
    match e {
        ScanError::UnterminatedStringLiteral { line, col } => "unterminated string literal at line "@
            + decimal(line as nat) + ", column "@ + decimal(col as nat),
        ScanError::IdentifierStartsWithDigit { line, col } =>
            "identifier cannot start with a digit at line "@ + decimal(line as nat) + ", column "@
            + decimal(col as nat),
    }
}

/// The one-character string of decimal digit `d`.
fn digit_str(d: u32) -> (s: &'static str)
    requires
        d < 10,
    ensures
        s@ == seq![digit_char(d as int)],
{
    if d == 0 {
        proof {
            reveal_strlit("0");
        }
        "0"
    } else if d == 1 {
        proof {
            reveal_strlit("1");
        }
        "1"
    } else if d == 2 {
        proof {
            reveal_strlit("2");
        }
        "2"
    } else if d == 3 {
        proof {
            reveal_strlit("3");
        }
        "3"
    } else if d == 4 {
        proof {
            reveal_strlit("4");
        }
        "4"
    } else if d == 5 {
        proof {
            reveal_strlit("5");
        }
        "5"
    } else if d == 6 {
        proof {
            reveal_strlit("6");
        }
        "6"
    } else if d == 7 {
        proof {
            reveal_strlit("7");
        }
        "7"
    } else if d == 8 {
        proof {
            reveal_strlit("8");
        }
        "8"
    } else {
        proof {
            reveal_strlit("9");
        }
        "9"
    }
}

/// Appends the decimal notation of `n` to `out`.
fn push_decimal(out: &mut String, n: u32)
    ensures
        final(out)@ == old(out)@ + decimal(n as nat),
    decreases n,
{
    if n >= 10 {
        push_decimal(out, n / 10);
    }
    out.append(digit_str(n % 10));
    proof {
        assert(out@ =~= old(out)@ + decimal(n as nat));
    }
}

impl ScanError {
    /// Describes the error, with its line and column, e.g.
    /// `unterminated string literal at line 1, column 8`.
    pub fn to_string(&self) -> (s: String)
        ensures
            s@ == message(*self),
    {
        let mut out = String::new();
        match self {
            ScanError::UnterminatedStringLiteral { line, col } => {
                out.append("unterminated string literal at line ");
                push_decimal(&mut out, *line);
                out.append(", column ");
                push_decimal(&mut out, *col);
            },
            ScanError::IdentifierStartsWithDigit { line, col } => {
                out.append("identifier cannot start with a digit at line ");
                push_decimal(&mut out, *line);
                out.append(", column ");
                push_decimal(&mut out, *col);
            },
        }
        proof {
            assert(out@ =~= message(*self));
        }
        out
    }
}

} // verus!
