//! The closed set of machine commands, with the symbol and the mountain that
//! stand for each of them in the two surface syntaxes.

use vstd::prelude::*;
use vstd::string::StringSliceAdditionalSpecFns;

verus! {

/// One machine command.
///
/// In symbolic source a command is one character. In a mountain range it is
/// one mountain: a single peak or a double one, of one of three heights, or
/// two peaks of different height for the jumps. `Read`, which the taller
/// shapes leave no room for, is drawn as three low peaks side by side.
#[derive(Clone, Copy, Debug, PartialEq, Eq, Structural)]
pub enum Command {
    /// Move the cell pointer one cell to the right.
    IncrementPointer,
    /// Move the cell pointer one cell to the left.
    DecrementPointer,
    /// Add one to the current cell.
    Increment,
    /// Subtract one from the current cell.
    Decrement,
    /// Skip past the matching `JumpBack` when the current cell is zero.
    JumpAhead,
    /// Return to just after the matching `JumpAhead` when the current cell is
    /// not zero.
    JumpBack,
    /// Read one byte from the input into the current cell.
    Read,
    /// Write the current cell to the output.
    Write,
}

/// The byte of a blank column in a mountain row.
pub const SPACE: u8 = 32;

/// The byte of a rising slope, `/`.
pub const SLASH: u8 = 47;

/// The byte of a falling slope, `\`.
pub const BACKSLASH: u8 = 92;

impl Command {
    /// The character that stands for this command in symbolic source.
    pub open spec fn symbol(self) -> u8 {
        match self {
            Command::IncrementPointer => 62,
            Command::DecrementPointer => 60,
            Command::Increment => 43,
            Command::Decrement => 45,
            Command::JumpAhead => 91,
            Command::JumpBack => 93,
            Command::Read => 44,
            Command::Write => 46,
        }
    }

    /// The command that a character of symbolic source stands for, if any.
    pub open spec fn of_symbol(byte: u8) -> Option<Command> {
        if byte == 62 {
            Some(Command::IncrementPointer)
        } else if byte == 60 {
            Some(Command::DecrementPointer)
        } else if byte == 43 {
            Some(Command::Increment)
        } else if byte == 45 {
            Some(Command::Decrement)
        } else if byte == 91 {
            Some(Command::JumpAhead)
        } else if byte == 93 {
            Some(Command::JumpBack)
        } else if byte == 44 {
            Some(Command::Read)
        } else if byte == 46 {
            Some(Command::Write)
        } else {
            None
        }
    }

    /// Number of columns that this command's mountain occupies.
    pub open spec fn width(self) -> nat {
        match self {
            Command::IncrementPointer => 6,
            Command::DecrementPointer => 8,
            Command::Increment => 4,
            Command::Decrement => 6,
            Command::JumpAhead => 8,
            Command::JumpBack => 8,
            Command::Read => 8,
            Command::Write => 2,
        }
    }

    /// Top row of this command's mountain.
    ///
    /// The peaks of the three-row mountains reach this row; the lower ones
    /// leave it blank.
    pub open spec fn top_row(self) -> Seq<u8> {
        match self {
            Command::IncrementPointer => seq![SPACE, SPACE, SLASH, BACKSLASH, SPACE, SPACE],
            Command::DecrementPointer => seq![
                SPACE, SPACE, SLASH, BACKSLASH, SLASH, BACKSLASH, SPACE, SPACE
            ],
            Command::Increment => seq![SPACE, SPACE, SPACE, SPACE],
            Command::Decrement => seq![SPACE, SPACE, SPACE, SPACE, SPACE, SPACE],
            Command::JumpAhead => seq![
                SPACE, SPACE, SLASH, BACKSLASH, SPACE, SPACE, SPACE, SPACE
            ],
            Command::JumpBack => seq![
                SPACE, SPACE, SPACE, SPACE, SLASH, BACKSLASH, SPACE, SPACE
            ],
            Command::Read => seq![SPACE, SPACE, SPACE, SPACE, SPACE, SPACE, SPACE, SPACE],
            Command::Write => seq![SPACE, SPACE],
        }
    }

    /// Middle row of this command's mountain.
    pub open spec fn middle_row(self) -> Seq<u8> {
        match self {
            Command::IncrementPointer => seq![SPACE, SLASH, SPACE, SPACE, BACKSLASH, SPACE],
            Command::DecrementPointer => seq![
                SPACE, SLASH, SPACE, SPACE, SPACE, SPACE, BACKSLASH, SPACE
            ],
            Command::Increment => seq![SPACE, SLASH, BACKSLASH, SPACE],
            Command::Decrement => seq![SPACE, SLASH, BACKSLASH, SLASH, BACKSLASH, SPACE],
            Command::JumpAhead => seq![
                SPACE, SLASH, SPACE, SPACE, BACKSLASH, SLASH, BACKSLASH, SPACE
            ],
            Command::JumpBack => seq![
                SPACE, SLASH, BACKSLASH, SLASH, SPACE, SPACE, BACKSLASH, SPACE
            ],
            Command::Read => seq![
                SPACE, SLASH, BACKSLASH, SLASH, BACKSLASH, SLASH, BACKSLASH, SPACE
            ],
            Command::Write => seq![SPACE, SPACE],
        }
    }

    /// Bottom row of this command's mountain: one rising slope, blanks, one
    /// falling slope.
    pub open spec fn bottom_row(self) -> Seq<u8> {
        match self {
            Command::IncrementPointer => seq![SLASH, SPACE, SPACE, SPACE, SPACE, BACKSLASH],
            Command::DecrementPointer => seq![
                SLASH, SPACE, SPACE, SPACE, SPACE, SPACE, SPACE, BACKSLASH
            ],
            Command::Increment => seq![SLASH, SPACE, SPACE, BACKSLASH],
            Command::Decrement => seq![SLASH, SPACE, SPACE, SPACE, SPACE, BACKSLASH],
            Command::JumpAhead => seq![
                SLASH, SPACE, SPACE, SPACE, SPACE, SPACE, SPACE, BACKSLASH
            ],
            Command::JumpBack => seq![
                SLASH, SPACE, SPACE, SPACE, SPACE, SPACE, SPACE, BACKSLASH
            ],
            Command::Read => seq![SLASH, SPACE, SPACE, SPACE, SPACE, SPACE, SPACE, BACKSLASH],
            Command::Write => seq![SLASH, BACKSLASH],
        }
    }

    /// The character that stands for this command in symbolic source.
    pub fn to_brnfck(&self) -> (symbol: u8)
        ensures
            symbol == self.symbol(),
    {
        match self {
            Command::IncrementPointer => 62,
            Command::DecrementPointer => 60,
            Command::Increment => 43,
            Command::Decrement => 45,
            Command::JumpAhead => 91,
            Command::JumpBack => 93,
            Command::Read => 44,
            Command::Write => 46,
        }
    }

    /// The command that `byte` stands for in symbolic source, or `None` when
    /// it stands for none.
    pub fn from_brnfck(byte: u8) -> (command: Option<Command>)
        ensures
            command == Command::of_symbol(byte),
    {
        match byte {
            62 => Some(Command::IncrementPointer),
            60 => Some(Command::DecrementPointer),
            43 => Some(Command::Increment),
            45 => Some(Command::Decrement),
            91 => Some(Command::JumpAhead),
            93 => Some(Command::JumpBack),
            44 => Some(Command::Read),
            46 => Some(Command::Write),
            _ => None,
        }
    }

    /// Top row of this command's mountain, as bytes.
    pub fn top(&self) -> (row: &'static [u8])
        ensures
            row@ == self.top_row(),
    {
        let drawn = match self {
            Command::IncrementPointer => {
                proof {
                    reveal_strlit("  /\\  ");
                }
                "  /\\  "
            },
            Command::DecrementPointer => {
                proof {
                    reveal_strlit("  /\\/\\  ");
                }
                "  /\\/\\  "
            },
            Command::Increment => {
                proof {
                    reveal_strlit("    ");
                }
                "    "
            },
            Command::Decrement => {
                proof {
                    reveal_strlit("      ");
                }
                "      "
            },
            Command::JumpAhead => {
                proof {
                    reveal_strlit("  /\\    ");
                }
                "  /\\    "
            },
            Command::JumpBack => {
                proof {
                    reveal_strlit("    /\\  ");
                }
                "    /\\  "
            },
            Command::Read => {
                proof {
                    reveal_strlit("        ");
                }
                "        "
            },
            Command::Write => {
                proof {
                    reveal_strlit("  ");
                }
                "  "
            },
        };
        proof {
            vstd::string::is_ascii_spec_bytes(drawn);
            assert(drawn.spec_bytes() =~= self.top_row());
        }
        drawn.as_bytes()
    }

    /// Middle row of this command's mountain, as bytes.
    pub fn middle(&self) -> (row: &'static [u8])
        ensures
            row@ == self.middle_row(),
    {
        let drawn = match self {
            Command::IncrementPointer => {
                proof {
                    reveal_strlit(" /  \\ ");
                }
                " /  \\ "
            },
            Command::DecrementPointer => {
                proof {
                    reveal_strlit(" /    \\ ");
                }
                " /    \\ "
            },
            Command::Increment => {
                proof {
                    reveal_strlit(" /\\ ");
                }
                " /\\ "
            },
            Command::Decrement => {
                proof {
                    reveal_strlit(" /\\/\\ ");
                }
                " /\\/\\ "
            },
            Command::JumpAhead => {
                proof {
                    reveal_strlit(" /  \\/\\ ");
                }
                " /  \\/\\ "
            },
            Command::JumpBack => {
                proof {
                    reveal_strlit(" /\\/  \\ ");
                }
                " /\\/  \\ "
            },
            Command::Read => {
                proof {
                    reveal_strlit(" /\\/\\/\\ ");
                }
                " /\\/\\/\\ "
            },
            Command::Write => {
                proof {
                    reveal_strlit("  ");
                }
                "  "
            },
        };
        proof {
            vstd::string::is_ascii_spec_bytes(drawn);
            assert(drawn.spec_bytes() =~= self.middle_row());
        }
        drawn.as_bytes()
    }

    /// Bottom row of this command's mountain, as bytes.
    pub fn bottom(&self) -> (row: &'static [u8])
        ensures
            row@ == self.bottom_row(),
    {
        let drawn = match self {
            Command::IncrementPointer => {
                proof {
                    reveal_strlit("/    \\");
                }
                "/    \\"
            },
            Command::DecrementPointer => {
                proof {
                    reveal_strlit("/      \\");
                }
                "/      \\"
            },
            Command::Increment => {
                proof {
                    reveal_strlit("/  \\");
                }
                "/  \\"
            },
            Command::Decrement => {
                proof {
                    reveal_strlit("/    \\");
                }
                "/    \\"
            },
            Command::JumpAhead => {
                proof {
                    reveal_strlit("/      \\");
                }
                "/      \\"
            },
            Command::JumpBack => {
                proof {
                    reveal_strlit("/      \\");
                }
                "/      \\"
            },
            Command::Read => {
                proof {
                    reveal_strlit("/      \\");
                }
                "/      \\"
            },
            Command::Write => {
                proof {
                    reveal_strlit("/\\");
                }
                "/\\"
            },
        };
        proof {
            vstd::string::is_ascii_spec_bytes(drawn);
            assert(drawn.spec_bytes() =~= self.bottom_row());
        }
        drawn.as_bytes()
    }
}

/// Every command is the one that its own symbol stands for, and no two
/// commands share a symbol.
pub proof fn lemma_symbol_identifies_command(command: Command)
    ensures
        Command::of_symbol(command.symbol()) == Some(command),
        forall|other: Command| other.symbol() == command.symbol() ==> other == command,
{
}

/// A byte that stands for a command is that command's symbol.
pub proof fn lemma_of_symbol_is_inverse(byte: u8)
    ensures
        Command::of_symbol(byte) matches Some(command) ==> command.symbol() == byte,
{
}

/// The three rows of a mountain are as wide as the mountain, and a mountain
/// is at least two columns wide.
pub proof fn lemma_rows_have_width(command: Command)
    ensures
        command.top_row().len() == command.width(),
        command.middle_row().len() == command.width(),
        command.bottom_row().len() == command.width(),
        2 <= command.width() <= 8,
{
}

} // verus!
