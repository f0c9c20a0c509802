use vstd::prelude::*;

verus! {

/// The kind of one instruction of the intermediate representation.
#[derive(Debug, Clone, Copy, PartialEq, Eq, Structural)]
pub enum TokenType {
    Add,
    Subtract,
    Left,
    Right,
    Output,
    Input,
    JumpIfZero,
    JumpIfNotZero,
}

/// One instruction of the intermediate representation.
///
/// For the six non-bracket kinds `amount` is the length of the run of identical
/// symbols that the instruction stands for. For `JumpIfZero` it is the distance
/// from the open to one past its matching close; for `JumpIfNotZero` it is the
/// number of instructions strictly between the open and the close.
#[derive(Debug, Clone, Copy, PartialEq, Eq, Structural)]
pub struct Token {
    pub token_type: TokenType,
    pub amount: usize,
}

/// The eight significant symbols of the language.
pub open spec fn is_symbol(c: char) -> bool {
    c == '+' || c == '-' || c == '<' || c == '>' || c == '.' || c == ',' || c == '[' || c == ']'
}

/// The six symbols that are compressed into runs.
pub open spec fn is_run_symbol(c: char) -> bool {
    c == '+' || c == '-' || c == '<' || c == '>' || c == '.' || c == ','
}

/// The instruction kind that a significant symbol stands for.
pub open spec fn kind_of(c: char) -> TokenType
    recommends
        is_symbol(c),
{
    if c == '+' {
        TokenType::Add
    } else if c == '-' {
        TokenType::Subtract
    } else if c == '<' {
        TokenType::Left
    } else if c == '>' {
        TokenType::Right
    } else if c == '.' {
        TokenType::Output
    } else if c == ',' {
        TokenType::Input
    } else if c == '[' {
        TokenType::JumpIfZero
    } else {
        TokenType::JumpIfNotZero
    }
}

impl TokenType {
    /// Whether the kind is one of the two loop jumps.
    pub open spec fn is_jump(self) -> bool {
        self == TokenType::JumpIfZero || self == TokenType::JumpIfNotZero
    }

    /// The kind that a significant symbol stands for.
    pub fn from_symbol(c: char) -> (r: TokenType)
        requires
            is_symbol(c),
        ensures
            r == kind_of(c),
    {
        match c {
            '+' => TokenType::Add,
            '-' => TokenType::Subtract,
            '<' => TokenType::Left,
            '>' => TokenType::Right,
            '.' => TokenType::Output,
            ',' => TokenType::Input,
            '[' => TokenType::JumpIfZero,
            _ => TokenType::JumpIfNotZero,
        }
    }
}

} // verus!
