//! What can be wrong with a circuit's structure.

use vstd::prelude::*;
use vstd::string::StringExecFns;

verus! {

/// A structural fault of a circuit.
#[derive(Debug, PartialEq, Eq, Structural)]
pub enum CircuitError {
    /// No wire was marked as an input.
    EmptyInput,
    /// No wire was marked as an output.
    EmptyOutput,
    /// Gate `gate_id` lies on a cycle that enters it through `wire_id`.
    CyclicPath { gate_id: usize, wire_id: usize },
}

pub type CircuitResult<E> = Result<E, CircuitError>;

/// The character of a decimal digit.
pub open spec fn digit(d: nat) -> char {
    if d == 0 {
        '0'
    } else if d == 1 {
        '1'
    } else if d == 2 {
        '2'
    } else if d == 3 {
        '3'
    } else if d == 4 {
        '4'
    } else if d == 5 {
        '5'
    } else if d == 6 {
        '6'
    } else if d == 7 {
        '7'
    } else if d == 8 {
        '8'
    } else {
        '9'
    }
}

/// A number written in decimal, without leading zeros.
pub open spec fn decimal(n: nat) -> Seq<char>
    decreases n,
{
    if n < 10 {
        seq![digit(n)]
    } else {
        decimal(n / 10).push(digit(n % 10))
    }
}

/// The text of one decimal digit.
fn digit_text(d: usize) -> (text: &'static str)
    requires
        d < 10,
    ensures
        text@ == seq![digit(d as nat)],
{
    proof {
        reveal_strlit("0");
        reveal_strlit("1");
        reveal_strlit("2");
        reveal_strlit("3");
        reveal_strlit("4");
        reveal_strlit("5");
        reveal_strlit("6");
        reveal_strlit("7");
        reveal_strlit("8");
        reveal_strlit("9");
    }
    let text = if d == 0 {
        "0"
    } else if d == 1 {
        "1"
    } else if d == 2 {
        "2"
    } else if d == 3 {
        "3"
    } else if d == 4 {
        "4"
    } else if d == 5 {
        "5"
    } else if d == 6 {
        "6"
    } else if d == 7 {
        "7"
    } else if d == 8 {
        "8"
    } else {
        "9"
    };
    assert(text@ =~= seq![digit(d as nat)]);
    text
}

/// Writes a number in decimal.
fn decimal_text(n: usize) -> (text: String)
    ensures
        text@ == decimal(n as nat),
    decreases n,
{
    if n < 10 {
        String::from_str(digit_text(n))
    } else {
        let mut text = decimal_text(n / 10);
        text.append(digit_text(n % 10));
        text
    }
}

impl CircuitError {
    /// What the error says, as a sequence of characters.
    pub open spec fn text(self) -> Seq<char> {
        match self {
            CircuitError::EmptyInput => "This circuit has no input."@,
            CircuitError::EmptyOutput => "This circuit has no output."@,
            CircuitError::CyclicPath { gate_id, wire_id } => "This circuit has cyclic path. Gate with id"@
                + decimal(gate_id as nat) + " has input wire with id"@ + decimal(wire_id as nat) + "."@,
        }
    }

    /// The error as a sentence for a reader.
    pub fn to_string(&self) -> (text: String)
        ensures
            text@ == self.text(),
    {
        match self {
            CircuitError::EmptyInput => String::from_str("This circuit has no input."),
            CircuitError::EmptyOutput => String::from_str("This circuit has no output."),
            CircuitError::CyclicPath { gate_id, wire_id } => {
                let mut text = String::from_str("This circuit has cyclic path. Gate with id");
                text.append(decimal_text(*gate_id).as_str());
                text.append(" has input wire with id");
                text.append(decimal_text(*wire_id).as_str());
                text.append(".");
                text
            },
        }
    }
}

} // verus!
