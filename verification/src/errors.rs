//! What can go wrong while a transcript is read.

use vstd::prelude::*;

use crate::domain_separator::Op;

verus! {

/// A request that the protocol or the NARG string does not allow.
#[derive(Clone, Copy, Debug, PartialEq, Eq, Structural)]
pub enum DomainSeparatorMismatch {
    /// The protocol does not expect `requested` next, but `expected`, or nothing at all.
    UnexpectedOp { requested: Op, expected: Option<Op> },
    /// `need` bytes were asked for, and the NARG string has only `got` left.
    TranscriptExhausted { got: usize, need: usize },
    /// The NARG string has no room for the length of a hint.
    HintLengthMissing,
    /// A hint claims `need` bytes, and the NARG string has only `got` left.
    HintTruncated { got: usize, need: usize },
}

/// Why a proof is not accepted.
#[derive(Clone, Copy, Debug, PartialEq, Eq, Structural)]
pub enum ProofError {
    /// A check of the verifier failed.
    InvalidProof,
    /// The transcript does not follow the protocol.
    InvalidDomainSeparator(DomainSeparatorMismatch),
    /// The data of a hint could not be decoded.
    SerializationError,
}

/// What reading a proof comes to.
pub type ProofResult<T> = Result<T, ProofError>;

/// The decimal digits of `value`, most significant digit first.
pub open spec fn decimal_text(value: nat) -> Seq<char>
    decreases value,
{
    let digit = (48 + value % 10) as char;
    if value < 10 {
        seq![digit]
    } else {
        decimal_text(value / 10).push(digit)
    }
}

/// The name of an instruction.
pub open spec fn op_text(op: Op) -> Seq<char> {
    match op {
        Op::Absorb(count) => "Absorb("@ + decimal_text(count as nat) + ")"@,
        Op::Squeeze(count) => "Squeeze("@ + decimal_text(count as nat) + ")"@,
        Op::Hint => "Hint"@,
    }
}

/// Appends one decimal digit.
fn push_digit(text: &mut String, digit: usize)
    requires
        digit < 10,
    ensures
        final(text)@ == old(text)@.push((48 + digit) as char),
{
    proof {
        reveal_strlit("0");
        reveal_strlit("1");
        reveal_strlit("2");
        reveal_strlit("3");
        reveal_strlit("4");
        reveal_strlit("5");
        reveal_strlit("6");
        reveal_strlit("7");
        reveal_strlit("8");
        reveal_strlit("9");
    }
    let name: &str = match digit {
        0 => "0",
        1 => "1",
        2 => "2",
        3 => "3",
        4 => "4",
        5 => "5",
        6 => "6",
        7 => "7",
        8 => "8",
        _ => "9",
    };
    text.append(name);
    assert(text@ =~= old(text)@.push((48 + digit) as char));
}

/// Appends the decimal digits of `value`.
fn push_decimal_text(text: &mut String, value: usize)
    ensures
        final(text)@ == old(text)@ + decimal_text(value as nat),
    decreases value,
{
    if value >= 10 {
        push_decimal_text(text, value / 10);
    }
    push_digit(text, value % 10);
    assert(text@ =~= old(text)@ + decimal_text(value as nat));
}

/// Appends the name of an instruction.
fn push_op_text(text: &mut String, op: Op)
    ensures
        final(text)@ == old(text)@ + op_text(op),
{
    match op {
        Op::Absorb(count) => {
            text.append("Absorb(");
            push_decimal_text(text, count);
            text.append(")");
        },
        Op::Squeeze(count) => {
            text.append("Squeeze(");
            push_decimal_text(text, count);
            text.append(")");
        },
        Op::Hint => {
            text.append("Hint");
        },
    }
    assert(text@ =~= old(text)@ + op_text(op));
}

impl DomainSeparatorMismatch {
    /// The text of [`DomainSeparatorMismatch::message`].
    pub open spec fn spec_message(self) -> Seq<char> {
        match self {
            DomainSeparatorMismatch::UnexpectedOp { requested, expected: Some(op) } => {
                "Invalid tag. Got "@ + op_text(requested) + ", expected "@ + op_text(op)
            },
            DomainSeparatorMismatch::UnexpectedOp { requested, expected: None } => {
                "Invalid tag. Stack empty, got "@ + op_text(requested)
            },
            DomainSeparatorMismatch::HintLengthMissing => {
                "Insufficient transcript remaining for hint"@
            },
            DomainSeparatorMismatch::TranscriptExhausted { got, need } => {
                "Insufficient transcript remaining, got "@ + decimal_text(got as nat) + ", need "@
                    + decimal_text(need as nat)
            },
            DomainSeparatorMismatch::HintTruncated { got, need } => {
                "Insufficient transcript remaining, got "@ + decimal_text(got as nat) + ", need "@
                    + decimal_text(need as nat)
            },
        }
    }

    /// The mismatch in words.
    pub fn message(&self) -> (text: String)
        ensures
            text@ == self.spec_message(),
    {
        let mut text = String::new();
        match *self {
            DomainSeparatorMismatch::UnexpectedOp { requested, expected: Some(op) } => {
                text.append("Invalid tag. Got ");
                push_op_text(&mut text, requested);
                text.append(", expected ");
                push_op_text(&mut text, op);
            },
            DomainSeparatorMismatch::UnexpectedOp { requested, expected: None } => {
                text.append("Invalid tag. Stack empty, got ");
                push_op_text(&mut text, requested);
            },
            DomainSeparatorMismatch::HintLengthMissing => {
                text.append("Insufficient transcript remaining for hint");
            },
            DomainSeparatorMismatch::TranscriptExhausted { got, need }
            | DomainSeparatorMismatch::HintTruncated { got, need } => {
                text.append("Insufficient transcript remaining, got ");
                push_decimal_text(&mut text, got);
                text.append(", need ");
                push_decimal_text(&mut text, need);
            },
        }
        assert(text@ =~= self.spec_message());
        text
    }
}

/// A message names the instructions and the numbers of its mismatch.
pub proof fn law_messages(requested: Op, expected: Op, got: usize, need: usize, count: usize)
    ensures
        op_text(Op::Absorb(count)) == "Absorb("@ + decimal_text(count as nat) + ")"@,
        op_text(Op::Squeeze(count)) == "Squeeze("@ + decimal_text(count as nat) + ")"@,
        op_text(Op::Hint) == "Hint"@,
        (DomainSeparatorMismatch::UnexpectedOp {
            requested,
            expected: Some(expected),
        }).spec_message() == "Invalid tag. Got "@ + op_text(requested) + ", expected "@ + op_text(
            expected,
        ),
        (DomainSeparatorMismatch::UnexpectedOp { requested, expected: None }).spec_message()
            == "Invalid tag. Stack empty, got "@ + op_text(requested),
        DomainSeparatorMismatch::HintLengthMissing.spec_message()
            == "Insufficient transcript remaining for hint"@,
        (DomainSeparatorMismatch::TranscriptExhausted { got, need }).spec_message()
            == "Insufficient transcript remaining, got "@ + decimal_text(got as nat) + ", need "@
            + decimal_text(need as nat),
        (DomainSeparatorMismatch::HintTruncated { got, need }).spec_message()
            == "Insufficient transcript remaining, got "@ + decimal_text(got as nat) + ", need "@
            + decimal_text(need as nat),
{
}

} // verus!
