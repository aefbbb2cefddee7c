//! The closed error type of the selection engine, with the exact message
//! text of the classic tool.

use vstd::prelude::*;

verus! {

/// Spec-level mirror of `CutError`, over character sequences.
pub enum ErrModel {
    /// A list part (or one of its sides) is not a positive decimal number;
    /// carries the offending token as it will be quoted.
    IllegalListValue(Seq<char>),
    /// A range whose first number is not lower than its second, or a range
    /// with an empty side; carries the two message fields.
    RangeOrder(Seq<char>, Seq<char>),
    /// A value too large for the machine's word.
    ValueTooLarge,
    /// A field delimiter whose encoding is not exactly one byte.
    BadDelimiter(Seq<char>),
    /// No extraction mode was supplied.
    NoMode,
    /// More than one extraction mode was supplied.
    MultipleModes,
}

/// An error of parsing a position list or of configuring a run.
#[derive(Debug)]
pub enum CutError {
    IllegalListValue(String),
    RangeOrder(String, String),
    ValueTooLarge,
    BadDelimiter(String),
    NoMode,
    MultipleModes,
}

impl View for CutError {
    type V = ErrModel;

    open spec fn view(&self) -> ErrModel {
        match self {
            CutError::IllegalListValue(t) => ErrModel::IllegalListValue(t@),
            CutError::RangeOrder(a, b) => ErrModel::RangeOrder(a@, b@),
            CutError::ValueTooLarge => ErrModel::ValueTooLarge,
            CutError::BadDelimiter(d) => ErrModel::BadDelimiter(d@),
            CutError::NoMode => ErrModel::NoMode,
            CutError::MultipleModes => ErrModel::MultipleModes,
        }
    }
}

/// The message each error is reported with.
pub open spec fn message_of(e: ErrModel) -> Seq<char> {
    match e {
        ErrModel::IllegalListValue(t) => "illegal list value: \""@ + t + "\""@,
        ErrModel::RangeOrder(a, b) => "First number in range ("@ + a
            + ") must be lower than second number ("@ + b + ")"@,
        ErrModel::ValueTooLarge => "number too large to fit in target type"@,
        ErrModel::BadDelimiter(d) => "--delim \""@ + d + "\" must be a single byte"@,
        ErrModel::NoMode => "No extract option provided"@,
        ErrModel::MultipleModes => "More than one extract option provided"@,
    }
}

impl CutError {
    /// Renders the error as the single descriptive line the tool prints.
    pub fn message(&self) -> (r: String)
        ensures
            r@ == message_of(self@),
    {
        match self {
            CutError::IllegalListValue(t) => {
                let mut m = String::new();
                m.append("illegal list value: \"");
                m.append(t.as_str());
                m.append("\"");
                proof {
                    assert(m@ =~= message_of(self@));
                }
                m
            },
            CutError::RangeOrder(a, b) => {
                let mut m = String::new();
                m.append("First number in range (");
                m.append(a.as_str());
                m.append(") must be lower than second number (");
                m.append(b.as_str());
                m.append(")");
                proof {
                    assert(m@ =~= message_of(self@));
                }
                m
            },
            CutError::ValueTooLarge => {
                let mut m = String::new();
                m.append("number too large to fit in target type");
                proof {
                    assert(m@ =~= message_of(self@));
                }
                m
            },
            CutError::BadDelimiter(d) => {
                let mut m = String::new();
                m.append("--delim \"");
                m.append(d.as_str());
                m.append("\" must be a single byte");
                proof {
                    assert(m@ =~= message_of(self@));
                }
                m
            },
            CutError::NoMode => {
                let mut m = String::new();
                m.append("No extract option provided");
                proof {
                    assert(m@ =~= message_of(self@));
                }
                m
            },
            CutError::MultipleModes => {
                let mut m = String::new();
                m.append("More than one extract option provided");
                proof {
                    assert(m@ =~= message_of(self@));
                }
                m
            },
        }
    }
}

} // verus!
