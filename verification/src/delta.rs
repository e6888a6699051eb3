//! Annotated lines: a line of text tagged as unchanged, inserted or deleted.

use vstd::prelude::*;
use vstd::string::StringExecFns;

verus! {

/// What happened to a line between the first sequence and the second.
#[allow(non_camel_case_types)]
#[derive(Debug, Clone, Copy, PartialEq, Eq, Structural)]
pub enum EditType {
    /// The line occurs in the second sequence only.
    INSERT,
    /// The line occurs in the first sequence only.
    DELETE,
    /// The line occurs in both sequences.
    NIL,
}

/// A line together with what happened to it.
#[derive(Debug)]
pub struct DeltaLine {
    pub edit_type: EditType,
    pub line: String,
}

impl View for DeltaLine {
    type V = (EditType, Seq<char>);

    open spec fn view(&self) -> (EditType, Seq<char>) {
        (self.edit_type, self.line@)
    }
}

/// The character that marks an annotated line of the given kind.
pub open spec fn prefix_char(edit_type: EditType) -> char {
    match edit_type {
        EditType::DELETE => '-',
        EditType::INSERT => '+',
        EditType::NIL => ' ',
    }
}

/// The text of an annotated line: its mark, then the line itself.
pub open spec fn render(entry: (EditType, Seq<char>)) -> Seq<char> {
    seq![prefix_char(entry.0)] + entry.1
}

impl DeltaLine {
    /// Renders the line with a one-character mark in front: `-` for a deleted
    /// line, `+` for an inserted one, a space for an unchanged one.
    pub fn to_string(&self) -> (text: String)
        ensures
            text@ == render(self@),
    {
        let mut prefix = match self.edit_type {
            EditType::DELETE => String::from_str("-"),
            EditType::INSERT => String::from_str("+"),
            EditType::NIL => String::from_str(" "),
        };
        proof {
            reveal_strlit("-");
            reveal_strlit("+");
            reveal_strlit(" ");
            assert(prefix@ =~= seq![prefix_char(self.edit_type)]);
        }
        prefix.append(self.line.as_str());
        prefix
    }
}

} // verus!
