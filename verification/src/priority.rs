//! The priority of a scheduled item, with its score, letter and label.
use crate::questions::QuestionPriority;
use vstd::prelude::*;

verus! {

/// The priority of a scheduled item, from most to least urgent.
#[derive(Debug, Clone, Copy, PartialEq, Eq, Structural)]
pub enum Priority {
    Critical,
    High,
    Medium,
    Low,
    LongTerm,
}

impl Priority {
    /// The numeric weight of a priority: 4 for `Critical` down to 0 for `LongTerm`.
    pub open spec fn score_of(self) -> u8 {
        match self {
            Priority::Critical => 4,
            Priority::High => 3,
            Priority::Medium => 2,
            Priority::Low => 1,
            Priority::LongTerm => 0,
        }
    }

    pub open spec fn letter_of(self) -> char {
        match self {
            Priority::Critical => 'C',
            Priority::High => 'H',
            Priority::Medium => 'M',
            Priority::Low => 'L',
            Priority::LongTerm => 'T',
        }
    }

    pub open spec fn label_of(self) -> Seq<char> {
        match self {
            Priority::Critical => "Critical"@,
            Priority::High => "High"@,
            Priority::Medium => "Medium"@,
            Priority::Low => "Low"@,
            Priority::LongTerm => "LongTerm"@,
        }
    }

    pub fn score(self) -> (s: u8)
        ensures
            s == self.score_of(),
    {
        match self {
            Priority::Critical => 4,
            Priority::High => 3,
            Priority::Medium => 2,
            Priority::Low => 1,
            Priority::LongTerm => 0,
        }
    }

    pub fn letter(self) -> (c: char)
        ensures
            c == self.letter_of(),
    {
        match self {
            Priority::Critical => 'C',
            Priority::High => 'H',
            Priority::Medium => 'M',
            Priority::Low => 'L',
            Priority::LongTerm => 'T',
        }
    }

    pub fn label(self) -> (s: &'static str)
        ensures
            s@ == self.label_of(),
    {
        match self {
            Priority::Critical => "Critical",
            Priority::High => "High",
            Priority::Medium => "Medium",
            Priority::Low => "Low",
            Priority::LongTerm => "LongTerm",
        }
    }

    /// The priority that a question's priority maps to, variant for variant.
    pub open spec fn of_question(p: QuestionPriority) -> Priority {
        match p {
            QuestionPriority::Critical => Priority::Critical,
            QuestionPriority::High => Priority::High,
            QuestionPriority::Medium => Priority::Medium,
            QuestionPriority::Low => Priority::Low,
            QuestionPriority::LongTerm => Priority::LongTerm,
        }
    }
}

impl<'a> From<&'a QuestionPriority> for Priority {
    fn from(p: &'a QuestionPriority) -> (r: Priority) {
        match p {
            QuestionPriority::Critical => Priority::Critical,
            QuestionPriority::High => Priority::High,
            QuestionPriority::Medium => Priority::Medium,
            QuestionPriority::Low => Priority::Low,
            QuestionPriority::LongTerm => Priority::LongTerm,
        }
    }
}

impl<'a> vstd::std_specs::convert::FromSpecImpl<&'a QuestionPriority> for Priority {
    open spec fn obeys_from_spec() -> bool {
        true
    }

    open spec fn from_spec(p: &'a QuestionPriority) -> Priority {
        Priority::of_question(*p)
    }
}

/// A priority's score orders the variants strictly: `Critical` above `High`
/// above `Medium` above `Low` above `LongTerm`; so distinct priorities have
/// distinct scores.
pub proof fn score_orders_priorities(a: Priority, b: Priority)
    ensures
        a.score_of() == b.score_of() <==> a == b,
        Priority::Critical.score_of() > Priority::High.score_of(),
        Priority::High.score_of() > Priority::Medium.score_of(),
        Priority::Medium.score_of() > Priority::Low.score_of(),
        Priority::Low.score_of() > Priority::LongTerm.score_of(),
{
}

/// Every question priority maps to the priority of the same name, and the map
/// is one to one.
pub proof fn of_question_is_injective(a: QuestionPriority, b: QuestionPriority)
    ensures
        Priority::of_question(a) == Priority::of_question(b) <==> a == b,
{
}

} // verus!
