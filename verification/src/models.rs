//! How extracted text is grouped.

use vstd::prelude::*;
use vstd::std_specs::cmp::PartialEqSpec;

verus! {

/// How the text segments of a page are grouped: into paragraphs, or kept
/// as the lines PDFium reports.
#[derive(Debug, Clone)]
pub enum ChunkingStrategy {
    Paragraph,
    Line,
}

impl PartialEq for ChunkingStrategy {
    fn eq(&self, other: &Self) -> (r: bool) {
        match (self, other) {
            (ChunkingStrategy::Paragraph, ChunkingStrategy::Paragraph) => true,
            (ChunkingStrategy::Line, ChunkingStrategy::Line) => true,
            _ => false,
        }
    }
}

impl vstd::std_specs::cmp::PartialEqSpecImpl for ChunkingStrategy {
    open spec fn obeys_eq_spec() -> bool {
        true
    }

    open spec fn eq_spec(&self, other: &Self) -> bool {
        match (self, other) {
            (ChunkingStrategy::Paragraph, ChunkingStrategy::Paragraph) => true,
            (ChunkingStrategy::Line, ChunkingStrategy::Line) => true,
            _ => false,
        }
    }
}

impl ChunkingStrategy {
    /// The name under which the strategy is chosen on the command line.
    pub open spec fn value_name_spec(self) -> Seq<char> {
        match self {
            ChunkingStrategy::Paragraph => "paragraph"@,
            ChunkingStrategy::Line => "line"@,
        }
    }

    /// The name under which the strategy is chosen on the command line:
    /// `paragraph` or `line`.
    pub fn value_name(&self) -> (s: &'static str)
        ensures
            s@ == self.value_name_spec(),
    {
        match self {
            ChunkingStrategy::Paragraph => "paragraph",
            ChunkingStrategy::Line => "line",
        }
    }

    /// The name under which the strategy is shown.
    pub open spec fn display_spec(self) -> Seq<char> {
        match self {
            ChunkingStrategy::Paragraph => "Paragraph"@,
            ChunkingStrategy::Line => "Line"@,
        }
    }

    /// The name under which the strategy is shown: `Paragraph` or `Line`.
    pub fn to_string(&self) -> (s: String)
        ensures
            s@ == self.display_spec(),
    {
        match self {
            ChunkingStrategy::Paragraph => String::from_str("Paragraph"),
            ChunkingStrategy::Line => String::from_str("Line"),
        }
    }
}

/// Two strategies are equal exactly when they are the same variant, so
/// `==` is reflexive, symmetric and transitive.
pub proof fn lemma_strategy_eq_is_equality(a: ChunkingStrategy, b: ChunkingStrategy, c: ChunkingStrategy)
    ensures
        a.eq_spec(&b) <==> a == b,
        a.eq_spec(&a),
        a.eq_spec(&b) ==> b.eq_spec(&a),
        a.eq_spec(&b) && b.eq_spec(&c) ==> a.eq_spec(&c),
{
}

} // verus!
