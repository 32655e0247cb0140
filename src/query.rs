//! Parameters of a full-text query: how the tokens of a text become a query.
use vstd::prelude::*;

verus! {

#[derive(Clone, Copy, Debug, PartialEq, Eq, Structural)]
pub enum BooleanOperand {
    And,
    Or,
}

/// What a query without any term matches.
#[derive(Clone, Copy, Debug, PartialEq, Eq, Structural)]
pub enum MatchAllOrNone {
    MatchNone,
    MatchAll,
}

/// How the tokens of a text are combined.
#[derive(Clone, Copy, Debug, PartialEq, Eq, Structural)]
pub enum FullTextMode {
    /// A boolean clause over the tokens, a conjunction or a disjunction.
    Bool { operator: BooleanOperand },
    /// A boolean clause whose last token is a prefix.
    BoolPrefix { operator: BooleanOperand, max_expansions: u32 },
    /// A phrase with slop 0 where the field has positions, else a conjunction.
    PhraseFallbackToIntersection,
    /// A phrase; a non-zero slop lets tokens be slightly out of place.
    Phrase { slop: u32 },
}

impl From<BooleanOperand> for FullTextMode {
    fn from(operator: BooleanOperand) -> (r: FullTextMode) {
        FullTextMode::Bool { operator }
    }
}

impl vstd::std_specs::convert::FromSpecImpl<BooleanOperand> for FullTextMode {
    open spec fn obeys_from_spec() -> bool {
        true
    }

    open spec fn from_spec(operator: BooleanOperand) -> FullTextMode {
        FullTextMode::Bool { operator }
    }
}

/// Whether a slop is the default one, which need not be written out.
pub fn is_zero(val: &u32) -> (r: bool)
    ensures
        r == (*val == 0),
{
    *val == 0u32
}

#[derive(Clone, Debug)]
pub struct FullTextParams {
    pub tokenizer: Option<String>,
    pub mode: FullTextMode,
    pub zero_terms_query: MatchAllOrNone,
}

/// A text to tokenize and search in one field.
#[derive(Clone, Debug)]
pub struct FullTextQuery {
    pub field: String,
    pub text: String,
    pub params: FullTextParams,
}

impl FullTextQuery {
    /// Whether the last token of the text is searched as a prefix.
    pub fn has_prefix_term(&self) -> (r: bool)
        ensures
            r == (self.params.mode matches FullTextMode::BoolPrefix { .. }),
    {
        matches!(self.params.mode, FullTextMode::BoolPrefix { .. })
    }
}

} // verus!
