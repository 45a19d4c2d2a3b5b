use vstd::prelude::*;
use crate::model::{Tree, balanced, tokens_of, tree_of, rpn_of, expression_of};

verus! {

/// Reading the same text twice gives the same expression: the result is a
/// function of the text alone.
pub proof fn lemma_parse_deterministic(s: Seq<char>, first: Option<Tree>, second: Option<Tree>)
    requires
        first == expression_of(s),
        second == expression_of(s),
    ensures
        first == second,
{
}

/// A text whose brackets are not balanced has no expression.
pub proof fn lemma_unbalanced_fails(s: Seq<char>)
    requires
        !balanced(s),
    ensures
        expression_of(s) is None,
{
}

/// On a text with balanced brackets that splits into tokens, the whole
/// pipeline agrees with running the postfix stack machine on the postfix
/// order of those tokens.
pub proof fn lemma_pipeline_agrees(s: Seq<char>, ts: Seq<Seq<char>>)
    requires
        balanced(s),
        tokens_of(s) == Some(ts),
    ensures
        expression_of(s) == tree_of(rpn_of(ts)),
{
}

} // verus!
