//! ER diagram rendering: relationship labels.

use vstd::prelude::*;

use crate::ast::Cardinality;

verus! {

/// The text shown for a cardinality.
pub open spec fn spec_cardinality_text(card: Cardinality) -> Seq<char> {
    match card {
        Cardinality::ExactlyOne => "1"@,
        Cardinality::ZeroOrOne => "0..1"@,
        Cardinality::OneOrMany => "1..N"@,
        Cardinality::ZeroOrMany => "0..N"@,
    }
}

/// Text of a cardinality: `1`, `0..1`, `1..N` or `0..N`.
pub fn format_cardinality(card: &Cardinality) -> (s: String)
    ensures
        s@ == spec_cardinality_text(*card),
{
    match card {
        Cardinality::ExactlyOne => String::from_str("1"),
        Cardinality::ZeroOrOne => String::from_str("0..1"),
        Cardinality::OneOrMany => String::from_str("1..N"),
        Cardinality::ZeroOrMany => String::from_str("0..N"),
    }
}

} // verus!
