//! Materialisation: the visual decisions taken on top of the geometry.

use vstd::prelude::*;
use vstd::string::StrSliceExecFns;

use crate::builder::ir::common::{ArrowKind, ArrowSpec};
use crate::builder::ir::shape::EdgeEnds;
use crate::builder::ir::unigraph::EdgeKind;

verus! {

/// Index of the first `" ["` in `s`, or -1.
pub open spec fn bracket_pos(s: Seq<char>) -> int
    decreases s.len(),
{
    if s.len() < 2 {
        -1
    } else {
        let r = bracket_pos(s.drop_last());
        if r >= 0 {
            r
        } else if s[s.len() - 2] == ' ' && s[s.len() - 1] == '[' {
            s.len() - 2
        } else {
            -1
        }
    }
}

/// A block label split at its first `" ["`: the keyword before it and the
/// bracketed description after the space.
pub open spec fn spec_split_block_label(s: Seq<char>) -> (Seq<char>, Option<Seq<char>>) {
    let i = bracket_pos(s);
    if i >= 0 {
        (s.take(i), Some(s.skip(i + 1)))
    } else {
        (s, None)
    }
}

proof fn lemma_bracket_pos(s: Seq<char>)
    ensures
        -1 <= bracket_pos(s),
        bracket_pos(s) >= 0 ==> bracket_pos(s) + 2 <= s.len(),
        bracket_pos(s) >= 0 ==> s[bracket_pos(s)] == ' ' && s[bracket_pos(s) + 1] == '[',
    decreases s.len(),
{
    if s.len() >= 2 {
        let t = s.drop_last();
        lemma_bracket_pos(t);
        assert forall|j: int| 0 <= j < t.len() implies t[j] == s[j] by {}
    }
}

proof fn lemma_bracket_pos_prefix(s: Seq<char>, k: int)
    requires
        2 <= k <= s.len(),
        bracket_pos(s.take(k - 1)) < 0,
    ensures
        bracket_pos(s.take(k)) == if s[k - 2] == ' ' && s[k - 1] == '[' { k - 2 } else { -1 },
{
    assert(s.take(k).drop_last() =~= s.take(k - 1));
}

/// Splits a block label such as `loop [Each item]` into the keyword and
/// the bracketed description (`loop` and `[Each item]`); a label without
/// `" ["` comes back whole, with no description.
pub fn split_block_label(label: &str) -> (r: (String, Option<String>))
    ensures
        (r.0@, match r.1 { Some(t) => Some(t@), None => None }) == spec_split_block_label(label@),
{
    let n = label.unicode_len();
    let ghost s = label@;
    let mut i: usize = 0;
    proof {
        lemma_bracket_pos(s.take(1));
    }
    if n < 2 {
        proof {
            lemma_bracket_pos(s);
        }
        return (label.to_string(), None);
    }
    assert(s.take(1).len() < 2);
    while i + 1 < n
        invariant
            n == s.len(),
            s == label@,
            i + 1 <= n,
            bracket_pos(s.take(i + 1)) < 0,
        decreases n - i,
    {
        proof {
            lemma_bracket_pos_prefix(s, i + 2);
        }
        if label.get_char(i) == ' ' && label.get_char(i + 1) == '[' {
            proof {
                assert(bracket_pos(s.take(i + 2)) == i);
                lemma_bracket_pos_prefix_full(s, i + 2);
            }
            let head = label.substring_char(0, i).to_string();
            let tail = label.substring_char(i + 1, n).to_string();
            assert(s.subrange(0, i as int) =~= s.take(i as int));
            assert(s.subrange(i + 1, n as int) =~= s.skip(i + 1));
            return (head, Some(tail));
        }
        i = i + 1;
    }
    assert(s.take(n as int) =~= s);
    (label.to_string(), None)
}

proof fn lemma_bracket_pos_prefix_full(s: Seq<char>, k: int)
    requires
        0 <= k <= s.len(),
        bracket_pos(s.take(k)) >= 0,
    ensures
        bracket_pos(s) == bracket_pos(s.take(k)),
    decreases s.len(),
{
    if k == s.len() {
        assert(s.take(k) =~= s);
    } else {
        assert(s.drop_last().take(k) =~= s.take(k));
        lemma_bracket_pos_prefix_full(s.drop_last(), k);
    }
}

/// The decoration for one arrow mark.
pub open spec fn spec_map_ends(kind: ArrowKind) -> EdgeEnds {
    match kind {
        ArrowKind::Arrow => EdgeEnds::Arrow,
        ArrowKind::Circle => EdgeEnds::Circle,
        ArrowKind::Cross => EdgeEnds::Cross,
        ArrowKind::NoMark => EdgeEnds::NoMark,
    }
}

/// Decoration for one arrow mark: arrow, circle and cross keep their mark,
/// no mark stays none.
pub fn map_ends(kind: ArrowKind) -> (e: EdgeEnds)
    ensures
        e == spec_map_ends(kind),
{
    match kind {
        ArrowKind::Arrow => EdgeEnds::Arrow,
        ArrowKind::Circle => EdgeEnds::Circle,
        ArrowKind::Cross => EdgeEnds::Cross,
        ArrowKind::NoMark => EdgeEnds::NoMark,
    }
}

/// The (start, end) decorations of an edge.
pub open spec fn spec_edge_ends(kind: EdgeKind, arrow: ArrowSpec) -> (EdgeEnds, EdgeEnds) {
    match kind {
        EdgeKind::ClassExtends => (EdgeEnds::Triangle, EdgeEnds::NoMark),
        EdgeKind::ClassComposition => (EdgeEnds::DiamondFilled, EdgeEnds::NoMark),
        EdgeKind::ClassAggregation => (EdgeEnds::DiamondHollow, EdgeEnds::NoMark),
        EdgeKind::ClassAssociation => (EdgeEnds::NoMark, EdgeEnds::TriangleFilled),
        EdgeKind::ClassDependency => (EdgeEnds::NoMark, EdgeEnds::TriangleFilled),
        _ => (spec_map_ends(arrow.start), spec_map_ends(arrow.end)),
    }
}

/// Start and end decorations of an edge: class inheritance, composition,
/// aggregation, association and dependency have decorations of their own;
/// every other edge takes them from its arrow marks.
pub fn edge_ends(kind: EdgeKind, arrow: ArrowSpec) -> (r: (EdgeEnds, EdgeEnds))
    ensures
        r == spec_edge_ends(kind, arrow),
{
    match kind {
        EdgeKind::ClassExtends => (EdgeEnds::Triangle, EdgeEnds::NoMark),
        EdgeKind::ClassComposition => (EdgeEnds::DiamondFilled, EdgeEnds::NoMark),
        EdgeKind::ClassAggregation => (EdgeEnds::DiamondHollow, EdgeEnds::NoMark),
        EdgeKind::ClassAssociation => (EdgeEnds::NoMark, EdgeEnds::TriangleFilled),
        EdgeKind::ClassDependency => (EdgeEnds::NoMark, EdgeEnds::TriangleFilled),
        _ => (map_ends(arrow.start), map_ends(arrow.end)),
    }
}

} // verus!
