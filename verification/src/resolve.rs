//! Resolution of an abstract syntax tree to its sequence of scale degrees.

use vstd::prelude::*;
use crate::ast::{AstNode, AstView, lemma_views_of, views_of};
use crate::scale::{note_to_degree, spec_note_to_degree};

verus! {

/// The degrees a single progression child contributes: a note child with a
/// recognized name contributes its degree; a note child with an unrecognized
/// name, and a non-note child, contribute nothing.
pub open spec fn spec_child_degrees(c: AstView) -> Seq<u8> {
    match c {
        AstView::Note { text } => match spec_note_to_degree(text) {
            Some(d) => seq![d],
            None => Seq::empty(),
        },
        AstView::Progression { .. } => Seq::empty(),
    }
}

/// The degrees of a sequence of progression children, in child order.
pub open spec fn spec_resolve_children(cs: Seq<AstView>) -> Seq<u8>
    decreases cs.len(),
{
    if cs.len() <= 0 {
        Seq::empty()
    } else {
        spec_resolve_children(cs.subrange(0, cs.len() - 1)) + spec_child_degrees(
            cs[cs.len() - 1],
        )
    }
}

/// The degree sequence of a whole tree: a progression resolves to the
/// concatenation of its children's contributions in order; a bare note
/// resolves to its own degree, or to the empty sequence if its name is not
/// recognized.
pub open spec fn spec_resolve(a: AstView) -> Seq<u8> {
    match a {
        AstView::Progression { children } => spec_resolve_children(children),
        AstView::Note { .. } => spec_child_degrees(a),
    }
}

/// Resolution of children distributes over concatenation: the degrees of a
/// joined child list are the degrees of the first part followed by the
/// degrees of the second. In particular the output keeps the relative order
/// of the children that carry valid degrees, with no reordering and no
/// deduplication.
pub proof fn lemma_resolve_children_append(cs1: Seq<AstView>, cs2: Seq<AstView>)
    ensures
        spec_resolve_children(cs1 + cs2) == spec_resolve_children(cs1) + spec_resolve_children(
            cs2,
        ),
    decreases cs2.len(),
{
    if cs2.len() == 0 {
        assert(cs1 + cs2 =~= cs1);
        assert(spec_resolve_children(cs1) + spec_resolve_children(cs2) =~= spec_resolve_children(
            cs1,
        ));
    } else {
        let whole = cs1 + cs2;
        assert(whole.subrange(0, whole.len() - 1) =~= cs1 + cs2.subrange(0, cs2.len() - 1));
        assert(whole[whole.len() - 1] == cs2[cs2.len() - 1]);
        lemma_resolve_children_append(cs1, cs2.subrange(0, cs2.len() - 1));
        assert(spec_resolve_children(cs1) + spec_resolve_children(
            cs2.subrange(0, cs2.len() - 1),
        ) + spec_child_degrees(cs2[cs2.len() - 1]) =~= spec_resolve_children(cs1)
            + spec_resolve_children(cs2));
    }
}

/// The resolved output of a child list is exactly the concatenation, in
/// child order, of each child's own contribution: the relative order of the
/// children that carry valid degrees is kept, with nothing reordered and
/// nothing deduplicated.
pub proof fn lemma_resolve_is_ordered_concatenation(cs: Seq<AstView>)
    ensures
        spec_resolve_children(cs) == Seq::new(
            cs.len(),
            |i: int| spec_child_degrees(cs[i]),
        ).flatten(),
    decreases cs.len(),
{
    broadcast use vstd::prelude::Seq::lemma_flatten_push;

    let m = Seq::new(cs.len(), |i: int| spec_child_degrees(cs[i]));
    if cs.len() == 0 {
        assert(m.flatten() =~= Seq::<u8>::empty());
    } else {
        let sub = cs.subrange(0, cs.len() - 1);
        lemma_resolve_is_ordered_concatenation(sub);
        let msub = Seq::new(sub.len(), |i: int| spec_child_degrees(sub[i]));
        assert(m =~= msub.push(spec_child_degrees(cs[cs.len() - 1])));
        assert(spec_resolve_children(cs) =~= m.flatten());
    }
}

/// Every degree a child list resolves to lies between 1 and 7.
pub proof fn lemma_resolve_children_in_range(cs: Seq<AstView>)
    ensures
        forall|i: int|
            0 <= i < spec_resolve_children(cs).len() ==> 1 <= #[trigger] spec_resolve_children(
                cs,
            )[i] <= 7,
    decreases cs.len(),
{
    if cs.len() > 0 {
        let sub = cs.subrange(0, cs.len() - 1);
        lemma_resolve_children_in_range(sub);
        assert forall|i: int| 0 <= i < spec_resolve_children(cs).len() implies 1
            <= #[trigger] spec_resolve_children(cs)[i] <= 7 by {
            if i < spec_resolve_children(sub).len() {
                assert(spec_resolve_children(cs)[i] == spec_resolve_children(sub)[i]);
            } else {
                assert(spec_resolve_children(cs)[i] == spec_child_degrees(cs[cs.len() - 1])[i
                    - spec_resolve_children(sub).len()]);
            }
        }
    }
}

/// Every degree a tree resolves to lies between 1 and 7.
pub proof fn lemma_resolve_in_range(a: AstView)
    ensures
        forall|i: int| 0 <= i < spec_resolve(a).len() ==> 1 <= #[trigger] spec_resolve(a)[i] <= 7,
{
    match a {
        AstView::Progression { children } => lemma_resolve_children_in_range(children),
        AstView::Note { .. } => {},
    }
}

/// Resolve a tree to its scale degrees: each recognized note contributes its
/// degree in order; unrecognized notes and non-note children are silently
/// filtered out. The result is a pure function of the tree, so resolving the
/// same tree again yields the same degrees.
pub fn process_ast(ast: &AstNode) -> (r: Vec<u8>)
    ensures
        r@ == spec_resolve(ast@),
        forall|i: int| 0 <= i < r@.len() ==> 1 <= #[trigger] r@[i] <= 7,
{
    proof {
        lemma_resolve_in_range(ast@);
    }
    match ast {
        AstNode::Progression { children } => {
            proof {
                lemma_views_of(children@);
            }
            let ghost cv = views_of(children@);
            let n = children.len();
            let mut out: Vec<u8> = Vec::new();
            let mut i: usize = 0;
            while i < n
                invariant
                    n == children@.len(),
                    i <= n,
                    cv == views_of(children@),
                    cv.len() == n,
                    forall|j: int| 0 <= j < n ==> cv[j] == #[trigger] children@[j]@,
                    ast is Progression,
                    ast->Progression_children == *children,
                    out@ == spec_resolve_children(cv.subrange(0, i as int)),
                decreases n - i,
            {
                let child = &children[i];
                let deg: Option<u8> = match child {
                    AstNode::Note { text } => note_to_degree(text.as_str()),
                    AstNode::Progression { .. } => None,
                };
                proof {
                    assert(cv[i as int] == children@[i as int]@);
                    match child {
                        AstNode::Note { text } => {
                            assert(cv[i as int] == (AstView::Note { text: text@ }));
                        },
                        AstNode::Progression { .. } => {
                            assert(spec_child_degrees(cv[i as int]) =~= Seq::<u8>::empty());
                        },
                    }
                }
                if let Some(d) = deg {
                    out.push(d);
                }
                proof {
                    assert(cv.subrange(0, i + 1).subrange(0, i as int) =~= cv.subrange(
                        0,
                        i as int,
                    ));
                    assert(cv.subrange(0, i + 1)[i as int] == cv[i as int]);
                    assert(out@ =~= spec_resolve_children(cv.subrange(0, i as int))
                        + spec_child_degrees(cv[i as int]));
                }
                i += 1;
            }
            proof {
                assert(cv.subrange(0, n as int) =~= cv);
                assert(out@ == spec_resolve(ast@));
                assert forall|i: int| 0 <= i < out@.len() implies 1 <= #[trigger] out@[i]
                    <= 7 by {
                    assert(out@[i] == spec_resolve(ast@)[i]);
                }
            }
            out
        },
        AstNode::Note { text } => {
            let mut out: Vec<u8> = Vec::new();
            if let Some(d) = note_to_degree(text.as_str()) {
                out.push(d);
            }
            proof {
                assert(out@ =~= spec_resolve(ast@));
                assert forall|i: int| 0 <= i < out@.len() implies 1 <= #[trigger] out@[i]
                    <= 7 by {
                    assert(out@[i] == spec_resolve(ast@)[i]);
                }
            }
            out
        },
    }
}

} // verus!
