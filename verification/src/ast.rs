//! The abstract syntax tree: a progression of children or a single note.

use vstd::prelude::*;

verus! {

/// An abstract syntax tree for chord progressions: either a progression
/// holding an ordered list of children, or a single note carrying the raw
/// text of its token. Children keep their insertion order; note text is kept
/// exactly as written, with no normalization.
#[derive(Debug)]
pub enum AstNode {
    Progression { children: Vec<AstNode> },
    Note { text: String },
}

/// The mathematical shape of an `AstNode`: children as a sequence of views,
/// text as a sequence of characters.
#[verifier::ext_equal]
pub enum AstView {
    Progression { children: Seq<AstView> },
    Note { text: Seq<char> },
}

/// The view of one tree node.
pub open spec fn view_of(a: AstNode) -> AstView
    decreases a,
{
    match a {
        AstNode::Progression { children } => AstView::Progression {
            children: views_of(children@),
        },
        AstNode::Note { text } => AstView::Note { text: text@ },
    }
}

/// The views of a sequence of tree nodes, in order.
pub open spec fn views_of(cs: Seq<AstNode>) -> Seq<AstView>
    decreases cs,
{
    if cs.len() <= 0 {
        Seq::empty()
    } else {
        views_of(cs.subrange(0, cs.len() - 1)).push(view_of(cs[cs.len() - 1]))
    }
}

impl View for AstNode {
    type V = AstView;

    open spec fn view(&self) -> AstView {
        view_of(*self)
    }
}

/// `views_of` maps the view over the sequence pointwise.
pub proof fn lemma_views_of(cs: Seq<AstNode>)
    ensures
        views_of(cs).len() == cs.len(),
        forall|i: int| 0 <= i < cs.len() ==> views_of(cs)[i] == view_of(#[trigger] cs[i]),
    decreases cs,
{
    if cs.len() > 0 {
        let sub = cs.subrange(0, cs.len() - 1);
        lemma_views_of(sub);
        assert forall|i: int| 0 <= i < cs.len() implies views_of(cs)[i] == view_of(
            #[trigger] cs[i],
        ) by {
            if i < cs.len() - 1 {
                assert(sub[i] == cs[i]);
                assert(views_of(cs)[i] == views_of(sub)[i]);
            }
        }
    }
}

/// Structural equality of two trees: same variant at every position, equal
/// child lists, equal note text.
pub fn ast_eq(a: &AstNode, b: &AstNode) -> (r: bool)
    ensures
        r == (a@ == b@),
    decreases a,
{
    match (a, b) {
        (AstNode::Note { text: ta }, AstNode::Note { text: tb }) => ta.eq(tb),
        (AstNode::Progression { children: ca }, AstNode::Progression { children: cb }) => {
            proof {
                lemma_views_of(ca@);
                lemma_views_of(cb@);
            }
            if ca.len() != cb.len() {
                false
            } else {
                let n = ca.len();
                let mut i: usize = 0;
                let mut same = true;
                while i < n
                    invariant
                        n == ca@.len() == cb@.len(),
                        i <= n,
                        a is Progression,
                        a->Progression_children == *ca,
                        same <==> (forall|j: int| 0 <= j < i ==> ca@[j]@ == cb@[j]@),
                    decreases n - i,
                {
                    proof {
                        assert(decreases_to!(*a => a->Progression_children));
                        assert(decreases_to!(*ca => ca@));
                        assert(decreases_to!(ca@ => ca@[i as int]));
                    }
                    if !ast_eq(&ca[i], &cb[i]) {
                        same = false;
                    }
                    i += 1;
                }
                proof {
                    lemma_views_of(ca@);
                    lemma_views_of(cb@);
                    let va = views_of(ca@);
                    let vb = views_of(cb@);
                    if same {
                        assert forall|j: int| 0 <= j < n implies va[j] == vb[j] by {
                            assert(views_of(ca@)[j] == view_of(ca@[j]));
                            assert(views_of(cb@)[j] == view_of(cb@[j]));
                            assert(ca@[j]@ == cb@[j]@);
                        }
                        assert(va =~= vb);
                        assert(a@ =~~= b@);
                    } else {
                        let j = choose|j: int| 0 <= j < n && ca@[j]@ != cb@[j]@;
                        assert(va[j] != vb[j]);
                    }
                }
                same
            }
        },
        _ => {
            proof {
                assert(a@ is Progression <==> a matches AstNode::Progression { .. });
                assert(b@ is Progression <==> b matches AstNode::Progression { .. });
            }
            false
        },
    }
}

} // verus!
