//! Lowering of the external grammar's concrete syntax tree to the abstract
//! tree.

use vstd::prelude::*;
use vstd::string::StringExecFns;
use crate::ast::{AstNode, AstView, lemma_views_of, view_of, views_of};

verus! {

/// A concrete syntax tree node, as handed over by the external grammar: a
/// node kind, the exact source text the node spans, and its direct children
/// in document order.
#[derive(Debug)]
pub struct CstNode {
    pub kind: String,
    pub text: String,
    pub children: Vec<CstNode>,
}

/// The abstract tree a concrete node lowers to: a progression keeps, in
/// order, the lowerings of exactly its children of kind `note`; a note keeps
/// its source text; any other kind has no lowering and stands for the empty
/// placeholder the caller is expected to reject or ignore.
pub open spec fn spec_lower(c: CstNode) -> Option<AstView> {
    if c.kind@ == "progression"@ {
        Some(AstView::Progression { children: spec_lower_children(c.children@) })
    } else if c.kind@ == "note"@ {
        Some(AstView::Note { text: c.text@ })
    } else {
        None
    }
}

/// The lowerings of the children of kind `note`, in document order; children
/// of any other kind are silently skipped.
pub open spec fn spec_lower_children(cs: Seq<CstNode>) -> Seq<AstView>
    decreases cs.len(),
{
    if cs.len() <= 0 {
        Seq::empty()
    } else {
        let last = cs[cs.len() - 1];
        spec_lower_children(cs.subrange(0, cs.len() - 1)) + (if last.kind@ == "note"@ {
            seq![AstView::Note { text: last.text@ }]
        } else {
            Seq::empty()
        })
    }
}

/// Lower a concrete node to the abstract tree; `None` stands for the empty
/// placeholder produced on an unexpected root kind.
pub fn lower(cst: &CstNode) -> (r: Option<AstNode>)
    ensures
        r matches Some(a) ==> spec_lower(*cst) == Some(a@),
        r is None <==> spec_lower(*cst) is None,
    decreases cst,
{
    let prog_kind = String::from_str("progression");
    let note_kind = String::from_str("note");
    if cst.kind.eq(&prog_kind) {
        let n = cst.children.len();
        let mut out: Vec<AstNode> = Vec::new();
        proof {
            assert(views_of(out@) =~= spec_lower_children(cst.children@.subrange(0, 0)));
        }
        let mut i: usize = 0;
        while i < n
            invariant
                n == cst.children@.len(),
                i <= n,
                note_kind@ == "note"@,
                views_of(out@) == spec_lower_children(cst.children@.subrange(0, i as int)),
            decreases n - i,
        {
            let child = &cst.children[i];
            if child.kind.eq(&note_kind) {
                proof {
                    assert(decreases_to!(*cst => cst.children));
                    assert(decreases_to!(cst.children => cst.children@));
                    assert(decreases_to!(cst.children@ => cst.children@[i as int]));
                    reveal_strlit("progression");
                    reveal_strlit("note");
                    assert("progression"@.len() != "note"@.len());
                }
                match lower(child) {
                    Some(a) => {
                        proof {
                            let acc = views_of(out@);
                            let pushed = out@.push(a);
                            lemma_views_of(out@);
                            lemma_views_of(pushed);
                            assert(a@ == (AstView::Note { text: child.text@ }));
                            assert forall|j: int| 0 <= j < pushed.len() implies views_of(
                                pushed,
                            )[j] == acc.push(a@)[j] by {
                                assert(views_of(pushed)[j] == view_of(pushed[j]));
                                if j < out@.len() {
                                    assert(pushed[j] == out@[j]);
                                    assert(acc[j] == view_of(out@[j]));
                                } else {
                                    assert(pushed[j] == a);
                                }
                            }
                            assert(views_of(pushed) =~= acc.push(a@));
                        }
                        out.push(a);
                    },
                    None => {
                        proof {
                            assert(false);
                        }
                    },
                }
            }
            proof {
                let pre = cst.children@.subrange(0, i as int);
                let now = cst.children@.subrange(0, i + 1);
                assert(now.subrange(0, now.len() - 1) =~= pre);
                assert(now[now.len() - 1] == cst.children@[i as int]);
                if child.kind@ == "note"@ {
                    assert(views_of(out@) =~= spec_lower_children(pre).push(
                        AstView::Note { text: child.text@ },
                    ));
                    assert(spec_lower_children(now) =~= spec_lower_children(pre).push(
                        AstView::Note { text: child.text@ },
                    ));
                } else {
                    assert(spec_lower_children(now) =~= spec_lower_children(pre));
                }
            }
            i += 1;
        }
        proof {
            assert(cst.children@.subrange(0, n as int) =~= cst.children@);
        }
        Some(AstNode::Progression { children: out })
    } else if cst.kind.eq(&note_kind) {
        Some(AstNode::Note { text: cst.text.clone() })
    } else {
        None
    }
}

} // verus!
