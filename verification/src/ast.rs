//! The input tree: nodes as the external parser hands them over.

use vstd::prelude::*;

verus! {

/// One node of the syntax tree delivered by the external parser: a kind
/// label, a (possibly empty) name, and the children in source order.
pub struct AstNode {
    pub node_type: String,
    pub name: String,
    pub children: Vec<AstNode>,
}

/// The mathematical value of an `AstNode` tree.
#[verifier::ext_equal]
pub ghost struct AstView {
    pub kind: Seq<char>,
    pub name: Seq<char>,
    pub children: Seq<AstView>,
}

impl View for AstNode {
    type V = AstView;

    open spec fn view(&self) -> AstView
        decreases self, 0int,
    {
        AstView {
            kind: self.node_type@,
            name: self.name@,
            children: ast_views(self.children@, self.children@.len() as int),
        }
    }
}

/// The views of the first `i` nodes of `s`, in order.
pub open spec fn ast_views(s: Seq<AstNode>, i: int) -> Seq<AstView>
    decreases s, i,
{
    if i <= 0 || i > s.len() {
        Seq::empty()
    } else {
        ast_views(s, i - 1).push(s[i - 1]@)
    }
}

/// `ast_views` taken to the full length indexes like a pointwise map.
pub proof fn lemma_ast_views(s: Seq<AstNode>, i: int)
    requires
        0 <= i <= s.len(),
    ensures
        ast_views(s, i).len() == i,
        forall|j: int| 0 <= j < i ==> ast_views(s, i)[j] == s[j]@,
    decreases i,
{
    if i > 0 {
        lemma_ast_views(s, i - 1);
        assert(ast_views(s, i) == ast_views(s, i - 1).push(s[i - 1]@));
    } else {
        assert(ast_views(s, i) == Seq::<AstView>::empty());
    }
}

} // verus!
