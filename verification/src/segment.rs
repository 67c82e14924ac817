//! Decomposition of an optimized IR tree into independent declaration
//! segments.

use vstd::prelude::*;
use crate::ir::{IRNode, IrView, decl_kind, ir_views, lemma_ir_views};

verus! {

/// The segments of the tree `n`, in depth-first, pre-order, left-to-right
/// discovery order: the tree itself first, whenever its kind is a
/// declaration kind, then the segments of each child in turn. Traversal
/// never stops at a match, so nested declarations yield their own segments.
pub open spec fn segments_of(n: IrView) -> Seq<IrView>
    decreases n, 0int,
{
    (if decl_kind(n.kind) {
        seq![n]
    } else {
        Seq::empty()
    }) + segments_of_seq(n.children, n.children.len() as int)
}

/// The segments of the first `i` trees of `s`, concatenated in order.
pub open spec fn segments_of_seq(s: Seq<IrView>, i: int) -> Seq<IrView>
    decreases s, i,
{
    if i <= 0 || i > s.len() {
        Seq::empty()
    } else {
        segments_of_seq(s, i - 1) + segments_of(s[i - 1])
    }
}

/// The views of a concatenation are the concatenated views.
proof fn lemma_ir_views_concat(s: Seq<IRNode>, t: Seq<IRNode>)
    ensures
        ir_views(s + t, (s + t).len() as int) == ir_views(s, s.len() as int) + ir_views(
            t,
            t.len() as int,
        ),
{
    lemma_ir_views(s + t, (s + t).len() as int);
    lemma_ir_views(s, s.len() as int);
    lemma_ir_views(t, t.len() as int);
    assert(ir_views(s + t, (s + t).len() as int) =~= ir_views(s, s.len() as int)
        + ir_views(t, t.len() as int));
}

/// Collects a deep copy of every declaration-rooted subtree, in pre-order.
fn collect_segments(n: &IRNode) -> (r: Vec<IRNode>)
    ensures
        ir_views(r@, r@.len() as int) == segments_of(n@),
        n.wf() ==> forall|j: int| 0 <= j < r@.len() ==> (#[trigger] r@[j]).wf(),
    decreases n,
{
    let mut segments: Vec<IRNode> = Vec::new();
    let is_decl = n.node_type == String::from_str("FunctionDecl") || n.node_type
        == String::from_str("StructDecl");
    proof {
        assert(is_decl == decl_kind(n@.kind));
    }
    if is_decl {
        segments.push(n.deep_copy());
    }
    let ghost head = if decl_kind(n@.kind) {
        seq![n@]
    } else {
        Seq::<IrView>::empty()
    };
    proof {
        lemma_ir_views(segments@, segments@.len() as int);
        assert(ir_views(segments@, segments@.len() as int) =~= head);
        lemma_ir_views(n.children@, n.children@.len() as int);
    }
    let ghost cviews = ir_views(n.children@, n.children@.len() as int);
    let mut i: usize = 0;
    while i < n.children.len()
        invariant
            0 <= i <= n.children@.len(),
            cviews == ir_views(n.children@, n.children@.len() as int),
            cviews.len() == n.children@.len(),
            forall|j: int| 0 <= j < cviews.len() ==> cviews[j] == n.children@[j]@,
            head == (if decl_kind(n@.kind) {
                seq![n@]
            } else {
                Seq::<IrView>::empty()
            }),
            ir_views(segments@, segments@.len() as int) == head + segments_of_seq(
                cviews,
                i as int,
            ),
            n.wf() ==> forall|j: int|
                0 <= j < segments@.len() ==> (#[trigger] segments@[j]).wf(),
        decreases n.children@.len() - i,
    {
        let ghost before = segments@;
        let mut sub = collect_segments(&n.children[i]);
        let ghost subv = sub@;
        segments.append(&mut sub);
        proof {
            lemma_ir_views_concat(before, subv);
            lemma_ir_views(subv, subv.len() as int);
            assert(n.children@[i as int]@ == cviews[i as int]);
            assert(ir_views(segments@, segments@.len() as int) =~= head
                + segments_of_seq(cviews, i as int + 1));
            if n.wf() {
                assert(n.children@[i as int].wf());
                assert forall|j: int| 0 <= j < segments@.len() implies (
                #[trigger] segments@[j]).wf() by {
                    if j < before.len() {
                        assert(segments@[j] == before[j]);
                    } else {
                        assert(segments@[j] == subv[j - before.len()]);
                    }
                }
            }
        }
        i += 1;
    }
    proof {
        assert(segments_of(n@) == head + segments_of_seq(
            n@.children,
            n@.children.len() as int,
        ));
        assert(n@.children == cviews);
    }
    segments
}

/// Extracts, as independent deep copies, every subtree of the optimized
/// tree whose root kind is a declaration kind, in depth-first pre-order.
/// A tree without declaration nodes yields the empty sequence; that is not
/// an error. `depth` records the recursion depth at which the caller stands;
/// the result does not depend on it.
pub fn split_ir(ir_node: &IRNode, depth: usize) -> (r: Vec<IRNode>)
    ensures
        ir_views(r@, r@.len() as int) == segments_of(ir_node@),
        ir_node.wf() ==> forall|j: int| 0 <= j < r@.len() ==> (#[trigger] r@[j]).wf(),
{
    collect_segments(ir_node)
}

/// Whether some node of the tree `n`, the root counted too, has a
/// declaration kind.
pub open spec fn has_decl(n: IrView) -> bool
    decreases n, 0int,
{
    decl_kind(n.kind) || exists|i: int|
        0 <= i < n.children.len() && has_decl(#[trigger] n.children[i])
}

/// Law: a tree without declaration-kind nodes yields no segments.
pub proof fn lemma_segment_none(n: IrView)
    requires
        !has_decl(n),
    ensures
        segments_of(n) == Seq::<IrView>::empty(),
    decreases n, 0int,
{
    lemma_segment_none_seq(n.children, n.children.len() as int);
    assert(segments_of(n) =~= Seq::<IrView>::empty());
}

/// The segments of a prefix of declaration-free trees are empty.
proof fn lemma_segment_none_seq(s: Seq<IrView>, i: int)
    requires
        forall|j: int| 0 <= j < s.len() ==> !has_decl(#[trigger] s[j]),
    ensures
        segments_of_seq(s, i) == Seq::<IrView>::empty(),
    decreases s, i,
{
    if 0 < i <= s.len() {
        lemma_segment_none_seq(s, i - 1);
        lemma_segment_none(s[i - 1]);
        assert(segments_of_seq(s, i) =~= Seq::<IrView>::empty());
    } else {
        assert(segments_of_seq(s, i) =~= Seq::<IrView>::empty());
    }
}

/// Law: a tree whose root kind is a declaration kind and whose children
/// hold no further declaration yields exactly one segment, the tree itself.
pub proof fn lemma_segment_single(n: IrView)
    requires
        decl_kind(n.kind),
        forall|i: int| 0 <= i < n.children.len() ==> !has_decl(#[trigger] n.children[i]),
    ensures
        segments_of(n) == seq![n],
{
    lemma_segment_none_seq(n.children, n.children.len() as int);
    assert(segments_of(n) =~= seq![n]);
}

} // verus!
