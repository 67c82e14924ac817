//! The intermediate representation: construction from the syntax tree and
//! in-place structural optimization.

use vstd::prelude::*;
use crate::ast::{AstNode, AstView, ast_views, lemma_ast_views};

verus! {

/// A kind label that marks a conditional or loop construct.
pub open spec fn branch_kind(k: Seq<char>) -> bool {
    k == "IfStmt"@ || k == "WhileStmt"@
}

/// A kind label that marks a pure grouping/block construct.
pub open spec fn group_kind(k: Seq<char>) -> bool {
    k == "CompoundStmt"@
}

/// A kind label that marks a top-level declaration.
pub open spec fn decl_kind(k: Seq<char>) -> bool {
    k == "FunctionDecl"@ || k == "StructDecl"@
}

/// One node of the intermediate representation. `dependencies` holds the
/// names of the node's direct children, each name at most once; it is a set,
/// kept as a duplicate-free vector.
pub struct IRNode {
    pub node_type: String,
    pub name: String,
    pub children: Vec<IRNode>,
    pub control_flow: Option<String>,
    pub dependencies: Vec<String>,
}

/// The mathematical value of an `IRNode` tree: the dependency list is
/// abstracted to a set, everything else kept in order.
#[verifier::ext_equal]
pub ghost struct IrView {
    pub kind: Seq<char>,
    pub name: Seq<char>,
    pub children: Seq<IrView>,
    pub control_flow: Option<Seq<char>>,
    pub deps: Set<Seq<char>>,
}

/// The set of (views of) the strings in `s`.
pub open spec fn names_of(s: Seq<String>) -> Set<Seq<char>> {
    Set::new(|x: Seq<char>| exists|i: int| 0 <= i < s.len() && s[i]@ == x)
}

/// No two strings of `s` are equal.
pub open spec fn no_dup_names(s: Seq<String>) -> bool {
    forall|i: int, j: int| 0 <= i < j < s.len() ==> s[i]@ != s[j]@
}

/// The views of the first `i` nodes of `s`, in order.
pub open spec fn ir_views(s: Seq<IRNode>, i: int) -> Seq<IrView>
    decreases s, i,
{
    if i <= 0 || i > s.len() {
        Seq::empty()
    } else {
        ir_views(s, i - 1).push(s[i - 1]@)
    }
}

/// `ir_views` taken to the full length indexes like a pointwise map.
pub proof fn lemma_ir_views(s: Seq<IRNode>, i: int)
    requires
        0 <= i <= s.len(),
    ensures
        ir_views(s, i).len() == i,
        forall|j: int| 0 <= j < i ==> ir_views(s, i)[j] == s[j]@,
    decreases i,
{
    if i > 0 {
        lemma_ir_views(s, i - 1);
        assert(ir_views(s, i) == ir_views(s, i - 1).push(s[i - 1]@));
    } else {
        assert(ir_views(s, i) == Seq::<IrView>::empty());
    }
}

impl View for IRNode {
    type V = IrView;

    open spec fn view(&self) -> IrView
        decreases self, 0int,
    {
        IrView {
            kind: self.node_type@,
            name: self.name@,
            children: ir_views(self.children@, self.children@.len() as int),
            control_flow: match self.control_flow {
                Some(t) => Some(t@),
                None => None,
            },
            deps: names_of(self.dependencies@),
        }
    }
}

impl IRNode {
    /// Well-formed: no dependency list repeats a name, at any depth.
    pub open spec fn wf(&self) -> bool
        decreases self, 0int,
    {
        &&& no_dup_names(self.dependencies@)
        &&& forall|i: int|
            0 <= i < self.children@.len() ==> (#[trigger] self.children@[i]).wf()
    }

    /// A fresh leaf node: no children, no control-flow tag, no dependencies.
    pub fn new(node_type: &str, name: &str) -> (r: Self)
        ensures
            r@ == (IrView {
                kind: node_type@,
                name: name@,
                children: Seq::empty(),
                control_flow: None,
                deps: Set::empty(),
            }),
            r.wf(),
            r.node_type@ == node_type@,
            r.name@ == name@,
            r.children@.len() == 0,
            r.dependencies@.len() == 0,
            r.control_flow is None,
    {
        let r = IRNode {
            node_type: node_type.to_owned(),
            name: name.to_owned(),
            children: Vec::new(),
            control_flow: None,
            dependencies: Vec::new(),
        };
        proof {
            assert(names_of(r.dependencies@) =~= Set::<Seq<char>>::empty());
            assert(r@ =~~= (IrView {
                kind: node_type@,
                name: name@,
                children: Seq::empty(),
                control_flow: None,
                deps: Set::empty(),
            }));
        }
        r
    }
}

/// A fresh copy of a string list, element for element.
pub fn clone_names(v: &Vec<String>) -> (r: Vec<String>)
    ensures
        r@ == v@,
{
    let mut r: Vec<String> = Vec::new();
    let mut i: usize = 0;
    while i < v.len()
        invariant
            0 <= i <= v@.len(),
            r@.len() == i,
            forall|j: int| 0 <= j < i ==> r@[j] == v@[j],
        decreases v@.len() - i,
    {
        r.push(v[i].clone());
        i += 1;
    }
    proof {
        assert(r@ =~= v@);
    }
    r
}

impl IRNode {
    /// A deep copy: an independent tree with the same value everywhere;
    /// mutating the copy never affects the source, nor the other way round.
    pub fn deep_copy(&self) -> (r: IRNode)
        ensures
            r@ == self@,
            self.wf() ==> r.wf(),
        decreases self,
    {
        let mut children: Vec<IRNode> = Vec::new();
        let mut i: usize = 0;
        while i < self.children.len()
            invariant
                0 <= i <= self.children@.len(),
                children@.len() == i,
                forall|j: int|
                    0 <= j < i ==> (#[trigger] children@[j])@ == self.children@[j]@,
                forall|j: int|
                    0 <= j < i ==> ((#[trigger] self.children@[j]).wf()
                        ==> children@[j].wf()),
            decreases self.children@.len() - i,
        {
            children.push(self.children[i].deep_copy());
            i += 1;
        }
        let r = IRNode {
            node_type: self.node_type.clone(),
            name: self.name.clone(),
            children,
            control_flow: match &self.control_flow {
                Some(t) => Some(t.clone()),
                None => None,
            },
            dependencies: clone_names(&self.dependencies),
        };
        proof {
            lemma_ir_views(r.children@, r.children@.len() as int);
            lemma_ir_views(self.children@, self.children@.len() as int);
            assert(ir_views(r.children@, r.children@.len() as int) =~= ir_views(
                self.children@,
                self.children@.len() as int,
            ));
            assert(r@ =~~= self@);
        }
        r
    }
}

/// The names of the first `i` nodes of `s`, as a set.
pub open spec fn child_names_upto(s: Seq<AstView>, i: int) -> Set<Seq<char>> {
    Set::new(|x: Seq<char>| exists|j: int| 0 <= j < i && j < s.len() && s[j].name == x)
}

/// The set of names of the nodes of `s`.
pub open spec fn child_names(s: Seq<AstView>) -> Set<Seq<char>> {
    child_names_upto(s, s.len() as int)
}

/// The IR node that construction yields for the tree `a`: same kind, name
/// and shape, a "Branch" tag exactly on conditional and loop kinds, and the
/// set of the direct children's names as dependencies.
pub open spec fn build_ir(a: AstView) -> IrView
    decreases a, 0int,
{
    IrView {
        kind: a.kind,
        name: a.name,
        children: build_irs(a.children, a.children.len() as int),
        control_flow: if branch_kind(a.kind) {
            Some("Branch"@)
        } else {
            None
        },
        deps: child_names(a.children),
    }
}

/// The IR nodes built from the first `i` trees of `s`, in order.
pub open spec fn build_irs(s: Seq<AstView>, i: int) -> Seq<IrView>
    decreases s, i,
{
    if i <= 0 || i > s.len() {
        Seq::empty()
    } else {
        build_irs(s, i - 1).push(build_ir(s[i - 1]))
    }
}

/// `build_irs` taken to the full length indexes like a pointwise map.
pub proof fn lemma_build_irs(s: Seq<AstView>, i: int)
    requires
        0 <= i <= s.len(),
    ensures
        build_irs(s, i).len() == i,
        forall|j: int| 0 <= j < i ==> build_irs(s, i)[j] == build_ir(s[j]),
    decreases i,
{
    if i > 0 {
        lemma_build_irs(s, i - 1);
        assert(build_irs(s, i) == build_irs(s, i - 1).push(build_ir(s[i - 1])));
    } else {
        assert(build_irs(s, i) == Seq::<IrView>::empty());
    }
}

/// Pushing a string onto a list adds exactly its view to the name set.
pub proof fn lemma_names_of_push(s: Seq<String>, x: String)
    ensures
        names_of(s.push(x)) == names_of(s).insert(x@),
{
    assert forall|y: Seq<char>| names_of(s.push(x)).contains(y) implies names_of(s).insert(
        x@,
    ).contains(y) by {
        let i = choose|i: int| 0 <= i < s.push(x).len() && s.push(x)[i]@ == y;
        if i < s.len() {
            assert(s[i]@ == y);
        }
    }
    assert forall|y: Seq<char>| names_of(s).insert(x@).contains(y) implies names_of(
        s.push(x),
    ).contains(y) by {
        if y == x@ {
            assert(s.push(x)[s.len() as int]@ == y);
        } else {
            let i = choose|i: int| 0 <= i < s.len() && s[i]@ == y;
            assert(s.push(x)[i]@ == y);
        }
    }
    assert(names_of(s.push(x)) =~= names_of(s).insert(x@));
}

/// Whether the name set of `v` holds `x`, by linear scan.
pub fn contains_name(v: &Vec<String>, x: &String) -> (r: bool)
    ensures
        r == names_of(v@).contains(x@),
{
    let mut i: usize = 0;
    while i < v.len()
        invariant
            0 <= i <= v@.len(),
            forall|j: int| 0 <= j < i ==> v@[j]@ != x@,
        decreases v@.len() - i,
    {
        if v[i] == *x {
            proof {
                assert(v@[i as int]@ == x@);
            }
            return true;
        }
        i += 1;
    }
    proof {
        if names_of(v@).contains(x@) {
            let j = choose|j: int| 0 <= j < v@.len() && v@[j]@ == x@;
            assert(false);
        }
    }
    false
}

/// Converts a syntax tree into its IR, one node for one node: each node
/// keeps its kind and name, gets an IR child per child in order, records
/// each child's name in its dependency set, and carries a "Branch" tag
/// exactly when its kind is a conditional or loop construct.
pub fn ast_to_ir(ast_node: &AstNode) -> (r: IRNode)
    ensures
        r@ == build_ir(ast_node@),
        r.wf(),
    decreases ast_node,
{
    let mut ir_node = IRNode::new(ast_node.node_type.as_str(), ast_node.name.as_str());
    let mut i: usize = 0;
    while i < ast_node.children.len()
        invariant
            0 <= i <= ast_node.children@.len(),
            ir_node.node_type@ == ast_node.node_type@,
            ir_node.name@ == ast_node.name@,
            ir_node.control_flow is None,
            ir_node.children@.len() == i,
            forall|j: int|
                0 <= j < i ==> (#[trigger] ir_node.children@[j])@ == build_ir(
                    ast_node.children@[j]@,
                ),
            forall|j: int| 0 <= j < i ==> (#[trigger] ir_node.children@[j]).wf(),
            names_of(ir_node.dependencies@) == child_names_upto(
                ast_views(ast_node.children@, ast_node.children@.len() as int),
                i as int,
            ),
            no_dup_names(ir_node.dependencies@),
        decreases ast_node.children@.len() - i,
    {
        proof {
            lemma_ast_views(ast_node.children@, ast_node.children@.len() as int);
        }
        let ghost views = ast_views(ast_node.children@, ast_node.children@.len() as int);
        let child_ir = ast_to_ir(&ast_node.children[i]);
        if !contains_name(&ir_node.dependencies, &child_ir.name) {
            let ghost before = ir_node.dependencies@;
            ir_node.dependencies.push(child_ir.name.clone());
            proof {
                lemma_names_of_push(before, ir_node.dependencies@.last());
                assert(child_ir.name@ == views[i as int].name);
                assert(names_of(ir_node.dependencies@) =~= child_names_upto(
                    views,
                    i as int + 1,
                ));
            }
        } else {
            proof {
                assert(child_ir.name@ == views[i as int].name);
                assert(names_of(ir_node.dependencies@) =~= child_names_upto(
                    views,
                    i as int + 1,
                ));
            }
        }
        ir_node.children.push(child_ir);
        i += 1;
    }
    let is_branch = ir_node.node_type == String::from_str("IfStmt") || ir_node.node_type
        == String::from_str("WhileStmt");
    if is_branch {
        ir_node.control_flow = Some(String::from_str("Branch"));
    }
    proof {
        let a = ast_node@;
        lemma_ast_views(ast_node.children@, ast_node.children@.len() as int);
        lemma_ir_views(ir_node.children@, ir_node.children@.len() as int);
        lemma_build_irs(a.children, a.children.len() as int);
        assert(ir_views(ir_node.children@, ir_node.children@.len() as int) =~= build_irs(
            a.children,
            a.children.len() as int,
        ));
        assert(ir_node@ =~~= build_ir(a));
    }
    ir_node
}

/// The tree after optimization: at every level the direct children whose
/// kind is the grouping kind are dropped, children beneath them and all;
/// the surviving children keep their relative order and are themselves
/// optimized. Kind, name, tag and dependency set of a node never change.
pub open spec fn prune(n: IrView) -> IrView
    decreases n, 0int,
{
    IrView { children: prune_seq(n.children, n.children.len() as int), ..n }
}

/// The optimized forms of those of the first `i` nodes of `s` whose kind is
/// not the grouping kind, in order.
pub open spec fn prune_seq(s: Seq<IrView>, i: int) -> Seq<IrView>
    decreases s, i,
{
    if i <= 0 || i > s.len() {
        Seq::empty()
    } else if group_kind(s[i - 1].kind) {
        prune_seq(s, i - 1)
    } else {
        prune_seq(s, i - 1).push(prune(s[i - 1]))
    }
}

/// Removes, bottom-up and in place, every direct child whose kind is the
/// grouping kind, at every depth; a removed child's subtree is discarded,
/// not spliced into its former parent.
pub fn optimize_ir(ir_node: &mut IRNode)
    ensures
        final(ir_node)@ == prune(old(ir_node)@),
        old(ir_node).wf() ==> final(ir_node).wf(),
    decreases *old(ir_node),
{
    let mut taken: Vec<IRNode> = Vec::new();
    core::mem::swap(&mut taken, &mut ir_node.children);
    let ghost orig = taken@;
    let total: usize = taken.len();
    let ghost cviews = ir_views(orig, orig.len() as int);
    proof {
        lemma_ir_views(orig, orig.len() as int);
    }
    let mut kept: Vec<IRNode> = Vec::new();
    let mut i: usize = 0;
    while taken.len() > 0
        invariant
            orig == old(ir_node).children@,
            ir_node.node_type == old(ir_node).node_type,
            ir_node.name == old(ir_node).name,
            ir_node.control_flow == old(ir_node).control_flow,
            ir_node.dependencies == old(ir_node).dependencies,
            i + taken@.len() == orig.len(),
            total == orig.len(),
            taken@ == orig.subrange(i as int, orig.len() as int),
            cviews == ir_views(orig, orig.len() as int),
            cviews.len() == orig.len(),
            forall|j: int| 0 <= j < orig.len() ==> cviews[j] == orig[j]@,
            ir_views(kept@, kept@.len() as int) == prune_seq(cviews, i as int),
            old(ir_node).wf() ==> forall|j: int|
                0 <= j < kept@.len() ==> (#[trigger] kept@[j]).wf(),
            old(ir_node).wf() ==> forall|j: int|
                0 <= j < orig.len() ==> (#[trigger] orig[j]).wf(),
        decreases taken@.len(),
    {
        let ghost kept_before = kept@;
        let mut child = taken.remove(0);
        proof {
            assert(child == orig[i as int]);
            broadcast use vstd::std_specs::vec::group_vec_axioms;

            assert(i < old(ir_node).children@.len());
            assert(decreases_to!(*old(ir_node) => old(ir_node).children));
            assert(decreases_to!(old(ir_node).children => old(ir_node).children[i as int]));
        }
        optimize_ir(&mut child);
        let is_group = child.node_type == String::from_str("CompoundStmt");
        proof {
            assert(child@ == prune(cviews[i as int]));
            assert(child@.kind == cviews[i as int].kind);
            assert(is_group == group_kind(cviews[i as int].kind));
        }
        if !is_group {
            kept.push(child);
            proof {
                lemma_ir_views(kept@, kept@.len() as int);
                lemma_ir_views(kept_before, kept_before.len() as int);
                assert(ir_views(kept@, kept@.len() as int) =~= prune_seq(
                    cviews,
                    i as int + 1,
                ));
            }
        }
        i += 1;
    }
    ir_node.children = kept;
    proof {
        assert(old(ir_node)@.children == cviews);
        assert(final(ir_node)@ =~~= prune(old(ir_node)@));
    }
}

/// Shape isomorphism between a syntax tree and an IR tree: same kind and
/// name at the root, and children isomorphic one to one, in order.
pub open spec fn iso(a: AstView, n: IrView) -> bool
    decreases a, 0int,
{
    &&& n.kind == a.kind
    &&& n.name == a.name
    &&& n.children.len() == a.children.len()
    &&& forall|i: int|
        0 <= i < a.children.len() ==> iso(#[trigger] a.children[i], n.children[i])
}

/// Law: construction yields a tree isomorphic to its input — same shape,
/// same kind and name strings at every position.
pub proof fn lemma_build_ir_iso(a: AstView)
    ensures
        iso(a, build_ir(a)),
    decreases a,
{
    lemma_build_irs(a.children, a.children.len() as int);
    assert forall|i: int| 0 <= i < a.children.len() implies iso(
        #[trigger] a.children[i],
        build_ir(a).children[i],
    ) by {
        lemma_build_ir_iso(a.children[i]);
    }
}

/// Every node of the tree carries the "Branch" tag exactly when its kind is
/// the conditional kind or the loop kind, and no tag otherwise.
pub open spec fn cf_tagged(n: IrView) -> bool
    decreases n, 0int,
{
    &&& n.control_flow == (if branch_kind(n.kind) {
        Some("Branch"@)
    } else {
        None::<Seq<char>>
    })
    &&& forall|i: int|
        0 <= i < n.children.len() ==> cf_tagged(#[trigger] n.children[i])
}

/// Law: construction tags the control flow of every node of its result,
/// "Branch" on conditional and loop kinds and nothing elsewhere.
pub proof fn lemma_build_ir_cf_tagged(a: AstView)
    ensures
        cf_tagged(build_ir(a)),
    decreases a,
{
    lemma_build_irs(a.children, a.children.len() as int);
    assert forall|i: int| 0 <= i < build_ir(a).children.len() implies cf_tagged(
        #[trigger] build_ir(a).children[i],
    ) by {
        lemma_build_ir_cf_tagged(a.children[i]);
    }
}

/// `prune_seq` reads only the first `i` elements of its sequence.
proof fn lemma_prune_seq_prefix(s: Seq<IrView>, t: Seq<IrView>, i: int)
    requires
        i <= s.len(),
        i <= t.len(),
        forall|j: int| 0 <= j < i ==> s[j] == t[j],
    ensures
        prune_seq(s, i) == prune_seq(t, i),
    decreases i,
{
    if i > 0 {
        lemma_prune_seq_prefix(s, t, i - 1);
    }
}

/// Law: optimization is idempotent — optimizing an already optimized tree
/// changes nothing.
pub proof fn lemma_optimize_idempotent(n: IrView)
    ensures
        prune(prune(n)) == prune(n),
    decreases n, 0int,
{
    lemma_prune_seq_idempotent(n.children, n.children.len() as int);
    assert(prune_seq(n.children, n.children.len() as int).len() <= n.children.len()) by {
        lemma_prune_seq_len(n.children, n.children.len() as int);
    }
    assert(prune(prune(n)) =~~= prune(n));
}

/// The optimized form of a prefix is never longer than the prefix.
proof fn lemma_prune_seq_len(s: Seq<IrView>, i: int)
    ensures
        prune_seq(s, i).len() <= if i <= s.len() {
            if i >= 0 {
                i
            } else {
                0
            }
        } else {
            0
        },
    decreases i,
{
    if 0 < i <= s.len() {
        lemma_prune_seq_len(s, i - 1);
    }
}

/// Optimizing an already optimized child sequence changes nothing.
proof fn lemma_prune_seq_idempotent(s: Seq<IrView>, i: int)
    ensures
        prune_seq(prune_seq(s, i), prune_seq(s, i).len() as int) == prune_seq(s, i),
    decreases s, i,
{
    if 0 < i <= s.len() {
        lemma_prune_seq_idempotent(s, i - 1);
        let q = prune_seq(s, i - 1);
        if !group_kind(s[i - 1].kind) {
            let p = q.push(prune(s[i - 1]));
            lemma_prune_seq_len(s, i - 1);
            lemma_prune_seq_prefix(p, q, q.len() as int);
            lemma_optimize_idempotent(s[i - 1]);
            assert(p[p.len() - 1] == prune(s[i - 1]));
            assert(prune_seq(p, p.len() as int) =~= p);
        }
    }
}

/// No node strictly below `n` has the grouping kind.
pub open spec fn group_free_below(n: IrView) -> bool
    decreases n, 0int,
{
    forall|i: int|
        0 <= i < n.children.len() ==> !group_kind((#[trigger] n.children[i]).kind)
            && group_free_below(n.children[i])
}

/// Law: after optimization no node below the root has the grouping kind,
/// at any depth; the root keeps its own kind, so the whole tree is free of
/// the grouping kind whenever the root's kind is not the grouping kind.
pub proof fn lemma_optimize_group_free(n: IrView)
    ensures
        group_free_below(prune(n)),
        prune(n).kind == n.kind,
    decreases n, 0int,
{
    lemma_prune_seq_group_free(n.children, n.children.len() as int);
}

/// Every element of an optimized child sequence is of a non-grouping kind
/// and free of grouping kinds below itself.
proof fn lemma_prune_seq_group_free(s: Seq<IrView>, i: int)
    ensures
        forall|j: int|
            0 <= j < prune_seq(s, i).len() ==> !group_kind(
                (#[trigger] prune_seq(s, i)[j]).kind,
            ) && group_free_below(prune_seq(s, i)[j]),
    decreases s, i,
{
    if 0 < i <= s.len() {
        lemma_prune_seq_group_free(s, i - 1);
        if !group_kind(s[i - 1].kind) {
            lemma_optimize_group_free(s[i - 1]);
        }
    }
}

} // verus!
