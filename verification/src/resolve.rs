//! Two-phase dependency resolution across segments: a name table built from
//! every segment's own direct dependencies, then a single-hop expansion of
//! each segment's dependency set through that table.

use vstd::prelude::*;
use crate::ir::{
    IRNode, IrView, clone_names, contains_name, ir_views, lemma_ir_views, lemma_names_of_push,
    names_of, no_dup_names,
};

verus! {

/// The dependency table of the first `i` segments: each segment's root name
/// mapped to its root's dependency set, a later segment overwriting an
/// earlier one of the same name.
pub open spec fn dep_table(ss: Seq<IrView>, i: int) -> Map<Seq<char>, Set<Seq<char>>>
    decreases i,
{
    if i <= 0 || i > ss.len() {
        Map::empty()
    } else {
        dep_table(ss, i - 1).insert(ss[i - 1].name, ss[i - 1].deps)
    }
}

/// One hop of expansion: the original names, together with everything the
/// table lists under any of the original names. Names absent from the table
/// contribute nothing.
pub open spec fn resolved_deps(
    d: Set<Seq<char>>,
    t: Map<Seq<char>, Set<Seq<char>>>,
) -> Set<Seq<char>> {
    d + Set::new(
        |x: Seq<char>|
            exists|k: Seq<char>|
                #![auto]
                d.contains(k) && t.dom().contains(k) && t[k].contains(x),
    )
}

/// A segment after resolution: the dependency set expanded by one hop,
/// everything else unchanged.
pub open spec fn resolve_view(v: IrView, t: Map<Seq<char>, Set<Seq<char>>>) -> IrView {
    IrView { deps: resolved_deps(v.deps, t), ..v }
}

/// Law: resolution never removes a dependency name — every segment's
/// dependency set after resolution is a superset of the set before it,
/// whatever the table holds.
pub proof fn lemma_resolve_superset(d: Set<Seq<char>>, t: Map<Seq<char>, Set<Seq<char>>>)
    ensures
        d.subset_of(resolved_deps(d, t)),
{
    assert forall|x: Seq<char>| d.contains(x) implies resolved_deps(d, t).contains(x) by {}
}

/// The table maps the name of segment `k` to segment `k`'s dependency set
/// whenever no later segment bears the same name.
proof fn lemma_dep_table_last(ss: Seq<IrView>, i: int, k: int)
    requires
        0 <= k < i <= ss.len(),
        forall|j: int| k < j < i ==> (#[trigger] ss[j]).name != ss[k].name,
    ensures
        dep_table(ss, i).dom().contains(ss[k].name),
        dep_table(ss, i)[ss[k].name] == ss[k].deps,
    decreases i,
{
    if k < i - 1 {
        lemma_dep_table_last(ss, i - 1, k);
    }
}

/// A name that no segment bears is not in the table.
proof fn lemma_dep_table_absent(ss: Seq<IrView>, i: int, name: Seq<char>)
    requires
        i <= ss.len(),
        forall|j: int| 0 <= j < i ==> (#[trigger] ss[j]).name != name,
    ensures
        !dep_table(ss, i).dom().contains(name),
    decreases i,
{
    if i > 0 {
        lemma_dep_table_absent(ss, i - 1, name);
    }
}

/// What the first `j` dependency names of `d` pull in through the table.
pub open spec fn hop_upto(
    d: Seq<String>,
    t: Map<Seq<char>, Set<Seq<char>>>,
    j: int,
) -> Set<Seq<char>> {
    Set::new(
        |x: Seq<char>|
            exists|jj: int|
                #![auto]
                0 <= jj < j && jj < d.len() && t.dom().contains(d[jj]@) && t[d[jj]@].contains(
                    x,
                ),
    )
}

/// Expanding through every dependency name in turn reaches exactly the
/// one-hop expansion of the name set.
proof fn lemma_hop_full(d: Seq<String>, t: Map<Seq<char>, Set<Seq<char>>>)
    ensures
        names_of(d) + hop_upto(d, t, d.len() as int) == resolved_deps(names_of(d), t),
{
    assert forall|x: Seq<char>| hop_upto(d, t, d.len() as int).contains(x) implies resolved_deps(
        names_of(d),
        t,
    ).contains(x) by {
        let jj = choose|jj: int|
            #![auto]
            0 <= jj < d.len() && t.dom().contains(d[jj]@) && t[d[jj]@].contains(x);
        assert(names_of(d).contains(d[jj]@));
    }
    assert forall|x: Seq<char>| resolved_deps(names_of(d), t).contains(x) && !names_of(d).contains(
        x,
    ) implies hop_upto(d, t, d.len() as int).contains(x) by {
        let k = choose|k: Seq<char>|
            #![auto]
            names_of(d).contains(k) && t.dom().contains(k) && t[k].contains(x);
        let jj = choose|jj: int| 0 <= jj < d.len() && d[jj]@ == k;
        assert(t.dom().contains(d[jj]@) && t[d[jj]@].contains(x));
    }
    assert(names_of(d) + hop_upto(d, t, d.len() as int) =~= resolved_deps(names_of(d), t));
}

/// The index of the last string of `names` equal to `x`, if any.
fn lookup_last(names: &Vec<String>, x: &String) -> (r: Option<usize>)
    ensures
        match r {
            Some(k) => k < names@.len() && names@[k as int]@ == x@ && (forall|j: int|
                k < j < names@.len() ==> names@[j]@ != x@),
            None => forall|j: int| 0 <= j < names@.len() ==> names@[j]@ != x@,
        },
{
    let mut i: usize = names.len();
    while i > 0
        invariant
            i <= names@.len(),
            forall|j: int| i <= j < names@.len() ==> names@[j]@ != x@,
        decreases i,
    {
        i = i - 1;
        if names[i] == *x {
            return Some(i);
        }
    }
    None
}

/// Expands every segment's dependency set by one hop, in place: a table
/// from segment root name to that root's own direct dependencies is built
/// once, from the segments as given; then, independently for each segment,
/// every name of its dependency set that is a segment root name pulls that
/// root's direct dependencies into the set. Nothing is ever removed, and a
/// name that is no segment root name is silently left unresolved.
pub fn track_dependencies(segments: &mut Vec<IRNode>)
    ensures
        final(segments)@.len() == old(segments)@.len(),
        forall|i: int|
            0 <= i < old(segments)@.len() ==> (#[trigger] final(segments)@[i])@ == resolve_view(
                old(segments)@[i]@,
                dep_table(
                    ir_views(old(segments)@, old(segments)@.len() as int),
                    old(segments)@.len() as int,
                ),
            ),
        forall|i: int|
            0 <= i < old(segments)@.len() && (#[trigger] old(segments)@[i]).wf()
                ==> final(segments)@[i].wf(),
{
    let ghost orig = old(segments)@;
    let ghost sviews = ir_views(orig, orig.len() as int);
    let ghost t = dep_table(sviews, sviews.len() as int);
    proof {
        lemma_ir_views(orig, orig.len() as int);
    }
    let n: usize = segments.len();

    // Phase 1: snapshot every segment's root name and direct dependencies.
    let mut names: Vec<String> = Vec::new();
    let mut tbl: Vec<Vec<String>> = Vec::new();
    let mut i: usize = 0;
    while i < n
        invariant
            segments@ == orig,
            n == orig.len(),
            sviews == ir_views(orig, orig.len() as int),
            sviews.len() == orig.len(),
            forall|j: int| 0 <= j < orig.len() ==> sviews[j] == orig[j]@,
            0 <= i <= n,
            names@.len() == i,
            tbl@.len() == i,
            forall|j: int| 0 <= j < i ==> (#[trigger] names@[j])@ == sviews[j].name,
            forall|j: int| 0 <= j < i ==> names_of((#[trigger] tbl@[j])@) == sviews[j].deps,
        decreases n - i,
    {
        names.push(segments[i].name.clone());
        tbl.push(clone_names(&segments[i].dependencies));
        i += 1;
    }

    // Phase 2: expand each segment against the snapshot table.
    let mut i: usize = 0;
    while i < n
        invariant
            n == orig.len(),
            segments@.len() == orig.len(),
            sviews == ir_views(orig, orig.len() as int),
            sviews.len() == orig.len(),
            forall|j: int| 0 <= j < orig.len() ==> sviews[j] == orig[j]@,
            t == dep_table(sviews, sviews.len() as int),
            names@.len() == n,
            tbl@.len() == n,
            forall|j: int| 0 <= j < n ==> (#[trigger] names@[j])@ == sviews[j].name,
            forall|j: int| 0 <= j < n ==> names_of((#[trigger] tbl@[j])@) == sviews[j].deps,
            0 <= i <= n,
            forall|j: int| i <= j < n ==> segments@[j] == orig[j],
            forall|j: int|
                0 <= j < i ==> (#[trigger] segments@[j])@ == resolve_view(sviews[j], t),
            forall|j: int|
                0 <= j < i && (#[trigger] orig[j]).wf() ==> segments@[j].wf(),
        decreases n - i,
    {
        let ghost seq_before = segments@;
        let mut seg = segments.remove(i);
        proof {
            assert(seg == orig[i as int]);
        }
        let dn: usize = seg.dependencies.len();
        let ghost dorig = seg.dependencies@;
        let mut j: usize = 0;
        while j < dn
            invariant
                0 <= j <= dn,
                dn == dorig.len(),
                t == dep_table(sviews, sviews.len() as int),
                names@.len() == n,
                tbl@.len() == n,
                sviews.len() == n,
                forall|jx: int| 0 <= jx < n ==> (#[trigger] names@[jx])@ == sviews[jx].name,
                forall|jx: int|
                    0 <= jx < n ==> names_of((#[trigger] tbl@[jx])@) == sviews[jx].deps,
                seg.node_type == orig[i as int].node_type,
                seg.name == orig[i as int].name,
                seg.children == orig[i as int].children,
                seg.control_flow == orig[i as int].control_flow,
                dorig == orig[i as int].dependencies@,
                seg.dependencies@.len() >= dn,
                seg.dependencies@.subrange(0, dn as int) == dorig,
                names_of(seg.dependencies@) == names_of(dorig) + hop_upto(dorig, t, j as int),
                no_dup_names(dorig) ==> no_dup_names(seg.dependencies@),
            decreases dn - j,
        {
            let ghost set_before = names_of(seg.dependencies@);
            let d = seg.dependencies[j].clone();
            proof {
                assert(seg.dependencies@[j as int] == dorig[j as int]);
                assert(d@ == dorig[j as int]@);
            }
            match lookup_last(&names, &d) {
                Some(k) => {
                    proof {
                        assert(names@[k as int]@ == sviews[k as int].name);
                        assert(sviews[k as int].name == d@);
                        assert forall|jx: int| k < jx < sviews.len() implies (
                        #[trigger] sviews[jx]).name != sviews[k as int].name by {
                            assert(names@[jx]@ == sviews[jx].name);
                        }
                        lemma_dep_table_last(sviews, sviews.len() as int, k as int);
                        assert(t.dom().contains(d@));
                        assert(t[d@] == sviews[k as int].deps);
                    }
                    let row_len: usize = tbl[k].len();
                    let mut m: usize = 0;
                    while m < row_len
                        invariant
                            0 <= m <= row_len,
                            k < tbl@.len(),
                            row_len == tbl@[k as int]@.len(),
                            dn == dorig.len(),
                            seg.node_type == orig[i as int].node_type,
                            seg.name == orig[i as int].name,
                            seg.children == orig[i as int].children,
                            seg.control_flow == orig[i as int].control_flow,
                            seg.dependencies@.len() >= dn,
                            seg.dependencies@.subrange(0, dn as int) == dorig,
                            names_of(seg.dependencies@) == set_before + names_of(
                                tbl@[k as int]@.subrange(0, m as int),
                            ),
                            no_dup_names(dorig) ==> no_dup_names(seg.dependencies@),
                        decreases row_len - m,
                    {
                        let ghost row = tbl@[k as int]@;
                        let ghost deps_before = seg.dependencies@;
                        let x = tbl[k][m].clone();
                        let ghost xv = x;
                        let is_there = contains_name(&seg.dependencies, &x);
                        if !is_there {
                            seg.dependencies.push(x);
                        }
                        proof {
                            assert(row.subrange(0, m as int + 1) =~= row.subrange(
                                0,
                                m as int,
                            ).push(row[m as int]));
                            lemma_names_of_push(row.subrange(0, m as int), row[m as int]);
                            if !is_there {
                                lemma_names_of_push(deps_before, xv);
                                assert(seg.dependencies@.subrange(0, dn as int)
                                    =~= deps_before.subrange(0, dn as int));
                            } else {
                                assert(names_of(seg.dependencies@).contains(x@));
                            }
                            assert(names_of(seg.dependencies@) =~= set_before + names_of(
                                row.subrange(0, m as int + 1),
                            ));
                        }
                        m += 1;
                    }
                    proof {
                        let row = tbl@[k as int]@;
                        assert(row.subrange(0, row.len() as int) =~= row);
                        assert(names_of(row) == t[d@]);
                        assert forall|x: Seq<char>| hop_upto(dorig, t, j as int + 1).contains(
                            x,
                        ) implies (set_before + names_of(row)).contains(x) by {
                            let jj = choose|jj: int|
                                #![auto]
                                0 <= jj < j + 1 && jj < dorig.len() && t.dom().contains(
                                    dorig[jj]@,
                                ) && t[dorig[jj]@].contains(x);
                            if jj < j {
                                assert(hop_upto(dorig, t, j as int).contains(x));
                            }
                        }
                        assert forall|x: Seq<char>| names_of(row).contains(x) implies hop_upto(
                            dorig,
                            t,
                            j as int + 1,
                        ).contains(x) by {
                            assert(t.dom().contains(dorig[j as int]@) && t[dorig[j as int]@]
                                .contains(x));
                        }
                        assert(names_of(seg.dependencies@) =~= names_of(dorig) + hop_upto(
                            dorig,
                            t,
                            j as int + 1,
                        ));
                    }
                },
                None => {
                    proof {
                        assert forall|jx: int| 0 <= jx < sviews.len() implies (
                        #[trigger] sviews[jx]).name != d@ by {
                            assert(names@[jx]@ == sviews[jx].name);
                        }
                        lemma_dep_table_absent(sviews, sviews.len() as int, d@);
                        assert forall|x: Seq<char>| hop_upto(dorig, t, j as int + 1).contains(
                            x,
                        ) implies hop_upto(dorig, t, j as int).contains(x) by {
                            let jj = choose|jj: int|
                                #![auto]
                                0 <= jj < j + 1 && jj < dorig.len() && t.dom().contains(
                                    dorig[jj]@,
                                ) && t[dorig[jj]@].contains(x);
                            assert(jj != j);
                        }
                        assert(names_of(seg.dependencies@) =~= names_of(dorig) + hop_upto(
                            dorig,
                            t,
                            j as int + 1,
                        ));
                    }
                },
            }
            j += 1;
        }
        proof {
            lemma_hop_full(dorig, t);
            assert(names_of(seg.dependencies@) == resolved_deps(names_of(dorig), t));
            assert(seg@ =~~= resolve_view(sviews[i as int], t));
        }
        segments.insert(i, seg);
        proof {
            assert(segments@ =~= seq_before.update(i as int, seg));
        }
        i += 1;
    }
}

} // verus!
