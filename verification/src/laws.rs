//! Structural laws of the collected overlay tree.
//!
//! These proof functions state, once and for all inputs, what the collection
//! pass guarantees: a directory kept without the opaque flag always holds a
//! contributing descendant; a node without a module source never carries the
//! opaque flag; and routing never leaves a partition subtree both at the
//! root and under `system`.

use vstd::prelude::*;

use crate::model::{ModEntryView, ModuleInfoView, PartitionProbeView, module_enabled};
use crate::node::{NodeView, NodeFileType, find_child, lemma_find_child, merge_upto,
    new_module_spec};
use crate::router::{collect_spec, route_step, route_spec};

verus! {

/// A node contributes content: it is a file, symlink or whiteout, or a
/// directory that is opaque or holds a contributing child.
pub open spec fn contributes(n: NodeView) -> bool
    decreases n,
    via contributes_dec
{
    if n.file_type != NodeFileType::Directory {
        true
    } else {
        n.replace || exists|i: int|
            0 <= i < n.children.len() && contributes(#[trigger] n.children[i])
    }
}

#[via_fn]
proof fn contributes_dec(n: NodeView) {
    assert forall|i: int| 0 <= i < n.children.len() implies (decreases_to!(
        n => n.children[i]
    )) by {
        assert(decreases_to!(n.children => n.children[i]));
    }
}

/// No two children share a name.
pub open spec fn unique_names(cs: Seq<NodeView>) -> bool {
    forall|i: int, j: int|
        0 <= i < j < cs.len() ==> (#[trigger] cs[i]).name != (#[trigger] cs[j]).name
}

/// The collection invariant: the opaque flag only on module-backed nodes,
/// children only under directories and with distinct names, and every
/// non-opaque directory contributing content.
pub open spec fn good(n: NodeView) -> bool
    decreases n,
    via good_dec
{
    &&& (n.source_path is None ==> !n.replace)
    &&& (n.file_type != NodeFileType::Directory ==> n.children.len() == 0)
    &&& unique_names(n.children)
    &&& (n.file_type == NodeFileType::Directory && !n.replace ==> contributes(n))
    &&& (forall|i: int| 0 <= i < n.children.len() ==> good(#[trigger] n.children[i]))
}

#[via_fn]
proof fn good_dec(n: NodeView) {
    assert forall|i: int| 0 <= i < n.children.len() implies (decreases_to!(
        n => n.children[i]
    )) by {
        assert(decreases_to!(n.children => n.children[i]));
    }
}

/// Merging preserves the collection invariant: positions and headline fields
/// of existing children stay, contribution never vanishes, names stay
/// distinct, and every merged-in node is well-formed.
pub proof fn lemma_merge_good(cs: Seq<NodeView>, es: Seq<ModEntryView>, n: int, dpath: Seq<char>)
    requires
        forall|i: int| 0 <= i < cs.len() ==> good(#[trigger] cs[i]),
        unique_names(cs),
    ensures
        merge_upto(cs, es, n, dpath).0.len() >= cs.len(),
        forall|i: int|
            0 <= i < merge_upto(cs, es, n, dpath).0.len() ==> good(
                #[trigger] merge_upto(cs, es, n, dpath).0[i],
            ),
        unique_names(merge_upto(cs, es, n, dpath).0),
        forall|i: int|
            0 <= i < cs.len() ==> {
                let c2 = #[trigger] merge_upto(cs, es, n, dpath).0[i];
                &&& c2.name == cs[i].name
                &&& c2.file_type == cs[i].file_type
                &&& c2.replace == cs[i].replace
                &&& c2.source_path == cs[i].source_path
                &&& (contributes(cs[i]) ==> contributes(c2))
            },
        merge_upto(cs, es, n, dpath).1 ==> exists|i: int|
            0 <= i < merge_upto(cs, es, n, dpath).0.len() && contributes(
                #[trigger] merge_upto(cs, es, n, dpath).0[i],
            ),
    decreases es, n,
{
    if n <= 0 || n > es.len() {
    } else {
        lemma_merge_good(cs, es, n - 1, dpath);
        let prev = merge_upto(cs, es, n - 1, dpath);
        let cs1 = prev.0;
        let e = es[n - 1];
        let epath = crate::strutil::joined(dpath, e.name);
        let i = find_child(cs1, e.name);
        lemma_find_child(cs1, e.name);
        if i < cs1.len() {
            let c = cs1[i];
            if c.file_type == NodeFileType::Directory && e.kind == crate::model::FsKind::Dir {
                lemma_merge_good(c.children, e.children, e.children.len() as int, epath);
                let sub = merge_upto(c.children, e.children, e.children.len() as int, epath);
                let c2 = NodeView { children: sub.0, ..c };
                assert(good(c2)) by {
                    if c.file_type == NodeFileType::Directory && !c.replace {
                        assert(contributes(c));
                        if !c.replace {
                            let w = choose|w: int|
                                0 <= w < c.children.len() && contributes(
                                    #[trigger] c.children[w],
                                );
                            assert(contributes(sub.0[w]));
                            assert(contributes(c2.children[w]));
                            assert(contributes(c2));
                        }
                    }
                    if sub.1 {
                        let w = choose|w: int|
                            0 <= w < sub.0.len() && contributes(#[trigger] sub.0[w]);
                        assert(contributes(c2.children[w]));
                        assert(contributes(c2));
                    }
                }
                assert(contributes(c) ==> contributes(c2)) by {
                    if contributes(c) && !c.replace && c.file_type == NodeFileType::Directory {
                        let w = choose|w: int|
                            0 <= w < c.children.len() && contributes(#[trigger] c.children[w]);
                        assert(contributes(sub.0[w]));
                        assert(contributes(c2.children[w]));
                    }
                }
                let out = cs1.update(i, c2);
                assert(unique_names(out)) by {
                    assert forall|x: int, y: int| 0 <= x < y < out.len() implies (
                    #[trigger] out[x]).name != (#[trigger] out[y]).name by {
                        assert(out[x].name == cs1[x].name);
                        assert(out[y].name == cs1[y].name);
                    }
                }
                if prev.1 || sub.1 || c.replace {
                    if prev.1 {
                        let w = choose|w: int|
                            0 <= w < cs1.len() && contributes(#[trigger] cs1[w]);
                        if w == i {
                            assert(contributes(out[i]));
                        } else {
                            assert(contributes(out[w]));
                        }
                    } else {
                        assert(contributes(c2));
                        assert(contributes(out[i]));
                    }
                }
            } else {
                if c.file_type != NodeFileType::Directory {
                    assert(contributes(cs1[i]));
                }
            }
        } else {
            match new_module_spec(e, epath) {
                None => {},
                Some(node) => {
                    if node.file_type == NodeFileType::Directory {
                        lemma_merge_good(
                            Seq::empty(),
                            e.children,
                            e.children.len() as int,
                            epath,
                        );
                        let sub = merge_upto(
                            Seq::empty(),
                            e.children,
                            e.children.len() as int,
                            epath,
                        );
                        if sub.1 || node.replace {
                            let node2 = NodeView { children: sub.0, ..node };
                            assert(good(node2)) by {
                                if !node2.replace {
                                    let w = choose|w: int|
                                        0 <= w < sub.0.len() && contributes(
                                            #[trigger] sub.0[w],
                                        );
                                    assert(contributes(node2.children[w]));
                                    assert(contributes(node2));
                                } else {
                                    assert(contributes(node2));
                                }
                            }
                            let out = cs1.push(node2);
                            assert(unique_names(out)) by {
                                assert forall|x: int, y: int| 0 <= x < y < out.len() implies (
                                #[trigger] out[x]).name != (#[trigger] out[y]).name by {
                                    if y == cs1.len() as int {
                                        assert(out[x] == cs1[x]);
                                        assert(cs1[x].name != e.name);
                                    } else {
                                        assert(out[x] == cs1[x]);
                                        assert(out[y] == cs1[y]);
                                    }
                                }
                            }
                            assert(contributes(out[cs1.len() as int]));
                        }
                    } else {
                        let out = cs1.push(node);
                        assert(good(node));
                        assert(contributes(node));
                        assert(unique_names(out)) by {
                            assert forall|x: int, y: int| 0 <= x < y < out.len() implies (
                            #[trigger] out[x]).name != (#[trigger] out[y]).name by {
                                if y == cs1.len() as int {
                                    assert(out[x] == cs1[x]);
                                    assert(cs1[x].name != e.name);
                                } else {
                                    assert(out[x] == cs1[x]);
                                    assert(out[y] == cs1[y]);
                                }
                            }
                        }
                        assert(contributes(out[cs1.len() as int]));
                    }
                },
            }
        }
    }
}

/// The collected `system` children are well-formed: the opaque flag stands
/// only on module-backed directories, sibling names are distinct, every
/// non-opaque directory holds a contributing descendant, and when the
/// collection reports content some child indeed contributes.
pub proof fn lemma_collect_good(ms: Seq<ModuleInfoView>, n: int)
    ensures
        forall|i: int|
            0 <= i < collect_spec(ms, n).0.len() ==> good(#[trigger] collect_spec(ms, n).0[i]),
        unique_names(collect_spec(ms, n).0),
        collect_spec(ms, n).1 ==> exists|i: int|
            0 <= i < collect_spec(ms, n).0.len() && contributes(
                #[trigger] collect_spec(ms, n).0[i],
            ),
    decreases n,
{
    if n <= 0 || n > ms.len() {
    } else {
        lemma_collect_good(ms, n - 1);
        let prev = collect_spec(ms, n - 1);
        if module_enabled(ms[n - 1]) {
            let s = ms[n - 1].system.unwrap();
            lemma_merge_good(prev.0, s.children, s.children.len() as int, ms[n - 1].system_root);
            let m = merge_upto(prev.0, s.children, s.children.len() as int, ms[n - 1].system_root);
            if prev.1 {
                let w = choose|w: int| 0 <= w < prev.0.len() && contributes(#[trigger] prev.0[w]);
                assert(contributes(m.0[w]));
            }
        }
    }
}

/// Some child of `cs` bears the name `nm`.
pub open spec fn has_name(cs: Seq<NodeView>, nm: Seq<char>) -> bool {
    exists|i: int| 0 <= i < cs.len() && (#[trigger] cs[i]).name == nm
}

/// One routing step keeps root names and remaining `system` names disjoint.
proof fn lemma_route_step_sep(
    root: Seq<NodeView>,
    sys: Seq<NodeView>,
    probes: Seq<PartitionProbeView>,
    step_name: Seq<char>,
    req: bool,
    nm: Seq<char>,
)
    requires
        unique_names(sys),
        has_name(root, nm) ==> !has_name(sys, nm),
    ensures
        unique_names(route_step(root, sys, probes, step_name, req).1),
        has_name(route_step(root, sys, probes, step_name, req).0, nm) ==> !has_name(
            route_step(root, sys, probes, step_name, req).1,
            nm,
        ),
{
    let r = route_step(root, sys, probes, step_name, req);
    lemma_find_child(sys, step_name);
    if crate::router::should_mount_spec(
        crate::model::probe_for(probes, step_name),
        step_name,
        req,
    ) && find_child(sys, step_name) < sys.len() {
        let i = find_child(sys, step_name);
        let s2 = sys.remove(i);
        sys.remove_ensures(i);
        assert(unique_names(s2)) by {
            assert forall|x: int, y: int| 0 <= x < y < s2.len() implies (#[trigger] s2[x]).name
                != (#[trigger] s2[y]).name by {
                let x0: int = if x < i {
                    x
                } else {
                    x + 1
                };
                let y0: int = if y < i {
                    y
                } else {
                    y + 1
                };
                assert(s2[x] == sys[x0]);
                assert(s2[y] == sys[y0]);
            }
        }
        assert(has_name(r.0, nm) ==> !has_name(r.1, nm)) by {
            if has_name(r.0, nm) {
                let w = choose|w: int| 0 <= w < r.0.len() && (#[trigger] r.0[w]).name == nm;
                if w < root.len() {
                    assert(root[w].name == nm);
                    assert(!has_name(sys, nm));
                    assert forall|y: int| 0 <= y < s2.len() implies (#[trigger] s2[y]).name
                        != nm by {
                        let y0: int = if y < i {
                            y
                        } else {
                            y + 1
                        };
                        assert(s2[y] == sys[y0]);
                    }
                } else {
                    assert(r.0[w] == sys[i]);
                    assert(nm == step_name);
                    assert forall|y: int| 0 <= y < s2.len() implies (#[trigger] s2[y]).name
                        != nm by {
                        let y0: int = if y < i {
                            y
                        } else {
                            y + 1
                        };
                        assert(s2[y] == sys[y0]);
                        if y0 != i {
                            if sys[y0].name == step_name {
                                assert(forall|k: int|
                                    0 <= k < i ==> (#[trigger] sys[k]).name != step_name);
                            }
                        }
                    }
                }
            }
        }
    } else {
        if has_name(r.0, nm) {
            let w = choose|w: int| 0 <= w < r.0.len() && (#[trigger] r.0[w]).name == nm;
            assert(root[w].name == nm);
        }
    }
}

/// Routing separation: after routing, a partition subtree lifted to the
/// root no longer stands under the routed `system` subtree (which, when
/// present, is the last root child).
pub proof fn lemma_route_separation(
    sys: Seq<NodeView>,
    probes: Seq<PartitionProbeView>,
    nm: Seq<char>,
)
    requires
        unique_names(sys),
    ensures
        crate::router::should_mount_spec(
            crate::model::probe_for(probes, "system"@),
            "system"@,
            false,
        ) ==> ({
            let rc = route_spec(sys, probes);
            forall|i: int|
                0 <= i < rc.len() - 1 && (#[trigger] rc[i]).name == nm ==> !has_name(
                    rc.last().children,
                    nm,
                )
        }),
{
    let e0: Seq<NodeView> = Seq::empty();
    assert(has_name(e0, nm) ==> !has_name(sys, nm)) by {
        if has_name(e0, nm) {
            let w = choose|w: int| 0 <= w < e0.len() && (#[trigger] e0[w]).name == nm;
        }
    }
    let a1 = route_step(e0, sys, probes, "vendor"@, true);
    lemma_route_step_sep(e0, sys, probes, "vendor"@, true, nm);
    let a2 = route_step(a1.0, a1.1, probes, "system_ext"@, true);
    lemma_route_step_sep(a1.0, a1.1, probes, "system_ext"@, true, nm);
    let a3 = route_step(a2.0, a2.1, probes, "product"@, true);
    lemma_route_step_sep(a2.0, a2.1, probes, "product"@, true, nm);
    let a4 = route_step(a3.0, a3.1, probes, "odm"@, false);
    lemma_route_step_sep(a3.0, a3.1, probes, "odm"@, false, nm);
    let a5 = route_step(a4.0, a4.1, probes, "oem"@, false);
    lemma_route_step_sep(a4.0, a4.1, probes, "oem"@, false, nm);
    let a6 = route_step(a5.0, a5.1, probes, "my_product"@, false);
    lemma_route_step_sep(a5.0, a5.1, probes, "my_product"@, false, nm);
    let a7 = route_step(a6.0, a6.1, probes, "my_preload"@, false);
    lemma_route_step_sep(a6.0, a6.1, probes, "my_preload"@, false, nm);
    if crate::router::should_mount_spec(
        crate::model::probe_for(probes, "system"@),
        "system"@,
        false,
    ) {
        let rc = route_spec(sys, probes);
        assert(rc.last().children == a7.1);
        assert forall|i: int|
            0 <= i < rc.len() - 1 && (#[trigger] rc[i]).name == nm implies !has_name(
            rc.last().children,
            nm,
        ) by {
            assert(rc[i] == a7.0[i]);
            assert(has_name(a7.0, nm));
        }
    }
}

/// The opaque-flag law over a whole subtree: a node without a module source
/// never carries the opaque flag, at any depth.
pub open spec fn no_bare_replace(n: NodeView) -> bool
    decreases n,
    via no_bare_replace_dec
{
    &&& (n.source_path is None ==> !n.replace)
    &&& (forall|i: int| 0 <= i < n.children.len() ==> no_bare_replace(#[trigger] n.children[i]))
}

#[via_fn]
proof fn no_bare_replace_dec(n: NodeView) {
    assert forall|i: int| 0 <= i < n.children.len() implies (decreases_to!(
        n => n.children[i]
    )) by {
        assert(decreases_to!(n.children => n.children[i]));
    }
}

/// The collection invariant implies the opaque-flag law.
pub proof fn lemma_good_no_bare_replace(n: NodeView)
    requires
        good(n),
    ensures
        no_bare_replace(n),
    decreases n,
{
    assert forall|i: int| 0 <= i < n.children.len() implies no_bare_replace(
        #[trigger] n.children[i],
    ) by {
        assert(decreases_to!(n.children => n.children[i]));
        lemma_good_no_bare_replace(n.children[i]);
    }
}

/// One routing step only rearranges subtrees, so the law survives it.
proof fn lemma_route_step_no_bare(
    root: Seq<NodeView>,
    sys: Seq<NodeView>,
    probes: Seq<PartitionProbeView>,
    step_name: Seq<char>,
    req: bool,
)
    requires
        forall|i: int| 0 <= i < root.len() ==> no_bare_replace(#[trigger] root[i]),
        forall|i: int| 0 <= i < sys.len() ==> no_bare_replace(#[trigger] sys[i]),
    ensures
        forall|i: int|
            0 <= i < route_step(root, sys, probes, step_name, req).0.len()
                ==> no_bare_replace(#[trigger] route_step(root, sys, probes, step_name, req).0[i]),
        forall|i: int|
            0 <= i < route_step(root, sys, probes, step_name, req).1.len()
                ==> no_bare_replace(#[trigger] route_step(root, sys, probes, step_name, req).1[i]),
{
    let r = route_step(root, sys, probes, step_name, req);
    lemma_find_child(sys, step_name);
    if crate::router::should_mount_spec(
        crate::model::probe_for(probes, step_name),
        step_name,
        req,
    ) && find_child(sys, step_name) < sys.len() {
        let k = find_child(sys, step_name);
        sys.remove_ensures(k);
        assert forall|i: int| 0 <= i < r.1.len() implies no_bare_replace(
            #[trigger] r.1[i],
        ) by {
            if i < k {
                assert(r.1[i] == sys[i]);
            } else {
                assert(r.1[i] == sys[i + 1]);
            }
        }
    }
}

/// The opaque-flag law for the routed tree: in every tree the collection
/// produces, a node without a module source never carries the opaque flag.
pub proof fn lemma_collected_no_bare_replace(
    ms: Seq<ModuleInfoView>,
    probes: Seq<PartitionProbeView>,
)
    ensures
        crate::router::collected_root(ms, probes) matches Some(root) ==> no_bare_replace(root),
{
    if crate::router::collected_root(ms, probes) is Some {
        let m = collect_spec(ms, ms.len() as int);
        lemma_collect_good(ms, ms.len() as int);
        let sys = m.0;
        assert forall|i: int| 0 <= i < sys.len() implies no_bare_replace(
            #[trigger] sys[i],
        ) by {
            lemma_good_no_bare_replace(sys[i]);
        }
        let e0: Seq<NodeView> = Seq::empty();
        let a1 = route_step(e0, sys, probes, "vendor"@, true);
        lemma_route_step_no_bare(e0, sys, probes, "vendor"@, true);
        let a2 = route_step(a1.0, a1.1, probes, "system_ext"@, true);
        lemma_route_step_no_bare(a1.0, a1.1, probes, "system_ext"@, true);
        let a3 = route_step(a2.0, a2.1, probes, "product"@, true);
        lemma_route_step_no_bare(a2.0, a2.1, probes, "product"@, true);
        let a4 = route_step(a3.0, a3.1, probes, "odm"@, false);
        lemma_route_step_no_bare(a3.0, a3.1, probes, "odm"@, false);
        let a5 = route_step(a4.0, a4.1, probes, "oem"@, false);
        lemma_route_step_no_bare(a4.0, a4.1, probes, "oem"@, false);
        let a6 = route_step(a5.0, a5.1, probes, "my_product"@, false);
        lemma_route_step_no_bare(a5.0, a5.1, probes, "my_product"@, false);
        let a7 = route_step(a6.0, a6.1, probes, "my_preload"@, false);
        lemma_route_step_no_bare(a6.0, a6.1, probes, "my_preload"@, false);
        let root = crate::router::collected_root(ms, probes).unwrap();
        if crate::router::should_mount_spec(
            crate::model::probe_for(probes, "system"@),
            "system"@,
            false,
        ) {
            let sysnode = NodeView {
                name: "system"@,
                file_type: NodeFileType::Directory,
                children: a7.1,
                source_path: None,
                replace: false,
                skip: false,
            };
            assert(no_bare_replace(sysnode));
            assert forall|i: int| 0 <= i < root.children.len() implies no_bare_replace(
                #[trigger] root.children[i],
            ) by {
                if i < a7.0.len() {
                    assert(root.children[i] == a7.0[i]);
                } else {
                    assert(root.children[i] == sysnode);
                }
            }
        } else {
            assert forall|i: int| 0 <= i < root.children.len() implies no_bare_replace(
                #[trigger] root.children[i],
            ) by {
                assert(root.children[i] == a7.0[i]);
            }
        }
        assert(no_bare_replace(root));
    }
}

} // verus!
