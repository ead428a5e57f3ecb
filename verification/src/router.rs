//! Building the full overlay tree: merging every enabled module's `system`
//! tree into one node, then lifting separately-mounted partition subtrees to
//! the root.
//!
//! A partition is lifted iff `/<name>` is a directory and, for partitions
//! that mirror through a symlink, `/system/<name>` is a symlink — or, for
//! physically separate partitions, `/system/<name>` is not a symlink.

use vstd::prelude::*;

use crate::model::{
    ModuleInfo, ModuleInfoView, PartitionProbe, PartitionProbeView, lemma_mod_views, mod_view,
    module_enabled, module_view, modules_view, is_module_enabled, probe_for, find_probe,
};
use crate::node::{
    Node, NodeView, NodeFileType, node_view, node_views, lemma_node_views, find_child, child_pos,
    lemma_find_child, merge_upto,
};
use crate::strutil::str_eq;

verus! {

/// Whether the partition subtree named `name` is mounted at `/<name>`
/// rather than under `/system`.
pub open spec fn should_mount_spec(
    p: Option<PartitionProbeView>,
    name: Seq<char>,
    require_symlink: bool,
) -> bool {
    match p {
        None => false,
        Some(pr) => pr.root_is_dir && (name == "system"@ || (if require_symlink {
            pr.system_is_symlink
        } else {
            !pr.system_is_symlink
        })),
    }
}

/// Decides whether the partition `partition` is mounted separately, from the
/// caller's probe of `/<partition>` and `/system/<partition>`.
pub fn should_mount_partition(
    probe: Option<&PartitionProbe>,
    partition: &str,
    require_symlink: bool,
) -> (r: bool)
    ensures
        r == should_mount_spec(
            match probe {
                Some(p) => Some(p.deep_view()),
                None => None,
            },
            partition@,
            require_symlink,
        ),
{
    match probe {
        None => false,
        Some(p) => {
            if !p.root_is_dir {
                false
            } else if str_eq(partition, "system") {
                true
            } else if require_symlink {
                p.system_is_symlink
            } else {
                !p.system_is_symlink
            }
        },
    }
}

/// One routing step: if the partition is mounted separately and the merged
/// `system` children hold a subtree of that name, the subtree moves from
/// `sys` to the end of `root`.
pub open spec fn route_step(
    root: Seq<NodeView>,
    sys: Seq<NodeView>,
    probes: Seq<PartitionProbeView>,
    name: Seq<char>,
    require_symlink: bool,
) -> (Seq<NodeView>, Seq<NodeView>) {
    if should_mount_spec(probe_for(probes, name), name, require_symlink) && find_child(sys, name)
        < sys.len() {
        let i = find_child(sys, name);
        (root.push(sys[i]), sys.remove(i))
    } else {
        (root, sys)
    }
}

/// The root children after routing: lifted partitions in table order, then
/// the `system` subtree itself when `/system` is a directory.
pub open spec fn route_spec(
    sys: Seq<NodeView>,
    probes: Seq<PartitionProbeView>,
) -> Seq<NodeView> {
    let a1 = route_step(Seq::empty(), sys, probes, "vendor"@, true);
    let a2 = route_step(a1.0, a1.1, probes, "system_ext"@, true);
    let a3 = route_step(a2.0, a2.1, probes, "product"@, true);
    let a4 = route_step(a3.0, a3.1, probes, "odm"@, false);
    let a5 = route_step(a4.0, a4.1, probes, "oem"@, false);
    let a6 = route_step(a5.0, a5.1, probes, "my_product"@, false);
    let a7 = route_step(a6.0, a6.1, probes, "my_preload"@, false);
    if should_mount_spec(probe_for(probes, "system"@), "system"@, false) {
        a7.0.push(
            NodeView {
                name: "system"@,
                file_type: NodeFileType::Directory,
                children: a7.1,
                source_path: None,
                replace: false,
                skip: false,
            },
        )
    } else {
        a7.0
    }
}

/// Moves the subtree for one partition from `sys` to `root` when the
/// partition is mounted separately.
fn route_one(
    root: &mut Vec<Node>,
    sys: &mut Vec<Node>,
    probes: &Vec<PartitionProbe>,
    name: &str,
    require_symlink: bool,
)
    ensures
        (node_views(final(root)@), node_views(final(sys)@)) == route_step(
            node_views(old(root)@),
            node_views(old(sys)@),
            probes.deep_view(),
            name@,
            require_symlink,
        ),
{
    let ghost r0 = node_views(old(root)@);
    let ghost s0 = node_views(old(sys)@);
    let lift = should_mount_partition(find_probe(probes, name), name, require_symlink);
    if lift {
        let idx = child_pos(sys, name);
        proof {
            lemma_node_views(sys@);
            lemma_find_child(s0, name@);
        }
        if idx < sys.len() {
            let ghost pre = sys@;
            let node = sys.remove(idx);
            let ghost rpre = root@;
            root.push(node);
            proof {
                pre.remove_ensures(idx as int);
                lemma_node_views(sys@);
                lemma_node_views(pre);
                assert(node_views(sys@) =~= s0.remove(idx as int));
                lemma_node_views(root@);
                lemma_node_views(rpre);
                assert(node == pre[idx as int]);
                assert(node_views(root@) =~= r0.push(s0[idx as int]));
            }
        }
    }
}

/// The merged `system` children and contribution flag after the first `n`
/// modules: each enabled module's tree is merged in order.
pub open spec fn collect_spec(ms: Seq<ModuleInfoView>, n: int) -> (Seq<NodeView>, bool)
    decreases n,
{
    if n <= 0 || n > ms.len() {
        (Seq::empty(), false)
    } else {
        let prev = collect_spec(ms, n - 1);
        if module_enabled(ms[n - 1]) {
            let s = ms[n - 1].system.unwrap();
            let m = merge_upto(prev.0, s.children, s.children.len() as int, ms[n - 1].system_root);
            (m.0, prev.1 || m.1)
        } else {
            prev
        }
    }
}

/// The tree the whole collection produces, if any: the root node holds the
/// routed children iff some enabled module contributes content.
pub open spec fn collected_root(
    ms: Seq<ModuleInfoView>,
    probes: Seq<PartitionProbeView>,
) -> Option<NodeView> {
    let m = collect_spec(ms, ms.len() as int);
    if m.1 {
        Some(
            NodeView {
                name: ""@,
                file_type: NodeFileType::Directory,
                children: route_spec(m.0, probes),
                source_path: None,
                replace: false,
                skip: false,
            },
        )
    } else {
        None
    }
}

/// Collects every enabled module's `system` tree into one overlay tree and
/// routes separately-mounted partitions to the root. Returns nothing when no
/// enabled module contributes content.
pub fn collect_module_files(modules: &Vec<ModuleInfo>, probes: &Vec<PartitionProbe>) -> (r:
    Option<Node>)
    ensures
        match r {
            Some(root) => collected_root(modules_view(modules@), probes.deep_view()) == Some(
                node_view(root),
            ),
            None => collected_root(modules_view(modules@), probes.deep_view()) is None,
        },
{
    let ghost ms = modules_view(modules@);
    let mut system = Node::new_root("system");
    let mut has_file = false;
    let mut i: usize = 0;
    proof {
        assert(node_views(system.children@) =~= Seq::<NodeView>::empty());
    }
    while i < modules.len()
        invariant
            0 <= i <= modules.len(),
            ms == modules_view(modules@),
            ms.len() == modules@.len(),
            (node_views(system.children@), has_file) == collect_spec(ms, i as int),
            system.name@ == "system"@,
            system.file_type == NodeFileType::Directory,
            system.source_path is None,
            !system.replace,
            !system.skip,
        decreases modules.len() - i,
    {
        let m = &modules[i];
        proof {
            assert(ms[i as int] == module_view(modules@[i as int]));
        }
        if is_module_enabled(m) {
            if let Some(s) = &m.system {
                let ghost pre = node_views(system.children@);
                let sub = system.collect_module_files(s, m.system_root.as_str());
                has_file = has_file || sub;
                proof {
                    let sv = module_view(modules@[i as int]).system.unwrap();
                    assert(sv == mod_view(*s));
                    lemma_mod_views(s.children@);
                    assert(sv.children == crate::model::mod_views(s.children@));
                    assert(sv.children.len() == s.children@.len());
                    assert((node_views(system.children@), has_file) == collect_spec(
                        ms,
                        i as int + 1,
                    ));
                }
            }
        } else {
            proof {
                assert((node_views(system.children@), has_file) == collect_spec(
                    ms,
                    i as int + 1,
                ));
            }
        }
        i += 1;
    }
    if has_file {
        let mut root_children: Vec<Node> = Vec::new();
        proof {
            assert(node_views(root_children@) =~= Seq::<NodeView>::empty());
        }
        route_one(&mut root_children, &mut system.children, probes, "vendor", true);
        route_one(&mut root_children, &mut system.children, probes, "system_ext", true);
        route_one(&mut root_children, &mut system.children, probes, "product", true);
        route_one(&mut root_children, &mut system.children, probes, "odm", false);
        route_one(&mut root_children, &mut system.children, probes, "oem", false);
        route_one(&mut root_children, &mut system.children, probes, "my_product", false);
        route_one(&mut root_children, &mut system.children, probes, "my_preload", false);
        let lift_system = should_mount_partition(find_probe(probes, "system"), "system", false);
        if lift_system {
            let ghost rc0 = root_children@;
            let ghost pre = node_views(root_children@);
            let ghost sysv = node_view(system);
            root_children.push(system);
            proof {
                lemma_node_views(rc0);
                lemma_node_views(root_children@);
                assert(node_views(root_children@) =~= pre.push(sysv));
            }
        }
        let root = Node {
            name: String::new(),
            file_type: NodeFileType::Directory,
            children: root_children,
            source_path: None,
            replace: false,
            skip: false,
        };
        proof {
            reveal_strlit("");
            assert(root.name@ =~= ""@);
            assert(node_view(root).children == node_views(root.children@));
            assert(node_view(root) == collected_root(ms, probes.deep_view()).unwrap());
        }
        Some(root)
    } else {
        None
    }
}

} // verus!
