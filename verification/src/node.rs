//! The overlay tree: one node per contributed path, merged across modules.
//!
//! The tree is rooted at a synthetic node named `""`; its children are the
//! partition subtrees. Merging follows a first-contributor-wins rule: a later
//! module refines an existing node only when both sides are directories, and
//! a directory is kept only when something beneath it contributes content.

use vstd::prelude::*;

use crate::model::{FsKind, ModEntry, ModEntryView, mod_view, mod_views, lemma_mod_views};
use crate::strutil::{joined, join_path, str_eq};

verus! {

/// What a node stands for in the composed view.
#[derive(Clone, Copy, Debug, PartialEq, Eq, Structural)]
pub enum NodeFileType {
    RegularFile,
    Directory,
    Symlink,
    Whiteout,
}

/// A node of the overlay tree. `source_path` names the contributing file on
/// disk; it is absent for synthetic nodes (the root and partition roots).
/// `replace` marks an opaque directory; `skip` marks children the engine must
/// not mount.
#[derive(Debug)]
pub struct Node {
    pub name: String,
    pub file_type: NodeFileType,
    pub children: Vec<Node>,
    pub source_path: Option<String>,
    pub replace: bool,
    pub skip: bool,
}

/// Ghost mirror of [`Node`].
pub struct NodeView {
    pub name: Seq<char>,
    pub file_type: NodeFileType,
    pub children: Seq<NodeView>,
    pub source_path: Option<Seq<char>>,
    pub replace: bool,
    pub skip: bool,
}

/// Ghost mirror of a node.
pub open spec fn node_view(n: Node) -> NodeView
    decreases n,
{
    NodeView {
        name: n.name@,
        file_type: n.file_type,
        children: node_views(n.children@),
        source_path: match n.source_path {
            Some(p) => Some(p@),
            None => None,
        },
        replace: n.replace,
        skip: n.skip,
    }
}

/// Ghost mirrors of a sequence of nodes, elementwise.
pub open spec fn node_views(ns: Seq<Node>) -> Seq<NodeView>
    decreases ns,
{
    if ns.len() == 0 {
        Seq::empty()
    } else {
        seq![node_view(ns[0])] + node_views(ns.skip(1))
    }
}

pub proof fn lemma_node_views(ns: Seq<Node>)
    ensures
        node_views(ns).len() == ns.len(),
        forall|i: int| 0 <= i < ns.len() ==> node_views(ns)[i] == node_view(ns[i]),
    decreases ns.len(),
{
    if ns.len() > 0 {
        lemma_node_views(ns.skip(1));
        assert forall|i: int| 0 <= i < ns.len() implies node_views(ns)[i] == node_view(ns[i]) by {
            if i >= 1 {
                assert(node_views(ns)[i] == node_views(ns.skip(1))[i - 1]);
                assert(ns.skip(1)[i - 1] == ns[i]);
            }
        }
    }
}

/// The node kind a plain directory entry maps to; special files other than
/// whiteout markers map to nothing.
pub open spec fn node_type_of(k: FsKind) -> Option<NodeFileType> {
    match k {
        FsKind::File => Some(NodeFileType::RegularFile),
        FsKind::Dir => Some(NodeFileType::Directory),
        FsKind::Symlink => Some(NodeFileType::Symlink),
        _ => None,
    }
}

impl NodeFileType {
    /// Maps an on-disk entry kind to a node kind, ignoring special files.
    pub fn from_file_type(k: FsKind) -> (r: Option<NodeFileType>)
        ensures
            r == node_type_of(k),
    {
        match k {
            FsKind::File => Some(NodeFileType::RegularFile),
            FsKind::Dir => Some(NodeFileType::Directory),
            FsKind::Symlink => Some(NodeFileType::Symlink),
            _ => None,
        }
    }
}

/// A module directory is opaque when its `trusted.overlay.opaque` attribute
/// holds exactly the byte `y`.
pub open spec fn is_opaque(e: ModEntryView) -> bool {
    e.opaque matches Some(v) && v == seq![121u8]
}

/// The node a fresh module entry becomes: whiteouts are character devices
/// with device number 0; other special files contribute nothing.
pub open spec fn new_module_spec(e: ModEntryView, path: Seq<char>) -> Option<NodeView> {
    let ft = if e.kind == FsKind::CharDev && e.rdev == 0 {
        Some(NodeFileType::Whiteout)
    } else {
        node_type_of(e.kind)
    };
    match ft {
        None => None,
        Some(t) => Some(
            NodeView {
                name: e.name,
                file_type: t,
                children: Seq::empty(),
                source_path: Some(path),
                replace: t == NodeFileType::Directory && is_opaque(e),
                skip: false,
            },
        ),
    }
}

/// Index of the first child with the given name, or `cs.len()` if absent.
pub open spec fn find_child(cs: Seq<NodeView>, name: Seq<char>) -> int
    decreases cs.len(),
{
    if cs.len() == 0 {
        0
    } else if cs[0].name == name {
        0
    } else {
        1 + find_child(cs.skip(1), name)
    }
}

pub proof fn lemma_find_child(cs: Seq<NodeView>, name: Seq<char>)
    ensures
        0 <= find_child(cs, name) <= cs.len(),
        find_child(cs, name) < cs.len() ==> cs[find_child(cs, name)].name == name,
        forall|k: int| 0 <= k < find_child(cs, name) ==> cs[k].name != name,
    decreases cs.len(),
{
    if cs.len() == 0 {
    } else if cs[0].name == name {
    } else {
        lemma_find_child(cs.skip(1), name);
        assert forall|k: int| 0 <= k < find_child(cs, name) implies cs[k].name != name by {
            if k >= 1 {
                assert(cs.skip(1)[k - 1].name != name);
            }
        }
    }
}

/// Merges the first `n` entries of `es` into the children `cs`, returning the
/// new children and whether the merged entries contribute content (a file,
/// symlink or whiteout, or an opaque directory). `dpath` is the on-disk path
/// of the directory holding `es`.
///
/// A fresh entry is added at the end; an entry whose name is already present
/// refines the existing child only when both are directories, and otherwise
/// the first contribution stands. A fresh directory that ends up without any
/// contribution beneath it is not kept.
pub open spec fn merge_upto(
    cs: Seq<NodeView>,
    es: Seq<ModEntryView>,
    n: int,
    dpath: Seq<char>,
) -> (Seq<NodeView>, bool)
    decreases es, n,
    via merge_upto_dec
{
    if n <= 0 || n > es.len() {
        (cs, false)
    } else {
        let prev = merge_upto(cs, es, n - 1, dpath);
        let cs1 = prev.0;
        let h1 = prev.1;
        let e = es[n - 1];
        let epath = joined(dpath, e.name);
        let i = find_child(cs1, e.name);
        if i < cs1.len() {
            let c = cs1[i];
            if c.file_type == NodeFileType::Directory && e.kind == FsKind::Dir {
                let sub = merge_upto(c.children, e.children, e.children.len() as int, epath);
                let c2 = NodeView { children: sub.0, ..c };
                (cs1.update(i, c2), h1 || sub.1 || c.replace)
            } else if c.file_type == NodeFileType::Directory {
                (cs1, h1)
            } else {
                (cs1, true)
            }
        } else {
            match new_module_spec(e, epath) {
                None => (cs1, h1),
                Some(node) => {
                    if node.file_type == NodeFileType::Directory {
                        let sub = merge_upto(
                            Seq::empty(),
                            e.children,
                            e.children.len() as int,
                            epath,
                        );
                        if sub.1 || node.replace {
                            (cs1.push(NodeView { children: sub.0, ..node }), true)
                        } else {
                            (cs1, h1)
                        }
                    } else {
                        (cs1.push(node), true)
                    }
                },
            }
        }
    }
}

#[via_fn]
proof fn merge_upto_dec(cs: Seq<NodeView>, es: Seq<ModEntryView>, n: int, dpath: Seq<char>) {
    if 0 < n && n <= es.len() {
        assert(decreases_to!(es => es[n - 1]));
        assert(decreases_to!(es[n - 1] => es[n - 1].children));
    }
}

/// Index of the first child of `children` named `name`, or the length.
pub fn child_pos(children: &Vec<Node>, name: &str) -> (r: usize)
    ensures
        r == find_child(node_views(children@), name@),
{
    let ghost cs = node_views(children@);
    proof {
        lemma_node_views(children@);
        lemma_find_child(cs, name@);
    }
    let mut i: usize = 0;
    while i < children.len()
        invariant
            0 <= i <= children.len(),
            cs == node_views(children@),
            cs.len() == children@.len(),
            forall|k: int| 0 <= k < cs.len() ==> cs[k] == node_view(children@[k]),
            forall|k: int| 0 <= k < i ==> cs[k].name != name@,
        decreases children.len() - i,
    {
        if str_eq(children[i].name.as_str(), name) {
            proof {
                lemma_find_child_unique(cs, name@, i as int);
            }
            return i;
        }
        i += 1;
    }
    proof {
        lemma_find_child(cs, name@);
        if find_child(cs, name@) < cs.len() {
            assert(cs[find_child(cs, name@)].name == name@);
        }
    }
    i
}

/// `find_child` returns the unique index whose name matches with none before.
proof fn lemma_find_child_unique(cs: Seq<NodeView>, name: Seq<char>, k: int)
    requires
        0 <= k < cs.len(),
        cs[k].name == name,
        forall|j: int| 0 <= j < k ==> cs[j].name != name,
    ensures
        find_child(cs, name) == k,
    decreases cs.len(),
{
    if cs[0].name == name {
        assert(k == 0);
    } else {
        assert(k >= 1);
        let t = cs.skip(1);
        assert(t[k - 1].name == name);
        assert(forall|j: int| 0 <= j < k - 1 ==> t[j].name != name);
        lemma_find_child_unique(t, name, k - 1);
    }
}

impl Node {
    /// A synthetic directory node with no contribution of its own.
    pub fn new_root(name: &str) -> (r: Node)
        ensures
            node_view(r) == (NodeView {
                name: name@,
                file_type: NodeFileType::Directory,
                children: Seq::empty(),
                source_path: None,
                replace: false,
                skip: false,
            }),
    {
        Node {
            name: name.to_owned(),
            file_type: NodeFileType::Directory,
            children: Vec::new(),
            source_path: None,
            replace: false,
            skip: false,
        }
    }

    /// The node a fresh module entry becomes, or nothing for special files
    /// other than whiteout markers.
    pub fn new_module(e: &ModEntry, path: &str) -> (r: Option<Node>)
        ensures
            match r {
                Some(n) => new_module_spec(mod_view(*e), path@) == Some(node_view(n)),
                None => new_module_spec(mod_view(*e), path@) is None,
            },
    {
        let whiteout = matches!(e.kind, FsKind::CharDev) && e.rdev == 0;
        let ft = if whiteout {
            Some(NodeFileType::Whiteout)
        } else {
            NodeFileType::from_file_type(e.kind)
        };
        match ft {
            None => None,
            Some(t) => {
                let mut replace = false;
                if matches!(t, NodeFileType::Directory) {
                    if let Some(v) = &e.opaque {
                        if v.len() == 1 && v[0] == 121u8 {
                            replace = true;
                        }
                    }
                }
                proof {
                    if replace {
                        assert(mod_view(*e).opaque matches Some(w) && w =~= seq![121u8]);
                    } else {
                        if mod_view(*e).opaque matches Some(w) && w == seq![121u8] {
                            assert(e.opaque matches Some(v) && v@ == seq![121u8]);
                        }
                    }
                }
                Some(
                    Node {
                        name: e.name.clone(),
                        file_type: t,
                        children: Vec::new(),
                        source_path: Some(path.to_owned()),
                        replace,
                        skip: false,
                    },
                )
            },
        }
    }

    /// Merges one module's directory tree `dir` (whose on-disk path is
    /// `dir_path`) into this node's children, returning whether the merged
    /// entries contribute content.
    pub fn collect_module_files(&mut self, dir: &ModEntry, dir_path: &str) -> (r: bool)
        ensures
            final(self).name == old(self).name,
            final(self).file_type == old(self).file_type,
            final(self).source_path == old(self).source_path,
            final(self).replace == old(self).replace,
            final(self).skip == old(self).skip,
            (node_views(final(self).children@), r) == merge_upto(
                node_views(old(self).children@),
                mod_views(dir.children@),
                dir.children@.len() as int,
                dir_path@,
            ),
        decreases dir,
    {
        let ghost cs0 = node_views(old(self).children@);
        let ghost es = mod_views(dir.children@);
        proof {
            lemma_mod_views(dir.children@);
        }
        let mut has_file = false;
        let mut i: usize = 0;
        while i < dir.children.len()
            invariant
                0 <= i <= dir.children.len(),
                es == mod_views(dir.children@),
                es.len() == dir.children@.len(),
                forall|k: int| 0 <= k < es.len() ==> es[k] == mod_view(dir.children@[k]),
                (node_views(self.children@), has_file) == merge_upto(
                    cs0,
                    es,
                    i as int,
                    dir_path@,
                ),
                self.name == old(self).name,
                self.file_type == old(self).file_type,
                self.source_path == old(self).source_path,
                self.replace == old(self).replace,
                self.skip == old(self).skip,
            decreases dir.children.len() - i,
        {
            let ghost cs1 = node_views(self.children@);
            let ghost h1 = has_file;
            let e = &dir.children[i];
            proof {
                assert(mod_view(dir.children@[i as int]).children == mod_views(
                    dir.children@[i as int].children@,
                ));
            }
            let epath = join_path(dir_path, e.name.as_str());
            let idx = child_pos(&self.children, e.name.as_str());
            proof {
                lemma_node_views(self.children@);
                lemma_find_child(cs1, e.name@);
            }
            if idx < self.children.len() {
                let both_dirs = matches!(self.children[idx].file_type, NodeFileType::Directory)
                    && matches!(e.kind, FsKind::Dir);
                if both_dirs {
                    let ghost pre = self.children@;
                    let mut child = self.children.remove(idx);
                    let ghost child0 = child;
                    let sub = child.collect_module_files(e, epath.as_str());
                    has_file = has_file || sub || child.replace;
                    self.children.insert(idx, child);
                    proof {
                        let post = self.children@;
                        pre.remove_ensures(idx as int);
                        assert(post =~= pre.remove(idx as int).insert(idx as int, child));
                        pre.remove(idx as int).insert_ensures(idx as int, child);
                        lemma_node_views(post);
                        lemma_node_views(pre);
                        let c = cs1[idx as int];
                        assert(c == node_view(pre[idx as int]));
                        assert(child0 == pre[idx as int]);
                        assert(c.children == node_views(child0.children@));
                        let eview = mod_view(dir.children@[i as int]);
                        assert(es[i as int] == eview);
                        lemma_mod_views(dir.children@[i as int].children@);
                        assert(eview.children == mod_views(dir.children@[i as int].children@));
                        assert(eview.children.len() == dir.children@[i as int].children@.len());
                        let subm = merge_upto(
                            c.children,
                            eview.children,
                            eview.children.len() as int,
                            epath@,
                        );
                        assert((node_views(child.children@), sub) == subm);
                        let cv = node_view(child);
                        assert(cv.name == c.name);
                        assert(cv.file_type == c.file_type);
                        assert(cv.source_path == c.source_path);
                        assert(cv.replace == c.replace);
                        assert(cv.skip == c.skip);
                        assert(cv.children == subm.0);
                        assert(cv == NodeView { children: subm.0, ..c });
                        assert(node_views(post) =~= cs1.update(idx as int, cv));
                        assert((node_views(post), has_file) == merge_upto(
                            cs0,
                            es,
                            i as int + 1,
                            dir_path@,
                        ));
                    }
                } else if matches!(self.children[idx].file_type, NodeFileType::Directory) {
                    proof {
                        assert((node_views(self.children@), has_file) == merge_upto(
                            cs0,
                            es,
                            i as int + 1,
                            dir_path@,
                        ));
                    }
                } else {
                    has_file = true;
                    proof {
                        assert((node_views(self.children@), has_file) == merge_upto(
                            cs0,
                            es,
                            i as int + 1,
                            dir_path@,
                        ));
                    }
                }
            } else {
                match Node::new_module(e, epath.as_str()) {
                    None => {
                        proof {
                            assert((node_views(self.children@), has_file) == merge_upto(
                                cs0,
                                es,
                                i as int + 1,
                                dir_path@,
                            ));
                        }
                    },
                    Some(mut node) => {
                        if matches!(node.file_type, NodeFileType::Directory) {
                            let ghost fresh = node_view(node);
                            let sub = node.collect_module_files(e, epath.as_str());
                            proof {
                                let eview = mod_view(dir.children@[i as int]);
                                assert(es[i as int] == eview);
                                lemma_mod_views(dir.children@[i as int].children@);
                                assert(eview.children == mod_views(
                                    dir.children@[i as int].children@,
                                ));
                                assert(eview.children.len()
                                    == dir.children@[i as int].children@.len());
                                assert(new_module_spec(eview, epath@) == Some(fresh));
                                assert(fresh.children =~= Seq::<NodeView>::empty());
                                let subm = merge_upto(
                                    Seq::empty(),
                                    eview.children,
                                    eview.children.len() as int,
                                    epath@,
                                );
                                assert((node_views(node.children@), sub) == subm);
                                assert(node.replace == fresh.replace);
                            }
                            if sub || node.replace {
                                let ghost merged = node_view(node);
                                self.children.push(node);
                                has_file = true;
                                proof {
                                    let post = self.children@;
                                    lemma_node_views(post);
                                    let eview = mod_view(dir.children@[i as int]);
                                    let subm = merge_upto(
                                        Seq::empty(),
                                        eview.children,
                                        eview.children.len() as int,
                                        epath@,
                                    );
                                    assert(merged.name == fresh.name);
                                    assert(merged.file_type == fresh.file_type);
                                    assert(merged.source_path == fresh.source_path);
                                    assert(merged.replace == fresh.replace);
                                    assert(merged.skip == fresh.skip);
                                    assert(merged.children == subm.0);
                                    assert(merged == NodeView { children: subm.0, ..fresh });
                                    assert(node_views(post) =~= cs1.push(merged));
                                    assert((node_views(post), has_file) == merge_upto(
                                        cs0,
                                        es,
                                        i as int + 1,
                                        dir_path@,
                                    ));
                                }
                            } else {
                                proof {
                                    assert((node_views(self.children@), has_file)
                                        == merge_upto(cs0, es, i as int + 1, dir_path@));
                                }
                            }
                        } else {
                            let ghost fresh = node_view(node);
                            self.children.push(node);
                            has_file = true;
                            proof {
                                let post = self.children@;
                                lemma_node_views(post);
                                assert(node_views(post) =~= cs1.push(fresh));
                                assert((node_views(post), has_file) == merge_upto(
                                    cs0,
                                    es,
                                    i as int + 1,
                                    dir_path@,
                                ));
                            }
                        }
                    },
                }
            }
            i += 1;
        }
        has_file
    }
}

} // verus!
