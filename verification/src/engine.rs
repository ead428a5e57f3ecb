//! The magic-mount engine: given the overlay tree and a snapshot of the
//! stock filesystem, it plans the tmpfs skeletons, bind mounts, symlink
//! clones and move-mounts that realise the composed view.

use vstd::prelude::*;

use crate::model::{FsEntry, FsEntryView, FsKind, ModuleInfo, PartitionProbe, fs_view, fs_views, lemma_fs_views};
use crate::node::{Node, NodeView, NodeFileType, node_view, node_type_of, child_pos, find_child, lemma_find_child};
use crate::plan::{MountOp, OpView, EngineError, ErrView, op_view, op_views, err_view, err_views, lemma_op_views_push, lemma_err_views_push};
use crate::strutil::{joined, join_path};

verus! {

/// Index of the first stock entry with the given name, or `cs.len()`.
pub open spec fn find_fs(cs: Seq<FsEntryView>, name: Seq<char>) -> int
    decreases cs.len(),
{
    if cs.len() == 0 {
        0
    } else if cs[0].name == name {
        0
    } else {
        1 + find_fs(cs.skip(1), name)
    }
}

pub proof fn lemma_find_fs(cs: Seq<FsEntryView>, name: Seq<char>)
    ensures
        0 <= find_fs(cs, name) <= cs.len(),
        find_fs(cs, name) < cs.len() ==> cs[find_fs(cs, name)].name == name,
        forall|k: int| 0 <= k < find_fs(cs, name) ==> cs[k].name != name,
    decreases cs.len(),
{
    if cs.len() == 0 {
    } else if cs[0].name == name {
    } else {
        lemma_find_fs(cs.skip(1), name);
        assert forall|k: int| 0 <= k < find_fs(cs, name) implies cs[k].name != name by {
            if k >= 1 {
                assert(cs.skip(1)[k - 1].name != name);
            }
        }
    }
}

proof fn lemma_find_fs_unique(cs: Seq<FsEntryView>, name: Seq<char>, k: int)
    requires
        0 <= k < cs.len(),
        cs[k].name == name,
        forall|j: int| 0 <= j < k ==> cs[j].name != name,
    ensures
        find_fs(cs, name) == k,
    decreases cs.len(),
{
    if cs[0].name == name {
        assert(k == 0);
    } else {
        assert(k >= 1);
        let t = cs.skip(1);
        assert(t[k - 1].name == name);
        assert(forall|j: int| 0 <= j < k - 1 ==> t[j].name != name);
        lemma_find_fs_unique(t, name, k - 1);
    }
}

/// Index of the first stock entry of `children` named `name`, or the length.
pub fn fs_child_pos(children: &Vec<FsEntry>, name: &str) -> (r: usize)
    ensures
        r == find_fs(fs_views(children@), name@),
{
    let ghost cs = fs_views(children@);
    proof {
        lemma_fs_views(children@);
        lemma_find_fs(cs, name@);
    }
    let mut i: usize = 0;
    while i < children.len()
        invariant
            0 <= i <= children.len(),
            cs == fs_views(children@),
            cs.len() == children@.len(),
            forall|k: int| 0 <= k < cs.len() ==> cs[k] == fs_view(children@[k]),
            forall|k: int| 0 <= k < i ==> cs[k].name != name@,
        decreases children.len() - i,
    {
        if crate::strutil::str_eq(children[i].name.as_str(), name) {
            proof {
                lemma_find_fs_unique(cs, name@, i as int);
            }
            return i;
        }
        i += 1;
    }
    proof {
        if find_fs(cs, name@) < cs.len() {
            assert(cs[find_fs(cs, name@)].name == name@);
        }
    }
    i
}

/// The node kind a stock entry shadows: special files act like whiteouts.
pub open spec fn stock_type(k: FsKind) -> NodeFileType {
    match node_type_of(k) {
        Some(t) => t,
        None => NodeFileType::Whiteout,
    }
}

/// Whether the child node `c` can only be realised through a tmpfs skeleton
/// in its parent, whose stock entries are `sc`: symlinks always; whiteouts
/// when the stock entry they hide exists; files and directories when the
/// stock counterpart is missing, of another kind, or a symlink.
pub open spec fn child_needs_tmpfs(sc: Seq<FsEntryView>, c: NodeView) -> bool {
    if c.file_type == NodeFileType::Symlink {
        true
    } else if c.file_type == NodeFileType::Whiteout {
        find_fs(sc, c.name) < sc.len()
    } else {
        let i = find_fs(sc, c.name);
        if i < sc.len() {
            stock_type(sc[i].kind) != c.file_type || stock_type(sc[i].kind)
                == NodeFileType::Symlink
        } else {
            true
        }
    }
}

/// The stock entries of the directory the node stands at: none unless the
/// stock entry exists (and, being a non-directory, it has none).
pub open spec fn stock_children(stock: Option<FsEntryView>) -> Seq<FsEntryView> {
    match stock {
        Some(s) => s.children,
        None => Seq::empty(),
    }
}

/// Whether a directory node creates its own tmpfs skeleton: it must have a
/// contributing module directory, and either be opaque or hold a child that
/// needs a tmpfs.
pub open spec fn dir_makes_tmpfs(
    sc: Seq<FsEntryView>,
    n: NodeView,
    has_tmpfs: bool,
) -> bool {
    &&& !has_tmpfs
    &&& n.source_path is Some
    &&& (n.replace || exists|i: int| 0 <= i < n.children.len() && child_needs_tmpfs(sc, n.children[i]))
}

/// Runtime check matching [`child_needs_tmpfs`].
pub fn child_needs_tmpfs_exec(sc: &Vec<FsEntry>, c: &Node) -> (r: bool)
    ensures
        r == child_needs_tmpfs(fs_views(sc@), node_view(*c)),
{
    proof {
        lemma_fs_views(sc@);
        lemma_find_fs(fs_views(sc@), c.name@);
    }
    match c.file_type {
        NodeFileType::Symlink => true,
        NodeFileType::Whiteout => fs_child_pos(sc, c.name.as_str()) < sc.len(),
        _ => {
            let i = fs_child_pos(sc, c.name.as_str());
            if i < sc.len() {
                let st = match NodeFileType::from_file_type(sc[i].kind) {
                    Some(t) => t,
                    None => NodeFileType::Whiteout,
                };
                !matches!(
                    (st, c.file_type),
                    (NodeFileType::RegularFile, NodeFileType::RegularFile)
                    | (NodeFileType::Directory, NodeFileType::Directory)
                )
            } else {
                true
            }
        },
    }
}

/// The operations that mirror one stock entry `e` (whose parent is `pp` on
/// disk and `pw` in the skeleton) into the tmpfs skeleton: files are bound,
/// directories are rebuilt with their attributes and mirrored recursively,
/// symlinks are cloned, and special files are ignored.
pub open spec fn mirror_ops(e: FsEntryView, pp: Seq<char>, pw: Seq<char>) -> Seq<OpView>
    decreases e, 0int,
    via mirror_ops_dec
{
    let p = joined(pp, e.name);
    let w = joined(pw, e.name);
    match e.kind {
        FsKind::File => seq![
            OpView::CreateFile { target: w },
            OpView::BindMount { source: p, target: w },
        ],
        FsKind::Dir => seq![
            OpView::CreateDir { target: w },
            OpView::CloneAttrs { source: p, target: w },
        ] + mirror_kids(e.children, p, w, e.children.len() as int),
        FsKind::Symlink => seq![OpView::CloneSymlink { source: p, target: w }],
        _ => Seq::empty(),
    }
}

/// The operations that mirror the first `k` entries of `cs`.
pub open spec fn mirror_kids(cs: Seq<FsEntryView>, p: Seq<char>, w: Seq<char>, k: int) -> Seq<
    OpView,
>
    decreases cs, k,
    via mirror_kids_dec
{
    if k <= 0 || k > cs.len() {
        Seq::empty()
    } else {
        mirror_kids(cs, p, w, k - 1) + mirror_ops(cs[k - 1], p, w)
    }
}

#[via_fn]
proof fn mirror_ops_dec(e: FsEntryView, pp: Seq<char>, pw: Seq<char>) {
    assert(decreases_to!(e => e.children));
}

#[via_fn]
proof fn mirror_kids_dec(cs: Seq<FsEntryView>, p: Seq<char>, w: Seq<char>, k: int) {
    if 0 < k <= cs.len() {
        assert(decreases_to!(cs => cs[k - 1]));
    }
}

/// Plans the mirroring of the stock entry `e` into the skeleton: `pp` is the
/// on-disk parent directory, `pw` its counterpart inside the skeleton.
pub fn mount_mirror(e: &FsEntry, pp: &str, pw: &str, ops: &mut Vec<MountOp>)
    ensures
        op_views(final(ops)@) == op_views(old(ops)@) + mirror_ops(fs_view(*e), pp@, pw@),
        final(ops)@.len() >= old(ops)@.len(),
        final(ops)@.take(old(ops)@.len() as int) == old(ops)@,
        forall|q: int|
            old(ops)@.len() <= q < final(ops)@.len() ==> !(final(ops)@[q] is UnmountDetach),
    decreases *e,
{
    let ghost start = old(ops)@;
    let ghost base = op_views(old(ops)@);
    let p = join_path(pp, e.name.as_str());
    let w = join_path(pw, e.name.as_str());
    match e.kind {
        FsKind::File => {
            let ghost o0 = ops@;
            ops.push(MountOp::CreateFile { target: w.clone() });
            proof {
                lemma_op_views_push(o0, MountOp::CreateFile { target: w });
            }
            let ghost o1 = ops@;
            ops.push(MountOp::BindMount { source: p, target: w });
            proof {
                lemma_op_views_push(o1, ops@.last());
                assert(op_views(ops@) =~= base + mirror_ops(fs_view(*e), pp@, pw@));
            }
        },
        FsKind::Dir => {
            let ghost o0 = ops@;
            ops.push(MountOp::CreateDir { target: w.clone() });
            proof {
                lemma_op_views_push(o0, MountOp::CreateDir { target: w });
            }
            let ghost o1 = ops@;
            ops.push(MountOp::CloneAttrs { source: p.clone(), target: w.clone() });
            proof {
                lemma_op_views_push(o1, MountOp::CloneAttrs { source: p, target: w });
                lemma_fs_views(e.children@);
            }
            let ghost ev = fs_view(*e);
            let ghost head = base + seq![
                OpView::CreateDir { target: joined(pw@, e.name@) },
                OpView::CloneAttrs {
                    source: joined(pp@, e.name@),
                    target: joined(pw@, e.name@),
                },
            ];
            proof {
                assert(op_views(ops@) =~= head);
                assert(op_views(ops@) =~= head + mirror_kids(ev.children, p@, w@, 0));
            }
            let mut k: usize = 0;
            while k < e.children.len()
                invariant
                    0 <= k <= e.children.len(),
                    ev == fs_view(*e),
                    ev.children == fs_views(e.children@),
                    ev.children.len() == e.children@.len(),
                    forall|j: int|
                        0 <= j < e.children@.len() ==> ev.children[j] == fs_view(
                            e.children@[j],
                        ),
                    p@ == joined(pp@, e.name@),
                    w@ == joined(pw@, e.name@),
                    op_views(ops@) == head + mirror_kids(ev.children, p@, w@, k as int),
                    ops@.len() >= start.len(),
                    ops@.take(start.len() as int) == start,
                    forall|q: int|
                        start.len() <= q < ops@.len() ==> !(ops@[q] is UnmountDetach),
                decreases e.children.len() - k,
            {
                let ghost before = ops@;
                proof {
                    assert(decreases_to!(e.children => e.children[k as int]));
                }
                mount_mirror(&e.children[k], p.as_str(), w.as_str(), ops);
                proof {
                    assert(op_views(ops@) =~= head + mirror_kids(
                        ev.children,
                        p@,
                        w@,
                        k as int + 1,
                    ));
                    assert(ops@.take(start.len() as int) =~= start) by {
                        assert(ops@.take(before.len() as int) == before);
                        assert forall|q: int| 0 <= q < start.len() implies ops@[q] == start[q] by {
                            assert(ops@.take(before.len() as int)[q] == before[q]);
                            assert(before.take(start.len() as int)[q] == start[q]);
                        }
                    }
                    assert forall|q: int| start.len() <= q < ops@.len() implies !(ops@[q]
                        is UnmountDetach) by {
                        if q < before.len() {
                            assert(ops@.take(before.len() as int)[q] == before[q]);
                        }
                    }
                }
                k += 1;
            }
            proof {
                assert(op_views(ops@) =~= base + mirror_ops(ev, pp@, pw@));
            }
        },
        FsKind::Symlink => {
            let ghost o0 = ops@;
            ops.push(MountOp::CloneSymlink { source: p, target: w });
            proof {
                lemma_op_views_push(o0, ops@.last());
                assert(op_views(ops@) =~= base + mirror_ops(fs_view(*e), pp@, pw@));
            }
        },
        _ => {
            proof {
                assert(op_views(ops@) =~= base + mirror_ops(fs_view(*e), pp@, pw@));
            }
        },
    }
}

/// Ghost mirror of an optional stock entry reference.
pub open spec fn opt_fs_view(stock: Option<&FsEntry>) -> Option<FsEntryView> {
    match stock {
        Some(s) => Some(fs_view(*s)),
        None => None,
    }
}

/// A vector of `n` `false` flags.
fn bool_flags(n: usize) -> (v: Vec<bool>)
    ensures
        v@.len() == n,
        forall|i: int| 0 <= i < n ==> !v@[i],
{
    let mut v: Vec<bool> = Vec::new();
    let mut i: usize = 0;
    while i < n
        invariant
            0 <= i <= n,
            v@.len() == i,
            forall|k: int| 0 <= k < i ==> !v@[k],
        decreases n - i,
    {
        v.push(false);
        i += 1;
    }
    v
}

/// Plans the composition of `node` at `joined(parent_path, node.name)`.
///
/// `stock` is the snapshot of the stock entry at that position, if any;
/// `parent_work` is the parent's counterpart inside the work tmpfs, and
/// `has_tmpfs` says whether an ancestor already provides a skeleton. The
/// planned operations are appended to `ops`; errors of children outside a
/// skeleton are recorded in `warnings` and planning continues, while inside
/// a skeleton they abort the subtree, as the error policy demands.
#[verifier::loop_isolation(false)]
#[verifier::rlimit(100)]
pub fn do_magic_mount(
    stock: Option<&FsEntry>,
    parent_path: &str,
    parent_work: &str,
    node: &Node,
    has_tmpfs: bool,
    ops: &mut Vec<MountOp>,
    warnings: &mut Vec<EngineError>,
) -> (r: Result<(), EngineError>)
    requires
        match stock {
            Some(s) => fs_names_ok(fs_view(*s)),
            None => true,
        },
    ensures
        final(ops)@.len() >= old(ops)@.len(),
        final(ops)@.take(old(ops)@.len() as int) == old(ops)@,
        forall|q: int|
            old(ops)@.len() <= q < final(ops)@.len() ==> !(final(ops)@[q] is UnmountDetach),
        ({
            let o = magic_spec(
                opt_fs_view(stock),
                parent_path@,
                parent_work@,
                node_view(*node),
                has_tmpfs,
            );
            &&& op_views(final(ops)@) == op_views(old(ops)@) + o.ops
            &&& err_views(final(warnings)@) == err_views(old(warnings)@) + o.warns
            &&& (match r {
                Ok(u) => o.err is None,
                Err(e) => o.err == Some(err_view(e)),
            })
        }),
    decreases *node, 2int,
{
    let ghost base = old(ops)@;
    let ghost b = old(ops)@.len() as int;
    let ghost bv = op_views(old(ops)@);
    let ghost ew0 = err_views(old(warnings)@);
    let ghost nv = node_view(*node);
    let ghost o = magic_spec(opt_fs_view(stock), parent_path@, parent_work@, nv, has_tmpfs);
    let path = join_path(parent_path, node.name.as_str());
    let work = join_path(parent_work, node.name.as_str());
    match node.file_type {
        NodeFileType::RegularFile => {
            match &node.source_path {
                Some(sp) => {
                    if has_tmpfs {
                        let ghost o0 = ops@;
                        ops.push(MountOp::CreateFile { target: work.clone() });
                        let ghost o1 = ops@;
                        ops.push(MountOp::BindMount { source: sp.clone(), target: work });
                        proof {
                            assert(ops@.take(b) =~= base);
                            lemma_op_views_push(o0, o1.last());
                            lemma_op_views_push(o1, ops@.last());
                            assert(op_views(ops@) =~= bv + o.ops);
                            assert(err_views(warnings@) =~= ew0 + o.warns);
                        }
                    } else {
                        let ghost o0 = ops@;
                        ops.push(MountOp::BindMount { source: sp.clone(), target: path });
                        proof {
                            assert(ops@.take(b) =~= base);
                            lemma_op_views_push(o0, ops@.last());
                            assert(op_views(ops@) =~= bv + o.ops);
                            assert(err_views(warnings@) =~= ew0 + o.warns);
                        }
                    }
                    Ok(())
                },
                None => {
                    proof {
                        assert(op_views(ops@) =~= bv + o.ops);
                        assert(err_views(warnings@) =~= ew0 + o.warns);
                    }
                    Err(EngineError::RootFile { path })
                },
            }
        },
        NodeFileType::Symlink => {
            match &node.source_path {
                Some(sp) => {
                    let ghost o0 = ops@;
                    ops.push(MountOp::CloneSymlink { source: sp.clone(), target: work });
                    proof {
                        assert(ops@.take(b) =~= base);
                        lemma_op_views_push(o0, ops@.last());
                        assert(op_views(ops@) =~= bv + o.ops);
                        assert(err_views(warnings@) =~= ew0 + o.warns);
                    }
                    Ok(())
                },
                None => {
                    proof {
                        assert(op_views(ops@) =~= bv + o.ops);
                        assert(err_views(warnings@) =~= ew0 + o.warns);
                    }
                    Err(EngineError::RootSymlink { path })
                },
            }
        },
        NodeFileType::Whiteout => {
            proof {
                assert(ops@.take(b) =~= base);
                assert(op_views(ops@) =~= bv + o.ops);
                assert(err_views(warnings@) =~= ew0 + o.warns);
            }
            Ok(())
        },
        NodeFileType::Directory => plan_dir(
            stock,
            parent_path,
            parent_work,
            node,
            has_tmpfs,
            ops,
            warnings,
        ),
    }
}

/// Plans the composition of a directory node; the directory arm of
/// [`do_magic_mount`], with the same contract.
#[verifier::loop_isolation(false)]
#[verifier::rlimit(100)]
fn plan_dir(
    stock: Option<&FsEntry>,
    parent_path: &str,
    parent_work: &str,
    node: &Node,
    has_tmpfs: bool,
    ops: &mut Vec<MountOp>,
    warnings: &mut Vec<EngineError>,
) -> (r: Result<(), EngineError>)
    requires
        node.file_type == NodeFileType::Directory,
        match stock {
            Some(s) => fs_names_ok(fs_view(*s)),
            None => true,
        },
    ensures
        final(ops)@.len() >= old(ops)@.len(),
        final(ops)@.take(old(ops)@.len() as int) == old(ops)@,
        forall|q: int|
            old(ops)@.len() <= q < final(ops)@.len() ==> !(final(ops)@[q] is UnmountDetach),
        ({
            let o = magic_spec(
                opt_fs_view(stock),
                parent_path@,
                parent_work@,
                node_view(*node),
                has_tmpfs,
            );
            &&& op_views(final(ops)@) == op_views(old(ops)@) + o.ops
            &&& err_views(final(warnings)@) == err_views(old(warnings)@) + o.warns
            &&& (match r {
                Ok(u) => o.err is None,
                Err(e) => o.err == Some(err_view(e)),
            })
        }),
    decreases *node, 1int,
{
    let ghost base = old(ops)@;
    let ghost b = old(ops)@.len() as int;
    let ghost bv = op_views(old(ops)@);
    let ghost ew0 = err_views(old(warnings)@);
    let ghost nv = node_view(*node);
    let ghost o = magic_spec(opt_fs_view(stock), parent_path@, parent_work@, nv, has_tmpfs);
    let path = join_path(parent_path, node.name.as_str());
    let work = join_path(parent_work, node.name.as_str());
    let empty_stock: Vec<FsEntry> = Vec::new();
    let scv: &Vec<FsEntry> = match stock {
        Some(s) => &s.children,
        None => &empty_stock,
    };
    let ghost sc = stock_children(opt_fs_view(stock));
    proof {
        assert(fs_views(empty_stock@) =~= Seq::<FsEntryView>::empty());
        assert(fs_views(scv@) == sc);
        lemma_fs_views(scv@);
        crate::node::lemma_node_views(node.children@);
    }
    let n = node.children.len();
    proof {
        assert(nv.children.len() == n);
    }
    let mut skiploc = bool_flags(n);
    let mut creates = !has_tmpfs && node.replace && node.source_path.is_some();
    if !has_tmpfs && !creates {
        let mut j: usize = 0;
        while j < n && !creates
            invariant
                0 <= j <= n,
                skiploc@.len() == n,
                !has_tmpfs,
                !(node.replace && node.source_path is Some),
                node.source_path is None ==> !creates,
                node.source_path is Some ==> warnings@ == old(warnings)@,
                node.source_path is Some ==> forall|k: int| 0 <= k < n ==> !skiploc@[k],
                !creates ==> forall|k: int|
                    0 <= k < j ==> (child_needs_tmpfs(sc, nv.children[k])
                        ==> node.source_path is None),
                !creates ==> forall|k: int|
                    0 <= k < j && node.source_path is None ==> skiploc@[k]
                        == child_needs_tmpfs(sc, nv.children[k]),
                forall|k: int|
                    0 <= k < n && skiploc@[k] ==> child_needs_tmpfs(sc, nv.children[k]),
                forall|k: int| j <= k < n ==> !skiploc@[k],
                creates ==> dir_makes_tmpfs(sc, nv, has_tmpfs),
                err_views(warnings@) == err_views(old(warnings)@) + skip_warns(
                    sc,
                    nv,
                    has_tmpfs,
                    path@,
                    j as int,
                ),
            decreases n - j + (if creates {
                0int
            } else {
                1int
            }),
        {
            let need = child_needs_tmpfs_exec(scv, &node.children[j]);
            if need {
                if node.source_path.is_none() {
                    skiploc.set(j, true);
                    let ghost wv0 = warnings@;
                    warnings.push(
                        EngineError::SkippedChild {
                            path: path.clone(),
                            name: node.children[j].name.clone(),
                        },
                    );
                    proof {
                        lemma_err_views_push(wv0, warnings@.last());
                        assert(marked(sc, nv, has_tmpfs, j as int));
                        assert(err_views(warnings@) =~= ew0 + skip_warns(
                            sc,
                            nv,
                            has_tmpfs,
                            path@,
                            j as int + 1,
                        ));
                    }
                    j += 1;
                } else {
                    proof {
                        assert(child_needs_tmpfs(sc, nv.children[j as int]));
                        assert(node.source_path is Some);
                        assert(nv.source_path is Some);
                    }
                    creates = true;
                }
            } else {
                proof {
                    assert(!marked(sc, nv, has_tmpfs, j as int));
                    assert(err_views(warnings@) =~= ew0 + skip_warns(
                        sc,
                        nv,
                        has_tmpfs,
                        path@,
                        j as int + 1,
                    ));
                }
                j += 1;
            }
        }
        proof {
            if node.source_path is None {
                assert(!creates);
                assert(j == n);
            }
        }
    }
    let ghost w0 = skip_warns(sc, nv, has_tmpfs, path@, n as int);
    proof {
        assert(creates == dir_makes_tmpfs(sc, nv, has_tmpfs));
        assert(forall|k: int| 0 <= k < n ==> skiploc@[k] == marked(sc, nv, has_tmpfs, k));
        if has_tmpfs || nv.source_path is Some {
            lemma_skip_warns_empty(sc, nv, has_tmpfs, path@, n as int);
            assert(warnings@ == old(warnings)@);
            assert(err_views(warnings@) =~= ew0 + w0);
        }
        assert(err_views(warnings@) == ew0 + w0);
    }
    let tf = has_tmpfs || creates;
    if tf {
        let ghost o0 = ops@;
        ops.push(MountOp::CreateDirAll { target: work.clone() });
        proof {
            lemma_op_views_push(o0, ops@.last());
        }
        let meta_done = match stock {
            Some(_) => {
                let ghost o1 = ops@;
                ops.push(MountOp::CloneAttrs { source: path.clone(), target: work.clone() });
                proof {
                    lemma_op_views_push(o1, ops@.last());
                }
                true
            },
            None => {
                match &node.source_path {
                    Some(sp) => {
                        let ghost o1 = ops@;
                        ops.push(
                            MountOp::CloneAttrs { source: sp.clone(), target: work.clone() },
                        );
                        proof {
                            lemma_op_views_push(o1, ops@.last());
                        }
                        true
                    },
                    None => false,
                }
            },
        };
        if !meta_done {
            proof {
                assert(ops@.take(b) =~= base);
                assert(op_views(ops@) =~= bv + o.ops);
                assert(err_views(warnings@) =~= ew0 + o.warns);
            }
            return Err(EngineError::RootDir { path });
        }
    }
    if creates {
        let ghost o2 = ops@;
        ops.push(MountOp::BindSelf { target: work.clone() });
        proof {
            lemma_op_views_push(o2, ops@.last());
        }
    }
    proof {
        assert(ops@.take(b) =~= base);
    }
    let ghost hdr = ops@;
    let ghost hdr_ops = op_views(hdr).skip(b);
    proof {
        assert(op_views(hdr) =~= bv + hdr_ops);
        if tf {
            assert(hdr_ops =~= seq![
                OpView::CreateDirAll { target: work@ },
                OpView::CloneAttrs {
                    source: if stock is Some {
                        path@
                    } else {
                        nv.source_path.unwrap()
                    },
                    target: work@,
                },
            ] + (if creates {
                seq![OpView::BindSelf { target: work@ }]
            } else {
                Seq::<OpView>::empty()
            }));
        } else {
            assert(hdr_ops =~= Seq::<OpView>::empty());
        }
    }
    let mut consumed = bool_flags(n);
    if let Some(s) = stock {
        if !node.replace {
            let ghost obef = ops@;
            let ghost wbef = warnings@;
            let res = stock_pass_exec(
                s,
                path.as_str(),
                work.as_str(),
                node,
                tf,
                has_tmpfs,
                &skiploc,
                &mut consumed,
                ops,
                warnings,
            );
            proof {
                assert(obef.take(hdr.len() as int) =~= hdr);
                lemma_take_chain(ops@, obef, hdr, base, b);
            }
            if let Err(e) = res {
                proof {
                    let ph1x = stock_pass(sc, nv, path@, work@, tf, has_tmpfs, sc.len() as int);
                    assert(o.ops =~= hdr_ops + ph1x.ops);
                    assert(op_views(ops@) =~= bv + o.ops);
                    assert(o.warns =~= w0 + ph1x.warns);
                    assert(err_views(warnings@) =~= ew0 + o.warns);
                    assert(o.err == Some(err_view(e)));
                }
                return Err(e);
            }
        }
    }
    let ghost ph1 = if opt_fs_view(stock) is Some && !nv.replace {
        stock_pass(sc, nv, path@, work@, tf, has_tmpfs, sc.len() as int)
    } else {
        PlanTrace { ops: Seq::empty(), warns: Seq::empty(), err: None }
    };
    proof {
        assert(ph1.err is None);
        assert(op_views(ops@) =~= (bv + hdr_ops) + ph1.ops);
        assert(err_views(warnings@) =~= (ew0 + w0) + ph1.warns);
        assert(forall|idx: int|
            0 <= idx < n ==> (consumed@[idx] <==> (opt_fs_view(stock) is Some && !nv.replace
                && stock_matched(sc, nv.children, idx))));
    }
    if node.replace {
        if node.source_path.is_none() {
            proof {
                assert(ops@.take(ops@.len() as int) =~= ops@);
                lemma_take_chain(ops@, ops@, hdr, base, b);
                assert(o.ops =~= hdr_ops + ph1.ops);
                assert(op_views(ops@) =~= bv + o.ops);
                assert(o.warns =~= w0 + ph1.warns);
                assert(err_views(warnings@) =~= ew0 + o.warns);
            }
            return Err(EngineError::ReplacedRoot { path });
        }
    }
    let ghost obef2 = ops@;
    proof {
        assert(hdr.take(hdr.len() as int) =~= hdr);
        assert(obef2.take(hdr.len() as int) == hdr);
    }
    let res2 = child_pass_exec(
        stock,
        path.as_str(),
        work.as_str(),
        node,
        tf,
        has_tmpfs,
        &skiploc,
        &consumed,
        ops,
        warnings,
    );
    proof {
        assert(hdr.take(hdr.len() as int) =~= hdr);
        assert(obef2.take(hdr.len() as int) == hdr);
        lemma_take_chain(ops@, obef2, hdr, base, b);
    }
    let ghost ph2f = child_pass(
        sc,
        opt_fs_view(stock) is Some,
        nv,
        path@,
        work@,
        tf,
        has_tmpfs,
        n as int,
    );
    if let Err(e) = res2 {
        proof {
            assert(o.ops =~= (hdr_ops + ph1.ops) + ph2f.ops);
            assert(op_views(ops@) =~= bv + o.ops);
            assert(o.warns =~= (w0 + ph1.warns) + ph2f.warns);
            assert(err_views(warnings@) =~= ew0 + o.warns);
            assert(o.err == Some(err_view(e)));
        }
        return Err(e);
    }
    if creates {
        let ghost o3 = ops@;
        ops.push(MountOp::MoveMount { source: work, target: path.clone() });
        let ghost o4 = ops@;
        ops.push(MountOp::MakePrivate { target: path });
        proof {
            lemma_op_views_push(o3, o4.last());
            lemma_op_views_push(o4, ops@.last());
        }
    }
    proof {
        assert(ops@.take(b) =~= base);
        assert(o.ops =~= ((hdr_ops + ph1.ops) + ph2f.ops) + (if creates {
            seq![
                OpView::MoveMount { source: work@, target: path@ },
                OpView::MakePrivate { target: path@ },
            ]
        } else {
            Seq::<OpView>::empty()
        }));
        assert(op_views(ops@) =~= bv + o.ops);
        assert(o.warns =~= (w0 + ph1.warns) + ph2f.warns);
        assert(err_views(warnings@) =~= ew0 + o.warns);
        assert(o.err is None);
    }
    Ok(())
}

/// The stock-driven pass: walks the stock entries of a directory being
/// composed, recursing into matching children and mirroring the rest into
/// the skeleton; `consumed` records which children a stock entry claimed.
#[verifier::loop_isolation(false)]
#[verifier::rlimit(100)]
fn stock_pass_exec(
    s: &FsEntry,
    path: &str,
    work: &str,
    node: &Node,
    tf: bool,
    has_tmpfs: bool,
    skiploc: &Vec<bool>,
    consumed: &mut Vec<bool>,
    ops: &mut Vec<MountOp>,
    warnings: &mut Vec<EngineError>,
) -> (r: Result<(), EngineError>)
    requires
        fs_names_ok(fs_view(*s)),
        node.file_type == NodeFileType::Directory,
        !node.replace,
        skiploc@.len() == node.children@.len(),
        forall|k: int|
            0 <= k < skiploc@.len() ==> skiploc@[k] == marked(
                fs_view(*s).children,
                node_view(*node),
                has_tmpfs,
                k,
            ),
        old(consumed)@.len() == node.children@.len(),
        forall|idx: int| 0 <= idx < old(consumed)@.len() ==> !old(consumed)@[idx],
    ensures
        final(ops)@.len() >= old(ops)@.len(),
        final(ops)@.take(old(ops)@.len() as int) == old(ops)@,
        forall|q: int|
            old(ops)@.len() <= q < final(ops)@.len() ==> !(final(ops)@[q] is UnmountDetach),
        final(consumed)@.len() == node.children@.len(),
        ({
            let sc = fs_view(*s).children;
            let ph = stock_pass(
                sc,
                node_view(*node),
                path@,
                work@,
                tf,
                has_tmpfs,
                sc.len() as int,
            );
            &&& op_views(final(ops)@) == op_views(old(ops)@) + ph.ops
            &&& err_views(final(warnings)@) == err_views(old(warnings)@) + ph.warns
            &&& (match r {
                Ok(u) => ph.err is None && (forall|idx: int|
                    0 <= idx < node.children@.len() ==> (final(consumed)@[idx]
                        <==> stock_matched(sc, node_view(*node).children, idx))),
                Err(e) => ph.err == Some(err_view(e)),
            })
        }),
    decreases *node, 0int,
{
    let ghost base = old(ops)@;
    let ghost b = old(ops)@.len() as int;
    let ghost bv = op_views(old(ops)@);
    let ghost ew0 = err_views(old(warnings)@);
    let ghost nv = node_view(*node);
    let ghost sc = fs_view(*s).children;
    let n = node.children.len();
    proof {
        lemma_fs_views(s.children@);
        crate::node::lemma_node_views(node.children@);
        assert(sc == fs_views(s.children@));
        assert(nv.children.len() == n);
        assert(fs_unique(sc));
        assert(base.take(b) =~= base);
    }
    let mut k: usize = 0;
    while k < s.children.len()
        invariant
            0 <= k <= s.children.len(),
            consumed@.len() == n,
            ops@.len() >= base.len(),
            ops@.take(base.len() as int) == base,
            forall|q: int| b <= q < ops@.len() ==> !(ops@[q] is UnmountDetach),
            stock_pass(sc, nv, path@, work@, tf, has_tmpfs, k as int).err is None,
            op_views(ops@) == bv + stock_pass(sc, nv, path@, work@, tf, has_tmpfs, k as int).ops,
            err_views(warnings@) == ew0 + stock_pass(
                sc,
                nv,
                path@,
                work@,
                tf,
                has_tmpfs,
                k as int,
            ).warns,
            forall|idx: int|
                0 <= idx < n ==> (consumed@[idx] <==> matched_upto(sc, nv.children, k as int, idx)),
        decreases s.children.len() - k,
    {
        let ghost before = ops@;
        let ghost ph = stock_pass(sc, nv, path@, work@, tf, has_tmpfs, k as int);
        let se = &s.children[k];
        proof {
            assert(sc[k as int] == fs_view(*se));
        }
        let ci = child_pos(&node.children, se.name.as_str());
        let mut stepped = false;
        proof {
            lemma_find_child(nv.children, sc[k as int].name);
        }
        if ci < n {
            proof {
                assert(!consumed@[ci as int]) by {
                    if matched_upto(sc, nv.children, k as int, ci as int) {
                        let k2 = choose|k2: int|
                            0 <= k2 < k && find_child(
                                nv.children,
                                (#[trigger] sc[k2]).name,
                            ) == ci as int;
                        lemma_find_child(nv.children, sc[k2].name);
                        assert(nv.children[ci as int].name == sc[k2].name);
                        assert(nv.children[ci as int].name == sc[k as int].name);
                        assert(sc[k2].name == sc[k as int].name);
                    }
                }
            }
            if !consumed[ci] {
                stepped = true;
                consumed.set(ci, true);
                proof {
                    assert forall|idx: int| 0 <= idx < n implies (consumed@[idx]
                        <==> matched_upto(sc, nv.children, k as int + 1, idx)) by {
                        if idx == ci as int {
                            assert(find_child(nv.children, (sc[k as int]).name) == idx);
                        } else {
                            if matched_upto(sc, nv.children, k as int + 1, idx) {
                                let k2 = choose|k2: int|
                                    0 <= k2 < k as int + 1 && find_child(
                                        nv.children,
                                        (#[trigger] sc[k2]).name,
                                    ) == idx;
                                assert(k2 < k as int);
                            }
                        }
                    }
                }
                let sk = node.children[ci].skip || skiploc[ci];
                proof {
                    assert(sk == child_skipped(sc, nv, has_tmpfs, ci as int));
                }
                if !sk {
                    proof {
                        assert(decreases_to!(node.children => node.children[ci as int]));
                        assert(fs_view(*s).children[k as int] == sc[k as int]);
                        assert(fs_names_ok(sc[k as int]));
                    }
                    let res = do_magic_mount(
                        Some(se),
                        path,
                        work,
                        &node.children[ci],
                        tf,
                        ops,
                        warnings,
                    );
                    let ghost c = magic_spec(
                        Some(sc[k as int]),
                        path@,
                        work@,
                        nv.children[ci as int],
                        tf,
                    );
                    proof {
                        assert(opt_fs_view(Some(se)) == Some(sc[k as int]));
                        assert(node_view(node.children@[ci as int]) == nv.children[ci as int]);
                        assert(op_views(ops@) =~= (bv + ph.ops) + c.ops);
                    }
                    if let Err(e) = res {
                        if tf {
                            proof {
                                lemma_take_chain(ops@, before, base, base, b);
                                let phx = stock_pass(
                                    sc,
                                    nv,
                                    path@,
                                    work@,
                                    tf,
                                    has_tmpfs,
                                    k as int + 1,
                                );
                                assert(phx == step_child(ph, c, tf));
                                assert(phx.err == Some(err_view(e)));
                                lemma_stock_pass_frozen(
                                    sc,
                                    nv,
                                    path@,
                                    work@,
                                    tf,
                                    has_tmpfs,
                                    k as int + 1,
                                    sc.len() as int,
                                );
                                assert(op_views(ops@) =~= bv + phx.ops);
                                assert(err_views(warnings@) =~= ew0 + phx.warns);
                            }
                            return Err(e);
                        } else {
                            let ghost wv1 = warnings@;
                            warnings.push(e);
                            proof {
                                lemma_err_views_push(wv1, warnings@.last());
                                assert(err_views(warnings@) =~= ((ew0 + ph.warns) + c.warns)
                                    + seq![err_view(e)]);
                            }
                        }
                    }
                }
            }
        }
        if !stepped {
            if tf {
                mount_mirror(se, path, work, ops);
                proof {
                    assert(op_views(ops@) =~= (bv + ph.ops) + mirror_ops(
                        sc[k as int],
                        path@,
                        work@,
                    ));
                }
            }
        }
        proof {
            assert(before.take(before.len() as int) =~= before);
            lemma_take_chain(ops@, before, base, base, b);
            let phn = stock_pass(sc, nv, path@, work@, tf, has_tmpfs, k as int + 1);
            assert(op_views(ops@) =~= bv + phn.ops);
            assert(err_views(warnings@) =~= ew0 + phn.warns);
        }
        k += 1;
    }
    proof {
        assert forall|idx: int| 0 <= idx < n implies (consumed@[idx] <==> stock_matched(
            sc,
            nv.children,
            idx,
        )) by {
            lemma_find_fs(sc, nv.children[idx].name);
            lemma_find_child(nv.children, nv.children[idx].name);
            if consumed@[idx] {
                let k2 = choose|k2: int|
                    0 <= k2 < sc.len() && find_child(
                        nv.children,
                        (#[trigger] sc[k2]).name,
                    ) == idx;
                lemma_find_child(nv.children, sc[k2].name);
                assert(nv.children[idx].name == sc[k2].name);
                assert(find_fs(sc, nv.children[idx].name) <= k2) by {
                    if find_fs(sc, nv.children[idx].name) > k2 {
                        assert(sc[k2].name != nv.children[idx].name);
                    }
                }
            }
            if stock_matched(sc, nv.children, idx) {
                let fk = find_fs(sc, nv.children[idx].name);
                assert(sc[fk].name == nv.children[idx].name);
                assert(find_child(nv.children, sc[fk].name) == idx);
                assert(matched_upto(sc, nv.children, sc.len() as int, idx));
            }
        }
    }
    Ok(())
}

/// The pass over the remaining children: those neither consumed by the
/// stock-driven pass nor skipped are planned against their stock entries.
#[verifier::loop_isolation(false)]
#[verifier::rlimit(100)]
fn child_pass_exec(
    stock: Option<&FsEntry>,
    path: &str,
    work: &str,
    node: &Node,
    tf: bool,
    has_tmpfs: bool,
    skiploc: &Vec<bool>,
    consumed: &Vec<bool>,
    ops: &mut Vec<MountOp>,
    warnings: &mut Vec<EngineError>,
) -> (r: Result<(), EngineError>)
    requires
        node.file_type == NodeFileType::Directory,
        match stock {
            Some(s) => fs_names_ok(fs_view(*s)),
            None => true,
        },
        skiploc@.len() == node.children@.len(),
        forall|k: int|
            0 <= k < skiploc@.len() ==> skiploc@[k] == marked(
                stock_children(opt_fs_view(stock)),
                node_view(*node),
                has_tmpfs,
                k,
            ),
        consumed@.len() == node.children@.len(),
        forall|idx: int|
            0 <= idx < consumed@.len() ==> (consumed@[idx] <==> (opt_fs_view(stock) is Some
                && !node.replace && stock_matched(
                stock_children(opt_fs_view(stock)),
                node_view(*node).children,
                idx,
            ))),
    ensures
        final(ops)@.len() >= old(ops)@.len(),
        final(ops)@.take(old(ops)@.len() as int) == old(ops)@,
        forall|q: int|
            old(ops)@.len() <= q < final(ops)@.len() ==> !(final(ops)@[q] is UnmountDetach),
        ({
            let sc = stock_children(opt_fs_view(stock));
            let ph = child_pass(
                sc,
                opt_fs_view(stock) is Some,
                node_view(*node),
                path@,
                work@,
                tf,
                has_tmpfs,
                node.children@.len() as int,
            );
            &&& op_views(final(ops)@) == op_views(old(ops)@) + ph.ops
            &&& err_views(final(warnings)@) == err_views(old(warnings)@) + ph.warns
            &&& (match r {
                Ok(u) => ph.err is None,
                Err(e) => ph.err == Some(err_view(e)),
            })
        }),
    decreases *node, 0int,
{
    let ghost base = old(ops)@;
    let ghost b = old(ops)@.len() as int;
    let ghost bv = op_views(old(ops)@);
    let ghost ew0 = err_views(old(warnings)@);
    let ghost nv = node_view(*node);
    let ghost sc = stock_children(opt_fs_view(stock));
    let n = node.children.len();
    proof {
        crate::node::lemma_node_views(node.children@);
        assert(nv.children.len() == n);
        if let Some(s0) = stock {
            lemma_fs_views(s0.children@);
            assert(sc == fs_views(s0.children@));
        }
        assert(base.take(b) =~= base);
    }
    let mut ci: usize = 0;
    while ci < n
        invariant
            0 <= ci <= n,
            ops@.len() >= base.len(),
            ops@.take(base.len() as int) == base,
            forall|q: int| b <= q < ops@.len() ==> !(ops@[q] is UnmountDetach),
            child_pass(
                sc,
                opt_fs_view(stock) is Some,
                nv,
                path@,
                work@,
                tf,
                has_tmpfs,
                ci as int,
            ).err is None,
            op_views(ops@) == bv + child_pass(
                sc,
                opt_fs_view(stock) is Some,
                nv,
                path@,
                work@,
                tf,
                has_tmpfs,
                ci as int,
            ).ops,
            err_views(warnings@) == ew0 + child_pass(
                sc,
                opt_fs_view(stock) is Some,
                nv,
                path@,
                work@,
                tf,
                has_tmpfs,
                ci as int,
            ).warns,
        decreases n - ci,
    {
        let ghost before = ops@;
        let ghost ph = child_pass(
            sc,
            opt_fs_view(stock) is Some,
            nv,
            path@,
            work@,
            tf,
            has_tmpfs,
            ci as int,
        );
        let go = !consumed[ci] && !(node.children[ci].skip || skiploc[ci]);
        proof {
            assert((node.children[ci as int].skip || skiploc@[ci as int]) == child_skipped(
                sc,
                nv,
                has_tmpfs,
                ci as int,
            ));
        }
        if go {
            let schild: Option<&FsEntry> = match stock {
                Some(s) => {
                    let si = fs_child_pos(&s.children, node.children[ci].name.as_str());
                    if si < s.children.len() {
                        Some(&s.children[si])
                    } else {
                        None
                    }
                },
                None => None,
            };
            proof {
                assert(decreases_to!(node.children => node.children[ci as int]));
                lemma_find_fs(sc, nv.children[ci as int].name);
                match schild {
                    Some(sx) => {
                        let fx = find_fs(sc, nv.children[ci as int].name);
                        assert(opt_fs_view(schild) == Some(sc[fx]));
                        match stock {
                            Some(s0) => {
                                assert(fs_view(*s0).children[fx] == sc[fx]);
                                assert(fs_names_ok(sc[fx]));
                            },
                            None => {},
                        }
                        assert(fs_names_ok(fs_view(*sx)));
                    },
                    None => {},
                }
            }
            let res = do_magic_mount(
                schild,
                path,
                work,
                &node.children[ci],
                tf,
                ops,
                warnings,
            );
            let ghost fi = find_fs(sc, nv.children[ci as int].name);
            let ghost st: Option<FsEntryView> = if opt_fs_view(stock) is Some && fi < sc.len() {
                Some(sc[fi])
            } else {
                None
            };
            let ghost c = magic_spec(st, path@, work@, nv.children[ci as int], tf);
            proof {
                assert(opt_fs_view(schild) == st);
                assert(node_view(node.children@[ci as int]) == nv.children[ci as int]);
                assert(op_views(ops@) =~= (bv + ph.ops) + c.ops);
            }
            if let Err(e) = res {
                if tf {
                    proof {
                        lemma_take_chain(ops@, before, base, base, b);
                        let phx = child_pass(
                            sc,
                            opt_fs_view(stock) is Some,
                            nv,
                            path@,
                            work@,
                            tf,
                            has_tmpfs,
                            ci as int + 1,
                        );
                        assert(phx == step_child(ph, c, tf));
                        assert(phx.err == Some(err_view(e)));
                        lemma_child_pass_frozen(
                            sc,
                            opt_fs_view(stock) is Some,
                            nv,
                            path@,
                            work@,
                            tf,
                            has_tmpfs,
                            ci as int + 1,
                            n as int,
                        );
                        assert(op_views(ops@) =~= bv + phx.ops);
                        assert(err_views(warnings@) =~= ew0 + phx.warns);
                    }
                    return Err(e);
                } else {
                    let ghost wv1 = warnings@;
                    warnings.push(e);
                    proof {
                        lemma_err_views_push(wv1, warnings@.last());
                        assert(err_views(warnings@) =~= ((ew0 + ph.warns) + c.warns)
                            + seq![err_view(e)]);
                    }
                }
            }
        }
        proof {
            assert(before.take(before.len() as int) =~= before);
            lemma_take_chain(ops@, before, base, base, b);
            let phn = child_pass(
                sc,
                opt_fs_view(stock) is Some,
                nv,
                path@,
                work@,
                tf,
                has_tmpfs,
                ci as int + 1,
            );
            assert(op_views(ops@) =~= bv + phn.ops);
            assert(err_views(warnings@) =~= ew0 + phn.warns);
        }
        ci += 1;
    }
    Ok(())
}

/// No two stock entries share a name.
pub open spec fn fs_unique(cs: Seq<FsEntryView>) -> bool {
    forall|i: int, j: int|
        0 <= i < j < cs.len() ==> (#[trigger] cs[i]).name != (#[trigger] cs[j]).name
}

/// Entry names are distinct in every directory of the tree, as a real
/// directory listing guarantees.
pub open spec fn fs_names_ok(e: FsEntryView) -> bool
    decreases e,
    via fs_names_ok_dec
{
    &&& fs_unique(e.children)
    &&& (forall|i: int| 0 <= i < e.children.len() ==> fs_names_ok(#[trigger] e.children[i]))
}

#[via_fn]
proof fn fs_names_ok_dec(e: FsEntryView) {
    assert forall|i: int| 0 <= i < e.children.len() implies (decreases_to!(
        e => e.children[i]
    )) by {
        assert(decreases_to!(e.children => e.children[i]));
    }
}

/// What planning one node emits: the operations, the reported errors of
/// skipped or failed children, and the fatal error if planning aborts.
pub struct PlanTrace {
    pub ops: Seq<OpView>,
    pub warns: Seq<ErrView>,
    pub err: Option<ErrView>,
}

/// Child `i` is marked to be skipped: its parent is a synthesized directory
/// (no module source) outside any skeleton, and the child needs a tmpfs.
pub open spec fn marked(sc: Seq<FsEntryView>, n: NodeView, has_tmpfs: bool, i: int) -> bool {
    &&& !has_tmpfs
    &&& n.source_path is None
    &&& child_needs_tmpfs(sc, n.children[i])
}

/// Child `i` is not planned: its own skip flag stands, or it was marked.
pub open spec fn child_skipped(sc: Seq<FsEntryView>, n: NodeView, has_tmpfs: bool, i: int) -> bool {
    n.children[i].skip || marked(sc, n, has_tmpfs, i)
}

/// Child `i` was consumed by the stock-driven pass: a stock entry bears its
/// name and it is the first child of that name.
pub open spec fn stock_matched(sc: Seq<FsEntryView>, cs: Seq<NodeView>, i: int) -> bool {
    &&& find_fs(sc, cs[i].name) < sc.len()
    &&& find_child(cs, cs[i].name) == i
}

/// The skipped-child reports of the first `k` children, in order.
pub open spec fn skip_warns(
    sc: Seq<FsEntryView>,
    n: NodeView,
    has_tmpfs: bool,
    p: Seq<char>,
    k: int,
) -> Seq<ErrView>
    decreases k,
{
    if k <= 0 || k > n.children.len() {
        Seq::empty()
    } else {
        skip_warns(sc, n, has_tmpfs, p, k - 1) + (if marked(sc, n, has_tmpfs, k - 1) {
            seq![ErrView::SkippedChild { path: p, name: n.children[k - 1].name }]
        } else {
            Seq::empty()
        })
    }
}

/// The step shared by both passes: a child plan is appended; a child error
/// aborts the pass inside a skeleton, and is reported otherwise.
pub open spec fn step_child(prev: PlanTrace, c: PlanTrace, tf: bool) -> PlanTrace {
    if c.err is Some {
        if tf {
            PlanTrace { ops: prev.ops + c.ops, warns: prev.warns + c.warns, err: c.err }
        } else {
            PlanTrace {
                ops: prev.ops + c.ops,
                warns: prev.warns + c.warns + seq![c.err.unwrap()],
                err: None,
            }
        }
    } else {
        PlanTrace { ops: prev.ops + c.ops, warns: prev.warns + c.warns, err: None }
    }
}

/// The full plan of composing `n` at `joined(pp, n.name)` over the stock
/// entry `stock`, mirroring the magic-mount engine exactly: files bind over
/// matching stock, a skeleton is staged iff [`dir_makes_tmpfs`] says so,
/// stock entries drive the first pass (matching children recurse, others are
/// mirrored into a skeleton), the remaining children follow, and a freshly
/// staged skeleton is move-mounted into place and made private.
pub open spec fn magic_spec(
    stock: Option<FsEntryView>,
    pp: Seq<char>,
    pw: Seq<char>,
    n: NodeView,
    has_tmpfs: bool,
) -> PlanTrace
    decreases n, 2int, 0int,
{
    let p = joined(pp, n.name);
    let w = joined(pw, n.name);
    match n.file_type {
        NodeFileType::RegularFile => match n.source_path {
            Some(sp) => PlanTrace {
                ops: if has_tmpfs {
                    seq![
                        OpView::CreateFile { target: w },
                        OpView::BindMount { source: sp, target: w },
                    ]
                } else {
                    seq![OpView::BindMount { source: sp, target: p }]
                },
                warns: Seq::empty(),
                err: None,
            },
            None => PlanTrace {
                ops: Seq::empty(),
                warns: Seq::empty(),
                err: Some(ErrView::RootFile { path: p }),
            },
        },
        NodeFileType::Symlink => match n.source_path {
            Some(sp) => PlanTrace {
                ops: seq![OpView::CloneSymlink { source: sp, target: w }],
                warns: Seq::empty(),
                err: None,
            },
            None => PlanTrace {
                ops: Seq::empty(),
                warns: Seq::empty(),
                err: Some(ErrView::RootSymlink { path: p }),
            },
        },
        NodeFileType::Whiteout => PlanTrace {
            ops: Seq::empty(),
            warns: Seq::empty(),
            err: None,
        },
        NodeFileType::Directory => {
            let sc = stock_children(stock);
            let creates = dir_makes_tmpfs(sc, n, has_tmpfs);
            let tf = has_tmpfs || creates;
            let w0 = skip_warns(sc, n, has_tmpfs, p, n.children.len() as int);
            if tf && stock is None && n.source_path is None {
                PlanTrace {
                    ops: seq![OpView::CreateDirAll { target: w }],
                    warns: w0,
                    err: Some(ErrView::RootDir { path: p }),
                }
            } else {
                let hdr = if tf {
                    seq![
                        OpView::CreateDirAll { target: w },
                        OpView::CloneAttrs {
                            source: if stock is Some {
                                p
                            } else {
                                n.source_path.unwrap()
                            },
                            target: w,
                        },
                    ] + (if creates {
                        seq![OpView::BindSelf { target: w }]
                    } else {
                        Seq::empty()
                    })
                } else {
                    Seq::empty()
                };
                let ph1 = if stock is Some && !n.replace {
                    stock_pass(sc, n, p, w, tf, has_tmpfs, sc.len() as int)
                } else {
                    PlanTrace { ops: Seq::empty(), warns: Seq::empty(), err: None }
                };
                if ph1.err is Some {
                    PlanTrace { ops: hdr + ph1.ops, warns: w0 + ph1.warns, err: ph1.err }
                } else if n.replace && n.source_path is None {
                    PlanTrace {
                        ops: hdr + ph1.ops,
                        warns: w0 + ph1.warns,
                        err: Some(ErrView::ReplacedRoot { path: p }),
                    }
                } else {
                    let ph2 = child_pass(
                        sc,
                        stock is Some,
                        n,
                        p,
                        w,
                        tf,
                        has_tmpfs,
                        n.children.len() as int,
                    );
                    if ph2.err is Some {
                        PlanTrace {
                            ops: hdr + ph1.ops + ph2.ops,
                            warns: w0 + ph1.warns + ph2.warns,
                            err: ph2.err,
                        }
                    } else {
                        PlanTrace {
                            ops: hdr + ph1.ops + ph2.ops + (if creates {
                                seq![
                                    OpView::MoveMount { source: w, target: p },
                                    OpView::MakePrivate { target: p },
                                ]
                            } else {
                                Seq::empty()
                            }),
                            warns: w0 + ph1.warns + ph2.warns,
                            err: None,
                        }
                    }
                }
            }
        },
    }
}

/// The stock-driven pass over the first `k` stock entries: a stock entry
/// matching a child recurses into it (unless the child is skipped), and an
/// unmatched entry is mirrored into the skeleton.
pub open spec fn stock_pass(
    sc: Seq<FsEntryView>,
    n: NodeView,
    p: Seq<char>,
    w: Seq<char>,
    tf: bool,
    has_tmpfs: bool,
    k: int,
) -> PlanTrace
    decreases n, 1int, k,
    via stock_pass_dec
{
    if k <= 0 || k > sc.len() {
        PlanTrace { ops: Seq::empty(), warns: Seq::empty(), err: None }
    } else {
        let prev = stock_pass(sc, n, p, w, tf, has_tmpfs, k - 1);
        if prev.err is Some {
            prev
        } else {
            let s = sc[k - 1];
            let ci = find_child(n.children, s.name);
            if ci < n.children.len() {
                if child_skipped(sc, n, has_tmpfs, ci) {
                    prev
                } else {
                    step_child(prev, magic_spec(Some(s), p, w, n.children[ci], tf), tf)
                }
            } else if tf {
                PlanTrace {
                    ops: prev.ops + mirror_ops(s, p, w),
                    warns: prev.warns,
                    err: None,
                }
            } else {
                prev
            }
        }
    }
}

#[via_fn]
proof fn stock_pass_dec(
    sc: Seq<FsEntryView>,
    n: NodeView,
    p: Seq<char>,
    w: Seq<char>,
    tf: bool,
    has_tmpfs: bool,
    k: int,
) {
    if 0 < k <= sc.len() {
        let ci = find_child(n.children, sc[k - 1].name);
        lemma_find_child(n.children, sc[k - 1].name);
        if 0 <= ci < n.children.len() {
            assert(decreases_to!(n.children => n.children[ci]));
            assert(decreases_to!(n => n.children));
            assert(decreases_to!(n => n.children[ci]));
        }
    }
}

/// The pass over the remaining children: those neither consumed by the
/// stock-driven pass nor skipped are planned against their stock entry.
pub open spec fn child_pass(
    sc: Seq<FsEntryView>,
    stock_present: bool,
    n: NodeView,
    p: Seq<char>,
    w: Seq<char>,
    tf: bool,
    has_tmpfs: bool,
    k: int,
) -> PlanTrace
    decreases n, 0int, k,
    via child_pass_dec
{
    if k <= 0 || k > n.children.len() {
        PlanTrace { ops: Seq::empty(), warns: Seq::empty(), err: None }
    } else {
        let prev = child_pass(sc, stock_present, n, p, w, tf, has_tmpfs, k - 1);
        if prev.err is Some {
            prev
        } else {
            let i = k - 1;
            let consumed = stock_present && !n.replace && stock_matched(sc, n.children, i);
            if consumed || child_skipped(sc, n, has_tmpfs, i) {
                prev
            } else {
                let fi = find_fs(sc, n.children[i].name);
                let st: Option<FsEntryView> = if stock_present && fi < sc.len() {
                    Some(sc[fi])
                } else {
                    None
                };
                step_child(prev, magic_spec(st, p, w, n.children[i], tf), tf)
            }
        }
    }
}

#[via_fn]
proof fn child_pass_dec(
    sc: Seq<FsEntryView>,
    stock_present: bool,
    n: NodeView,
    p: Seq<char>,
    w: Seq<char>,
    tf: bool,
    has_tmpfs: bool,
    k: int,
) {
    if 0 < k <= n.children.len() {
        assert(decreases_to!(n.children => n.children[k - 1]));
        assert(decreases_to!(n => n.children));
        assert(decreases_to!(n => n.children[k - 1]));
    }
}

/// A pass that has failed stays failed: later entries change nothing.
pub proof fn lemma_stock_pass_frozen(
    sc: Seq<FsEntryView>,
    n: NodeView,
    p: Seq<char>,
    w: Seq<char>,
    tf: bool,
    has_tmpfs: bool,
    k: int,
    m: int,
)
    requires
        stock_pass(sc, n, p, w, tf, has_tmpfs, k).err is Some,
        0 < k <= m,
        m <= sc.len(),
    ensures
        stock_pass(sc, n, p, w, tf, has_tmpfs, m) == stock_pass(sc, n, p, w, tf, has_tmpfs, k),
    decreases m - k,
{
    if k < m {
        lemma_stock_pass_frozen(sc, n, p, w, tf, has_tmpfs, k, m - 1);
    }
}

/// A pass that has failed stays failed: later children change nothing.
pub proof fn lemma_child_pass_frozen(
    sc: Seq<FsEntryView>,
    stock_present: bool,
    n: NodeView,
    p: Seq<char>,
    w: Seq<char>,
    tf: bool,
    has_tmpfs: bool,
    k: int,
    m: int,
)
    requires
        child_pass(sc, stock_present, n, p, w, tf, has_tmpfs, k).err is Some,
        0 < k <= m,
        m <= n.children.len(),
    ensures
        child_pass(sc, stock_present, n, p, w, tf, has_tmpfs, m) == child_pass(
            sc,
            stock_present,
            n,
            p,
            w,
            tf,
            has_tmpfs,
            k,
        ),
    decreases m - k,
{
    if k < m {
        lemma_child_pass_frozen(sc, stock_present, n, p, w, tf, has_tmpfs, k, m - 1);
    }
}

/// Skipped-child reports are empty inside a skeleton or under a
/// module-backed directory.
proof fn lemma_skip_warns_empty(
    sc: Seq<FsEntryView>,
    n: NodeView,
    has_tmpfs: bool,
    p: Seq<char>,
    k: int,
)
    requires
        has_tmpfs || n.source_path is Some,
    ensures
        skip_warns(sc, n, has_tmpfs, p, k) =~= Seq::<ErrView>::empty(),
    decreases (if k > 0 {
        k
    } else {
        0int
    }),
{
    if 0 < k <= n.children.len() {
        lemma_skip_warns_empty(sc, n, has_tmpfs, p, k - 1);
    }
}

/// A child consumed by one of the first `k` stock entries.
pub open spec fn matched_upto(sc: Seq<FsEntryView>, cs: Seq<NodeView>, k: int, idx: int) -> bool {
    exists|k2: int| 0 <= k2 < k && find_child(cs, (#[trigger] sc[k2]).name) == idx
}

/// Transitivity of plan-prefix preservation: if `now` extends `before`,
/// which extends `hdr`, which extends `base`, then `now` extends each, and
/// no detach-unmount stands after position `b` in `now`.
proof fn lemma_take_chain(
    now: Seq<MountOp>,
    before: Seq<MountOp>,
    hdr: Seq<MountOp>,
    base: Seq<MountOp>,
    b: int,
)
    requires
        0 <= b <= hdr.len() <= before.len() <= now.len(),
        now.take(before.len() as int) == before,
        before.take(hdr.len() as int) == hdr,
        hdr.take(b) == base,
        forall|q: int| b <= q < hdr.len() ==> !(hdr[q] is UnmountDetach),
        forall|q: int| b <= q < before.len() ==> !(before[q] is UnmountDetach),
        forall|q: int| before.len() <= q < now.len() ==> !(now[q] is UnmountDetach),
    ensures
        now.take(hdr.len() as int) == hdr,
        now.take(b) == base,
        forall|q: int| b <= q < now.len() ==> !(now[q] is UnmountDetach),
{
    assert forall|q: int| 0 <= q < before.len() implies now[q] == before[q] by {
        assert(now.take(before.len() as int)[q] == before[q]);
    }
    assert(now.take(hdr.len() as int) =~= hdr) by {
        assert forall|q: int| 0 <= q < hdr.len() implies now[q] == hdr[q] by {
            assert(before.take(hdr.len() as int)[q] == hdr[q]);
        }
    }
    assert(now.take(b) =~= base) by {
        assert forall|q: int| 0 <= q < b implies now[q] == base[q] by {
            assert(hdr.take(b)[q] == base[q]);
        }
    }
}

/// The fallback plans of the first `k` named partitions: each name present
/// among the root's children is planned against its stock subtree; planning
/// failures are appended to the reports and the other partitions proceed.
pub open spec fn fallback_pass(
    stockv: FsEntryView,
    rootv: NodeView,
    work: Seq<char>,
    parts: Seq<Seq<char>>,
    k: int,
) -> (Seq<OpView>, Seq<ErrView>)
    decreases k,
{
    if k <= 0 || k > parts.len() {
        (Seq::empty(), Seq::empty())
    } else {
        let prev = fallback_pass(stockv, rootv, work, parts, k - 1);
        let name = parts[k - 1];
        let ci = find_child(rootv.children, name);
        if ci < rootv.children.len() {
            let fi = find_fs(stockv.children, name);
            let st: Option<FsEntryView> = if fi < stockv.children.len() {
                Some(stockv.children[fi])
            } else {
                None
            };
            let oo = magic_spec(st, "/"@, work, rootv.children[ci], false);
            (
                prev.0 + oo.ops,
                prev.1 + oo.warns + (match oo.err {
                    Some(e) => seq![e],
                    None => Seq::<ErrView>::empty(),
                }),
            )
        } else {
            prev
        }
    }
}

/// Plans a full magic mount: collects the module tree, stages the work
/// tmpfs, composes every partition subtree, and tears the staging area down.
///
/// With no contributing module the plan and the reports are empty: no mounts
/// are established. Otherwise the plan is exactly the staging of the work
/// tmpfs, the engine's plan for the collected root, and the detach and
/// removal of the staging area; that detach is the only unmount in the plan
/// and follows every move-mount, so the live composed mounts survive the
/// cleanup. The reports are exactly the engine's.
#[verifier::loop_isolation(false)]
pub fn magic_mount(
    modules: &Vec<ModuleInfo>,
    probes: &Vec<PartitionProbe>,
    stock_root: &FsEntry,
    work_dir: &str,
) -> (r: (Vec<MountOp>, Vec<EngineError>))
    requires
        fs_names_ok(fs_view(*stock_root)),
    ensures
        crate::router::collected_root(
            crate::model::modules_view(modules@),
            probes.deep_view(),
        ) is None ==> r.0@.len() == 0 && r.1@.len() == 0,
        crate::router::collected_root(
            crate::model::modules_view(modules@),
            probes.deep_view(),
        ) matches Some(rootv) ==> ({
            let o = magic_spec(Some(fs_view(*stock_root)), "/"@, work_dir@, rootv, false);
            &&& op_views(r.0@) == seq![
                OpView::MountTmpfs { target: work_dir@ },
                OpView::MakePrivate { target: work_dir@ },
            ] + o.ops + seq![
                OpView::UnmountDetach { target: work_dir@ },
                OpView::RemoveDir { target: work_dir@ },
            ]
            &&& err_views(r.1@) == o.warns + (match o.err {
                Some(e) => seq![e],
                None => Seq::<ErrView>::empty(),
            })
        }),
        crate::router::collected_root(
            crate::model::modules_view(modules@),
            probes.deep_view(),
        ) is Some ==> ({
            let n = r.0@.len() as int;
            &&& n >= 4
            &&& op_view(r.0@[0]) == (OpView::MountTmpfs { target: work_dir@ })
            &&& op_view(r.0@[1]) == (OpView::MakePrivate { target: work_dir@ })
            &&& op_view(r.0@[n - 2]) == (OpView::UnmountDetach { target: work_dir@ })
            &&& op_view(r.0@[n - 1]) == (OpView::RemoveDir { target: work_dir@ })
            &&& forall|q: int| 0 <= q < n - 2 ==> !(r.0@[q] is UnmountDetach)
        }),
{
    let mut ops: Vec<MountOp> = Vec::new();
    let mut warnings: Vec<EngineError> = Vec::new();
    match crate::router::collect_module_files(modules, probes) {
        Some(root) => {
            let ghost e0 = ops@;
            ops.push(MountOp::MountTmpfs { target: work_dir.to_owned() });
            let ghost e1 = ops@;
            ops.push(MountOp::MakePrivate { target: work_dir.to_owned() });
            proof {
                lemma_op_views_push(e0, e1.last());
                lemma_op_views_push(e1, ops@.last());
            }
            let ghost setup = ops@;
            let res = do_magic_mount(
                Some(stock_root),
                "/",
                work_dir,
                &root,
                false,
                &mut ops,
                &mut warnings,
            );
            let ghost rootv = node_view(root);
            let ghost o = magic_spec(Some(fs_view(*stock_root)), "/"@, work_dir@, rootv, false);
            proof {
                assert(ops@.take(2) == setup);
                assert(ops@.take(2)[0] == setup[0]);
                assert(ops@.take(2)[1] == setup[1]);
                assert(op_views(ops@) =~= op_views(setup) + o.ops);
            }
            if let Err(e) = res {
                let ghost wv = warnings@;
                warnings.push(e);
                proof {
                    lemma_err_views_push(wv, warnings@.last());
                }
            }
            let ghost mid = ops@;
            ops.push(MountOp::UnmountDetach { target: work_dir.to_owned() });
            let ghost m1 = ops@;
            ops.push(MountOp::RemoveDir { target: work_dir.to_owned() });
            proof {
                lemma_op_views_push(mid, m1.last());
                lemma_op_views_push(m1, ops@.last());
                assert(op_views(ops@) =~= (seq![
                    OpView::MountTmpfs { target: work_dir@ },
                    OpView::MakePrivate { target: work_dir@ },
                ] + o.ops) + seq![
                    OpView::UnmountDetach { target: work_dir@ },
                    OpView::RemoveDir { target: work_dir@ },
                ]);
                assert(err_views(warnings@) =~= o.warns + (match o.err {
                    Some(e) => seq![e],
                    None => Seq::<ErrView>::empty(),
                }));
            }
            (ops, warnings)
        },
        None => (ops, warnings),
    }
}

/// Plans a magic mount restricted to the named partitions: the fallback pass
/// run for partitions where overlay composition failed. The plan is exactly
/// the staging of the work tmpfs, the plans of the named partitions present
/// in the collected root in order, and the teardown; the reports are exactly
/// the engine's, a failed partition's error included, while the others
/// proceed.
#[verifier::loop_isolation(false)]
pub fn magic_mount_for_partitions(
    modules: &Vec<ModuleInfo>,
    probes: &Vec<PartitionProbe>,
    stock_root: &FsEntry,
    work_dir: &str,
    partitions: &Vec<String>,
) -> (r: (Vec<MountOp>, Vec<EngineError>))
    requires
        fs_names_ok(fs_view(*stock_root)),
    ensures
        crate::router::collected_root(
            crate::model::modules_view(modules@),
            probes.deep_view(),
        ) is None ==> r.0@.len() == 0 && r.1@.len() == 0,
        crate::router::collected_root(
            crate::model::modules_view(modules@),
            probes.deep_view(),
        ) matches Some(rootv) ==> ({
            let fb = fallback_pass(
                fs_view(*stock_root),
                rootv,
                work_dir@,
                partitions.deep_view(),
                partitions.deep_view().len() as int,
            );
            &&& op_views(r.0@) == seq![
                OpView::MountTmpfs { target: work_dir@ },
                OpView::MakePrivate { target: work_dir@ },
            ] + fb.0 + seq![
                OpView::UnmountDetach { target: work_dir@ },
                OpView::RemoveDir { target: work_dir@ },
            ]
            &&& err_views(r.1@) == fb.1
        }),
        crate::router::collected_root(
            crate::model::modules_view(modules@),
            probes.deep_view(),
        ) is Some ==> ({
            let n = r.0@.len() as int;
            &&& n >= 4
            &&& op_view(r.0@[0]) == (OpView::MountTmpfs { target: work_dir@ })
            &&& op_view(r.0@[1]) == (OpView::MakePrivate { target: work_dir@ })
            &&& op_view(r.0@[n - 2]) == (OpView::UnmountDetach { target: work_dir@ })
            &&& op_view(r.0@[n - 1]) == (OpView::RemoveDir { target: work_dir@ })
            &&& forall|q: int| 0 <= q < n - 2 ==> !(r.0@[q] is UnmountDetach)
        }),
{
    let mut ops: Vec<MountOp> = Vec::new();
    let mut warnings: Vec<EngineError> = Vec::new();
    match crate::router::collect_module_files(modules, probes) {
        Some(root) => {
            let ghost rootv = node_view(root);
            let ghost stockv = fs_view(*stock_root);
            let ghost parts = partitions.deep_view();
            let ghost e0 = ops@;
            ops.push(MountOp::MountTmpfs { target: work_dir.to_owned() });
            let ghost e1 = ops@;
            ops.push(MountOp::MakePrivate { target: work_dir.to_owned() });
            proof {
                lemma_op_views_push(e0, e1.last());
                lemma_op_views_push(e1, ops@.last());
            }
            let ghost setup = ops@;
            let ghost sv = op_views(setup);
            proof {
                crate::node::lemma_node_views(root.children@);
                lemma_fs_views(stock_root.children@);
                assert(stockv.children == fs_views(stock_root.children@));
                assert(parts.len() == partitions@.len());
            }
            let mut i: usize = 0;
            while i < partitions.len()
                invariant
                    0 <= i <= partitions.len(),
                    ops@.len() >= 2,
                    ops@.take(2) == setup,
                    setup.len() == 2,
                    forall|q: int| 0 <= q < ops@.len() ==> !(ops@[q] is UnmountDetach),
                    !(setup[0] is UnmountDetach),
                    !(setup[1] is UnmountDetach),
                    op_views(ops@) == sv + fallback_pass(stockv, rootv, work_dir@, parts, i as int).0,
                    err_views(warnings@) == fallback_pass(stockv, rootv, work_dir@, parts, i as int).1,
                decreases partitions.len() - i,
            {
                let ghost before = ops@;
                let ghost fb = fallback_pass(stockv, rootv, work_dir@, parts, i as int);
                let name = partitions[i].as_str();
                proof {
                    assert(parts[i as int] == partitions@[i as int]@);
                }
                let idx = child_pos(&root.children, name);
                if idx < root.children.len() {
                    let si = fs_child_pos(&stock_root.children, name);
                    let schild: Option<&FsEntry> = if si < stock_root.children.len() {
                        Some(&stock_root.children[si])
                    } else {
                        None
                    };
                    proof {
                        assert(decreases_to!(root.children => root.children[idx as int]));
                        match schild {
                            Some(sx) => {
                                assert(fs_view(*stock_root).children[si as int]
                                    == fs_view(*sx));
                                assert(fs_names_ok(fs_view(*sx)));
                            },
                            None => {},
                        }
                    }
                    let res = do_magic_mount(
                        schild,
                        "/",
                        work_dir,
                        &root.children[idx],
                        false,
                        &mut ops,
                        &mut warnings,
                    );
                    let ghost fi = find_fs(stockv.children, parts[i as int]);
                    let ghost st: Option<FsEntryView> = if fi < stockv.children.len() {
                        Some(stockv.children[fi])
                    } else {
                        None
                    };
                    let ghost oo = magic_spec(st, "/"@, work_dir@, rootv.children[idx as int], false);
                    proof {
                        assert(opt_fs_view(schild) == st);
                        assert(node_view(root.children@[idx as int])
                            == rootv.children[idx as int]);
                        assert(op_views(ops@) =~= (sv + fb.0) + oo.ops);
                    }
                    if let Err(e) = res {
                        let ghost wv = warnings@;
                        warnings.push(e);
                        proof {
                            lemma_err_views_push(wv, warnings@.last());
                        }
                    }
                    proof {
                        let fbn = fallback_pass(stockv, rootv, work_dir@, parts, i as int + 1);
                        assert(op_views(ops@) =~= sv + fbn.0);
                        assert(err_views(warnings@) =~= fbn.1);
                        assert(ops@.take(2) =~= setup) by {
                            assert(ops@.take(before.len() as int) == before);
                            assert(ops@.take(before.len() as int)[0] == before[0]);
                            assert(ops@.take(before.len() as int)[1] == before[1]);
                            assert(before.take(2)[0] == setup[0]);
                            assert(before.take(2)[1] == setup[1]);
                        }
                        assert forall|q: int| 0 <= q < ops@.len() implies !(ops@[q]
                            is UnmountDetach) by {
                            if q < before.len() {
                                assert(ops@.take(before.len() as int)[q] == before[q]);
                            }
                        }
                    }
                } else {
                    proof {
                        assert(op_views(ops@) =~= sv + fallback_pass(
                            stockv,
                            rootv,
                            work_dir@,
                            parts,
                            i as int + 1,
                        ).0);
                        assert(err_views(warnings@) =~= fallback_pass(
                            stockv,
                            rootv,
                            work_dir@,
                            parts,
                            i as int + 1,
                        ).1);
                    }
                }
                i += 1;
            }
            let ghost fbf = fallback_pass(stockv, rootv, work_dir@, parts, parts.len() as int);
            proof {
                assert(ops@.take(2)[0] == setup[0]);
                assert(ops@.take(2)[1] == setup[1]);
            }
            let ghost mid = ops@;
            ops.push(MountOp::UnmountDetach { target: work_dir.to_owned() });
            let ghost m1 = ops@;
            ops.push(MountOp::RemoveDir { target: work_dir.to_owned() });
            proof {
                lemma_op_views_push(mid, m1.last());
                lemma_op_views_push(m1, ops@.last());
                assert(op_views(ops@) =~= (seq![
                    OpView::MountTmpfs { target: work_dir@ },
                    OpView::MakePrivate { target: work_dir@ },
                ] + fbf.0) + seq![
                    OpView::UnmountDetach { target: work_dir@ },
                    OpView::RemoveDir { target: work_dir@ },
                ]);
            }
            (ops, warnings)
        },
        None => (ops, warnings),
    }
}

} // verus!