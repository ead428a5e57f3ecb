//! The overlay composer: mounts module contributions with OverlayFS at the
//! child mount points of a partition, with the stock tree as the lowest
//! layer, and reports the partitions where overlay composition cannot work
//! so the caller can fall back to the magic-mount engine.

use vstd::prelude::*;

use crate::model::{
    ModEntry, ModEntryView, ModuleInfo, ModuleInfoView, FsKind, mod_view, mod_views,
    lemma_mod_views, module_enabled, module_view, modules_view, is_module_enabled,
};
use crate::plan::{MountOp, op_views};
use crate::strutil::{joined, join_path, join_with, joined_with, str_eq};

verus! {

/// Why overlay composition fails for a partition.
#[derive(Clone, Copy, Debug, PartialEq, Eq, Structural)]
pub enum OverlayError {
    /// Module files lie inside an existing overlay mount of the partition.
    ModulesInOverlay,
    /// Module files lie in a top-level directory that is not a child mount
    /// point, so mounting at child mount points alone cannot show them.
    NonMountPointModules,
}

/// Index of the first module entry with the given name, or `cs.len()`.
pub open spec fn find_mod(cs: Seq<ModEntryView>, name: Seq<char>) -> int
    decreases cs.len(),
{
    if cs.len() == 0 {
        0
    } else if cs[0].name == name {
        0
    } else {
        1 + find_mod(cs.skip(1), name)
    }
}

pub proof fn lemma_find_mod(cs: Seq<ModEntryView>, name: Seq<char>)
    ensures
        0 <= find_mod(cs, name) <= cs.len(),
        find_mod(cs, name) < cs.len() ==> cs[find_mod(cs, name)].name == name,
        forall|k: int| 0 <= k < find_mod(cs, name) ==> cs[k].name != name,
    decreases cs.len(),
{
    if cs.len() == 0 {
    } else if cs[0].name == name {
    } else {
        lemma_find_mod(cs.skip(1), name);
        assert forall|k: int| 0 <= k < find_mod(cs, name) implies cs[k].name != name by {
            if k >= 1 {
                assert(cs.skip(1)[k - 1].name != name);
            }
        }
    }
}

proof fn lemma_find_mod_unique(cs: Seq<ModEntryView>, name: Seq<char>, k: int)
    requires
        0 <= k < cs.len(),
        cs[k].name == name,
        forall|j: int| 0 <= j < k ==> cs[j].name != name,
    ensures
        find_mod(cs, name) == k,
    decreases cs.len(),
{
    if cs[0].name == name {
        assert(k == 0);
    } else {
        assert(k >= 1);
        let t = cs.skip(1);
        assert(t[k - 1].name == name);
        assert(forall|j: int| 0 <= j < k - 1 ==> t[j].name != name);
        lemma_find_mod_unique(t, name, k - 1);
    }
}

/// Index of the first entry of `children` named `name`, or the length.
pub fn mod_child_pos(children: &Vec<ModEntry>, name: &str) -> (r: usize)
    ensures
        r == find_mod(mod_views(children@), name@),
{
    let ghost cs = mod_views(children@);
    proof {
        lemma_mod_views(children@);
        lemma_find_mod(cs, name@);
    }
    let mut i: usize = 0;
    while i < children.len()
        invariant
            0 <= i <= children.len(),
            cs == mod_views(children@),
            cs.len() == children@.len(),
            forall|k: int| 0 <= k < cs.len() ==> cs[k] == mod_view(children@[k]),
            forall|k: int| 0 <= k < i ==> cs[k].name != name@,
        decreases children.len() - i,
    {
        if str_eq(children[i].name.as_str(), name) {
            proof {
                lemma_find_mod_unique(cs, name@, i as int);
            }
            return i;
        }
        i += 1;
    }
    proof {
        if find_mod(cs, name@) < cs.len() {
            assert(cs[find_mod(cs, name@)].name == name@);
        }
    }
    i
}

/// The module entry at the relative path `segs[i..]` beneath `e`, if any.
pub open spec fn mod_lookup(e: ModEntryView, segs: Seq<Seq<char>>, i: int) -> Option<ModEntryView>
    decreases segs.len() - i,
{
    if i >= segs.len() || i < 0 {
        Some(e)
    } else {
        let j = find_mod(e.children, segs[i]);
        if j < e.children.len() {
            mod_lookup(e.children[j], segs, i + 1)
        } else {
            None
        }
    }
}

/// Walks `e` down the relative path `segs[i..]`.
pub fn mod_lookup_exec<'a>(e: &'a ModEntry, segs: &Vec<String>, i: usize) -> (r: Option<
    &'a ModEntry,
>)
    requires
        i <= segs@.len(),
    ensures
        match r {
            Some(f) => mod_lookup(mod_view(*e), segs.deep_view(), i as int) == Some(mod_view(*f)),
            None => mod_lookup(mod_view(*e), segs.deep_view(), i as int) is None,
        },
    decreases segs@.len() - i,
{
    proof {
        assert(segs.deep_view().len() == segs@.len());
    }
    if i >= segs.len() {
        return Some(e);
    }
    let j = mod_child_pos(&e.children, segs[i].as_str());
    proof {
        lemma_mod_views(e.children@);
        assert(mod_view(*e).children == mod_views(e.children@));
        assert(segs.deep_view()[i as int] == segs@[i as int]@);
    }
    if j < e.children.len() {
        mod_lookup_exec(&e.children[j], segs, i + 1)
    } else {
        None
    }
}

/// The `system` roots of the first `n` modules that take part, in order.
pub open spec fn roots_spec(ms: Seq<ModuleInfoView>, n: int) -> Seq<Seq<char>>
    decreases n,
{
    if n <= 0 || n > ms.len() {
        Seq::empty()
    } else if module_enabled(ms[n - 1]) {
        roots_spec(ms, n - 1).push(ms[n - 1].system_root)
    } else {
        roots_spec(ms, n - 1)
    }
}

/// The on-disk `system` directories of the modules that take part.
pub fn collect_module_system_roots(modules: &Vec<ModuleInfo>) -> (r: Vec<String>)
    ensures
        r.deep_view() == roots_spec(modules_view(modules@), modules@.len() as int),
{
    let ghost ms = modules_view(modules@);
    let mut out: Vec<String> = Vec::new();
    let mut i: usize = 0;
    proof {
        assert(out.deep_view() =~= roots_spec(ms, 0));
    }
    while i < modules.len()
        invariant
            0 <= i <= modules.len(),
            ms == modules_view(modules@),
            ms.len() == modules@.len(),
            out.deep_view() == roots_spec(ms, i as int),
        decreases modules.len() - i,
    {
        proof {
            assert(ms[i as int] == module_view(modules@[i as int]));
        }
        let ghost pre = out.deep_view();
        if is_module_enabled(&modules[i]) {
            out.push(modules[i].system_root.clone());
            proof {
                assert(out.deep_view() =~= pre.push(ms[i as int].system_root));
            }
        }
        i += 1;
    }
    out
}

/// `base` extended by every segment of `segs`, in order.
pub open spec fn joined_all(base: Seq<char>, segs: Seq<Seq<char>>) -> Seq<char>
    decreases segs.len(),
{
    if segs.len() == 0 {
        base
    } else {
        joined(joined_all(base, segs.drop_last()), segs.last())
    }
}

/// Appends every segment of `segs` to `base`.
pub fn join_all(base: &str, segs: &Vec<String>) -> (r: String)
    ensures
        r@ == joined_all(base@, segs.deep_view()),
{
    let mut r = base.to_owned();
    let mut i: usize = 0;
    proof {
        assert(segs.deep_view().take(0) =~= Seq::<Seq<char>>::empty());
    }
    while i < segs.len()
        invariant
            0 <= i <= segs.len(),
            segs@.len() == segs.deep_view().len(),
            r@ == joined_all(base@, segs.deep_view().take(i as int)),
        decreases segs.len() - i,
    {
        r = join_path(r.as_str(), segs[i].as_str());
        proof {
            let dv = segs.deep_view();
            assert(dv.take(i + 1).drop_last() =~= dv.take(i as int));
            assert(dv.take(i + 1).last() == dv[i as int]);
        }
        i += 1;
    }
    proof {
        assert(segs.deep_view().take(segs@.len() as int) =~= segs.deep_view());
    }
    r
}

/// The lower layers the first `n` modules contribute at the relative path
/// `rel`: the module's directory there when it is non-empty; nothing when it
/// is absent or an empty directory; and no overlay at all (`None`) when a
/// module holds a non-directory there, which blocks the stock root.
pub open spec fn lower_spec(
    ms: Seq<ModuleInfoView>,
    rel: Seq<Seq<char>>,
    n: int,
) -> Option<Seq<Seq<char>>>
    decreases n,
{
    if n <= 0 || n > ms.len() {
        Some(Seq::empty())
    } else {
        match lower_spec(ms, rel, n - 1) {
            None => None,
            Some(prev) => {
                if module_enabled(ms[n - 1]) {
                    match mod_lookup(ms[n - 1].system.unwrap(), rel, 0) {
                        Some(entry) => {
                            if entry.kind == FsKind::Dir && entry.children.len() > 0 {
                                Some(prev.push(joined_all(ms[n - 1].system_root, rel)))
                            } else if entry.kind == FsKind::Dir {
                                Some(prev)
                            } else {
                                None
                            }
                        },
                        None => Some(prev),
                    }
                } else {
                    Some(prev)
                }
            },
        }
    }
}

/// Once a module blocks the stock root, later modules cannot unblock it.
pub proof fn lemma_lower_none(ms: Seq<ModuleInfoView>, rel: Seq<Seq<char>>, n: int, m: int)
    requires
        lower_spec(ms, rel, n) is None,
        0 < n <= m,
        m <= ms.len(),
    ensures
        lower_spec(ms, rel, m) is None,
    decreases m - n,
{
    if n < m {
        lemma_lower_none(ms, rel, n, m - 1);
    }
}

/// Plans the overlay mount for one child mount point `mount_point`, whose
/// path relative to the partition root is `rel`. Module layers come first in
/// module order, the stock tree last, and the options string is exactly
/// `lowerdir=` followed by the colon-joined layers. Returns nothing when no
/// module contributes there, or when a module blocks the stock root with a
/// non-directory.
pub fn mount_overlay_child(
    mount_point: &str,
    rel: &Vec<String>,
    modules: &Vec<ModuleInfo>,
) -> (r: Option<MountOp>)
    ensures
        ({
            let lo = lower_spec(modules_view(modules@), rel.deep_view(), modules@.len() as int);
            match lo {
                None => r is None,
                Some(dirs) => {
                    if dirs.len() == 0 {
                        r is None
                    } else {
                        r matches Some(op) && op matches MountOp::MountOverlay {
                            target,
                            options,
                        } && target@ == mount_point@ && options@ == "lowerdir="@ + joined_with(
                            dirs.push(mount_point@),
                            ":"@,
                        )
                    }
                },
            }
        }),
{
    let ghost ms = modules_view(modules@);
    let ghost rv = rel.deep_view();
    let mut lower_dirs: Vec<String> = Vec::new();
    let mut i: usize = 0;
    proof {
        assert(lower_dirs.deep_view() =~= Seq::<Seq<char>>::empty());
        assert(lower_spec(ms, rv, 0) == Some(Seq::<Seq<char>>::empty()));
    }
    while i < modules.len()
        invariant
            0 <= i <= modules.len(),
            ms == modules_view(modules@),
            ms.len() == modules@.len(),
            rv == rel.deep_view(),
            rv.len() == rel@.len(),
            lower_spec(ms, rv, i as int) == Some(lower_dirs.deep_view()),
        decreases modules.len() - i,
    {
        proof {
            assert(ms[i as int] == module_view(modules@[i as int]));
        }
        let m = &modules[i];
        if is_module_enabled(m) {
            if let Some(sys) = &m.system {
                match mod_lookup_exec(sys, rel, 0) {
                    Some(entry) => {
                        if matches!(entry.kind, FsKind::Dir) {
                            if entry.children.len() > 0 {
                                let ghost pre = lower_dirs.deep_view();
                                let dir = join_all(m.system_root.as_str(), rel);
                                lower_dirs.push(dir);
                                proof {
                                    assert(lower_dirs.deep_view() =~= pre.push(
                                        joined_all(ms[i as int].system_root, rv),
                                    ));
                                }
                            }
                        } else {
                            proof {
                                assert(lower_spec(ms, rv, i as int + 1) is None);
                                lemma_lower_none(ms, rv, i as int + 1, ms.len() as int);
                            }
                            return None;
                        }
                    },
                    None => {},
                }
            }
        }
        proof {
            assert(lower_spec(ms, rv, i as int + 1) == Some(lower_dirs.deep_view()));
        }
        i += 1;
    }
    if lower_dirs.len() == 0 {
        return None;
    }
    let ghost dirs = lower_dirs.deep_view();
    let ghost pre = lower_dirs.deep_view();
    lower_dirs.push(mount_point.to_owned());
    proof {
        assert(lower_dirs.deep_view() =~= pre.push(mount_point@));
    }
    let layers = join_with(&lower_dirs, ":");
    let mut options = first_lowerdir();
    options.append(layers.as_str());
    Some(MountOp::MountOverlay { target: mount_point.to_owned(), options })
}

/// The overlay options prefix.
fn first_lowerdir() -> (r: String)
    ensures
        r@ == "lowerdir="@,
{
    "lowerdir=".to_owned()
}

/// Plans the overlay mount of a whole partition with the given lower
/// directories: nothing is planned when the list is empty, the partition is
/// missing, or the partition already lives under `/system` via a symlink.
pub fn mount_overlay_partition(
    partition_name: &str,
    lowerdir: &Vec<String>,
    probe: Option<&crate::model::PartitionProbe>,
) -> (r: Option<MountOp>)
    ensures
        ({
            let pv = match probe {
                Some(p) => Some(p.deep_view()),
                None => None,
            };
            if lowerdir.deep_view().len() == 0 || !(pv matches Some(q) && q.root_exists)
                || (pv matches Some(q) && q.system_is_symlink) {
                r is None
            } else {
                r matches Some(op) && op matches MountOp::MountOverlay { target, options }
                    && target@ == joined("/"@, partition_name@) && options@ == "lowerdir="@
                    + joined_with(lowerdir.deep_view(), ":"@)
            }
        }),
{
    if lowerdir.len() == 0 {
        proof {
            assert(lowerdir.deep_view().len() == lowerdir@.len());
        }
        return None;
    }
    proof {
        assert(lowerdir.deep_view().len() == lowerdir@.len());
    }
    match probe {
        None => None,
        Some(p) => {
            if !p.root_exists {
                None
            } else if p.system_is_symlink {
                None
            } else {
                let target = join_path("/", partition_name);
                let layers = join_with(lowerdir, ":");
                let mut options = first_lowerdir();
                options.append(layers.as_str());
                Some(MountOp::MountOverlay { target, options })
            }
        },
    }
}

/// The whitespace-separated fields of one mount-table line.
pub open spec fn fields_of(line: Seq<char>) -> Seq<Seq<char>> {
    crate::strutil::drop_empty(crate::strutil::split_spec(line, ' '))
}

/// Reads one line of the kernel mount table as `(mount_point, fs_type)`:
/// the second and third fields. Lines with fewer fields carry no mount.
pub fn parse_mount_line(line: &str) -> (r: Option<(String, String)>)
    ensures
        ({
            let fs = fields_of(line@);
            if fs.len() >= 3 {
                r matches Some(p) && p.0@ == fs[1] && p.1@ == fs[2]
            } else {
                r is None
            }
        }),
{
    let fields = crate::strutil::split_nonempty(line, ' ');
    proof {
        assert(fields.deep_view().len() == fields@.len());
    }
    if fields.len() >= 3 {
        Some((fields[1].clone(), fields[2].clone()))
    } else {
        None
    }
}

/// The mounts of the first `n` lines, in order.
pub open spec fn mounts_upto(lines: Seq<Seq<char>>, n: int) -> Seq<(Seq<char>, Seq<char>)>
    decreases n,
{
    if n <= 0 || n > lines.len() {
        Seq::empty()
    } else {
        let prev = mounts_upto(lines, n - 1);
        let fs = fields_of(lines[n - 1]);
        if fs.len() >= 3 {
            prev.push((fs[1], fs[2]))
        } else {
            prev
        }
    }
}

/// The `(mount_point, fs_type)` pairs of a whole mount-table text.
pub open spec fn mount_table_spec(content: Seq<char>) -> Seq<(Seq<char>, Seq<char>)> {
    let lines = crate::strutil::split_spec(content, '\n');
    mounts_upto(lines, lines.len() as int)
}

/// Reads the kernel mount table text into `(mount_point, fs_type)` pairs.
pub fn parse_mount_table(content: &str) -> (r: Vec<(String, String)>)
    ensures
        r.deep_view() == mount_table_spec(content@),
{
    let lines = crate::strutil::split_char(content, '\n');
    let ghost lv = lines.deep_view();
    let mut out: Vec<(String, String)> = Vec::new();
    let mut i: usize = 0;
    proof {
        assert(out.deep_view() =~= mounts_upto(lv, 0));
    }
    while i < lines.len()
        invariant
            0 <= i <= lines.len(),
            lv == lines.deep_view(),
            lv.len() == lines@.len(),
            out.deep_view() == mounts_upto(lv, i as int),
        decreases lines.len() - i,
    {
        let ghost pre = out.deep_view();
        proof {
            assert(lv[i as int] == lines@[i as int]@);
        }
        match parse_mount_line(lines[i].as_str()) {
            Some(entry) => {
                out.push(entry);
                proof {
                    assert(out.deep_view() =~= pre.push(
                        (fields_of(lv[i as int])[1], fields_of(lv[i as int])[2]),
                    ));
                }
            },
            None => {},
        }
        i += 1;
    }
    out
}

/// True when the mount point lies strictly under the partition `/part`.
pub open spec fn under_part(part: Seq<char>, pt: Seq<char>) -> bool {
    crate::strutil::segs_of(pt).len() >= 2 && crate::strutil::segs_of(pt)[0] == part
}

/// True when some entry mounts `overlay` at `pt`.
pub open spec fn point_has_overlay(mounts: Seq<(Seq<char>, Seq<char>)>, pt: Seq<char>) -> bool {
    exists|k: int| 0 <= k < mounts.len() && (#[trigger] mounts[k]).0 == pt && mounts[k].1
        == "overlay"@
}

/// True when some module that takes part contributes anything at the
/// relative path `rel` beneath its `system` directory.
pub open spec fn module_has_rel(ms: Seq<ModuleInfoView>, rel: Seq<Seq<char>>) -> bool {
    exists|m: int| 0 <= m < ms.len() && module_enabled(#[trigger] ms[m]) && mod_lookup(
        ms[m].system.unwrap(),
        rel,
        0,
    ) is Some
}

/// True when `pt` is an overlay mount under the partition and a module
/// contributes inside it.
pub open spec fn point_blocked(
    part: Seq<char>,
    ms: Seq<ModuleInfoView>,
    mounts: Seq<(Seq<char>, Seq<char>)>,
    pt: Seq<char>,
) -> bool {
    &&& under_part(part, pt)
    &&& point_has_overlay(mounts, pt)
    &&& module_has_rel(ms, crate::strutil::segs_of(pt).skip(1))
}

/// Module files lie inside an existing overlay mount of the partition: the
/// condition that forces the magic-mount fallback.
pub open spec fn blocked_spec(
    part: Seq<char>,
    ms: Seq<ModuleInfoView>,
    mounts: Seq<(Seq<char>, Seq<char>)>,
) -> bool {
    exists|k: int|
        0 <= k < mounts.len() && point_blocked(part, ms, mounts, (#[trigger] mounts[k]).0)
}

/// Runtime check matching [`point_has_overlay`].
fn point_overlay_exec(mounts: &Vec<(String, String)>, pt: &str) -> (r: bool)
    ensures
        r == point_has_overlay(mounts.deep_view(), pt@),
{
    let ghost mv = mounts.deep_view();
    let mut k: usize = 0;
    while k < mounts.len()
        invariant
            0 <= k <= mounts.len(),
            mv == mounts.deep_view(),
            mv.len() == mounts@.len(),
            forall|q: int| 0 <= q < k ==> !((#[trigger] mv[q]).0 == pt@ && mv[q].1 == "overlay"@),
        decreases mounts.len() - k,
    {
        proof {
            assert(mv[k as int] == mounts@[k as int].deep_view());
        }
        if str_eq(mounts[k].0.as_str(), pt) && str_eq(mounts[k].1.as_str(), "overlay") {
            return true;
        }
        k += 1;
    }
    false
}

/// Runtime check matching [`module_has_rel`].
fn module_has_rel_exec(modules: &Vec<ModuleInfo>, rel: &Vec<String>) -> (r: bool)
    ensures
        r == module_has_rel(modules_view(modules@), rel.deep_view()),
{
    let ghost ms = modules_view(modules@);
    let mut m: usize = 0;
    while m < modules.len()
        invariant
            0 <= m <= modules.len(),
            ms == modules_view(modules@),
            ms.len() == modules@.len(),
            forall|q: int|
                0 <= q < m ==> !(module_enabled(#[trigger] ms[q]) && mod_lookup(
                    ms[q].system.unwrap(),
                    rel.deep_view(),
                    0,
                ) is Some),
        decreases modules.len() - m,
    {
        proof {
            assert(ms[m as int] == module_view(modules@[m as int]));
        }
        if is_module_enabled(&modules[m]) {
            if let Some(sys) = &modules[m].system {
                if mod_lookup_exec(sys, rel, 0).is_some() {
                    return true;
                }
            }
        }
        m += 1;
    }
    false
}

/// Runtime check matching [`blocked_spec`].
fn blocked_exec(partition: &str, modules: &Vec<ModuleInfo>, mounts: &Vec<(String, String)>) -> (r:
    bool)
    ensures
        r == blocked_spec(partition@, modules_view(modules@), mounts.deep_view()),
{
    let ghost ms = modules_view(modules@);
    let ghost mv = mounts.deep_view();
    let mut k: usize = 0;
    while k < mounts.len()
        invariant
            0 <= k <= mounts.len(),
            ms == modules_view(modules@),
            mv == mounts.deep_view(),
            mv.len() == mounts@.len(),
            forall|q: int| 0 <= q < k ==> !point_blocked(partition@, ms, mv, (#[trigger] mv[q]).0),
        decreases mounts.len() - k,
    {
        proof {
            assert(mv[k as int] == mounts@[k as int].deep_view());
        }
        let pt = mounts[k].0.as_str();
        let segs = crate::strutil::path_segs(pt);
        proof {
            assert(segs.deep_view() == crate::strutil::segs_of(pt@));
            assert(segs.deep_view().len() == segs@.len());
        }
        if segs.len() >= 2 && str_eq(segs[0].as_str(), partition) {
            if point_overlay_exec(mounts, pt) {
                let mut rel: Vec<String> = Vec::new();
                let mut j: usize = 1;
                while j < segs.len()
                    invariant
                        1 <= j <= segs@.len(),
                        segs.deep_view().len() == segs@.len(),
                        rel.deep_view() =~= segs.deep_view().subrange(1, j as int),
                    decreases segs.len() - j,
                {
                    let ghost pre = rel.deep_view();
                    rel.push(segs[j].clone());
                    proof {
                        assert(rel.deep_view() =~= pre.push(segs.deep_view()[j as int]));
                        assert(rel.deep_view() =~= segs.deep_view().subrange(1, j as int + 1));
                    }
                    j += 1;
                }
                proof {
                    assert(rel.deep_view() =~= segs.deep_view().skip(1));
                }
                if module_has_rel_exec(modules, &rel) {
                    proof {
                        assert(point_blocked(partition@, ms, mv, mv[k as int].0));
                    }
                    return true;
                }
            }
        }
        k += 1;
    }
    false
}

/// True when some module that takes part holds a non-empty directory named
/// `name` at the top of its `system` tree.
pub open spec fn mod_top_nonempty(ms: Seq<ModuleInfoView>, name: Seq<char>) -> bool {
    exists|m: int, j: int|
        0 <= m < ms.len() && module_enabled(#[trigger] ms[m]) && 0 <= j < ms[m].system.unwrap().children.len()
            && (#[trigger] ms[m].system.unwrap().children[j]).name == name
            && ms[m].system.unwrap().children[j].kind == FsKind::Dir
            && ms[m].system.unwrap().children[j].children.len() > 0
}

/// True when `tgt` is a mount point under the partition.
pub open spec fn known_point(
    part: Seq<char>,
    mounts: Seq<(Seq<char>, Seq<char>)>,
    tgt: Seq<char>,
) -> bool {
    exists|k: int|
        0 <= k < mounts.len() && (#[trigger] mounts[k]).0 == tgt && under_part(part, mounts[k].0)
}

/// True when a module contributes a non-empty top-level directory of the
/// partition that is not a mount point, so child-mount overlays cannot show
/// it.
pub open spec fn sweep_spec(
    part: Seq<char>,
    ms: Seq<ModuleInfoView>,
    mounts: Seq<(Seq<char>, Seq<char>)>,
) -> bool {
    exists|m: int, j: int|
        0 <= m < ms.len() && module_enabled(#[trigger] ms[m]) && 0 <= j < ms[m].system.unwrap().children.len()
            && (#[trigger] ms[m].system.unwrap().children[j]).kind == FsKind::Dir && !known_point(
            part,
            mounts,
            joined(joined("/"@, part), ms[m].system.unwrap().children[j].name),
        ) && mod_top_nonempty(ms, ms[m].system.unwrap().children[j].name)
}

/// Runtime check matching [`mod_top_nonempty`].
#[verifier::loop_isolation(false)]
fn mod_top_nonempty_exec(modules: &Vec<ModuleInfo>, name: &str) -> (r: bool)
    ensures
        r == mod_top_nonempty(modules_view(modules@), name@),
{
    let ghost ms = modules_view(modules@);
    let mut m: usize = 0;
    while m < modules.len()
        invariant
            0 <= m <= modules.len(),
            ms == modules_view(modules@),
            ms.len() == modules@.len(),
            forall|q: int, j: int|
                0 <= q < m && module_enabled(#[trigger] ms[q]) && 0 <= j < ms[q].system.unwrap().children.len()
                    ==> !((#[trigger] ms[q].system.unwrap().children[j]).name == name@
                    && ms[q].system.unwrap().children[j].kind == FsKind::Dir
                    && ms[q].system.unwrap().children[j].children.len() > 0),
        decreases modules.len() - m,
    {
        proof {
            assert(ms[m as int] == module_view(modules@[m as int]));
        }
        if is_module_enabled(&modules[m]) {
            if let Some(sys) = &modules[m].system {
                let ghost sv = mod_view(*sys);
                proof {
                    lemma_mod_views(sys.children@);
                    assert(sv.children == mod_views(sys.children@));
                    assert(modules@[m as int].system == Some(*sys));
                    assert(ms[m as int].system == Some(sv));
                }
                let mut j: usize = 0;
                while j < sys.children.len()
                    invariant
                        0 <= j <= sys.children.len(),
                        sv == mod_view(*sys),
                        sv.children.len() == sys.children@.len(),
                        forall|q: int|
                            0 <= q < sys.children@.len() ==> sv.children[q] == mod_view(
                                sys.children@[q],
                            ),
                        forall|q: int|
                            0 <= q < j ==> !((#[trigger] sv.children[q]).name == name@
                                && sv.children[q].kind == FsKind::Dir
                                && sv.children[q].children.len() > 0),
                    decreases sys.children.len() - j,
                {
                    let c = &sys.children[j];
                    if str_eq(c.name.as_str(), name) && matches!(c.kind, FsKind::Dir)
                        && c.children.len() > 0 {
                        proof {
                            lemma_mod_views(c.children@);
                            assert(ms[m as int].system.unwrap() == sv);
                            assert(sv.children[j as int].name == name@);
                        }
                        return true;
                    }
                    j += 1;
                }
            }
        }
        m += 1;
    }
    false
}

/// Runtime check matching [`known_point`].
fn known_point_exec(part: &str, mounts: &Vec<(String, String)>, tgt: &str) -> (r: bool)
    ensures
        r == known_point(part@, mounts.deep_view(), tgt@),
{
    let ghost mv = mounts.deep_view();
    let mut k: usize = 0;
    while k < mounts.len()
        invariant
            0 <= k <= mounts.len(),
            mv == mounts.deep_view(),
            mv.len() == mounts@.len(),
            forall|q: int|
                0 <= q < k ==> !((#[trigger] mv[q]).0 == tgt@ && under_part(part@, mv[q].0)),
        decreases mounts.len() - k,
    {
        proof {
            assert(mv[k as int] == mounts@[k as int].deep_view());
        }
        if str_eq(mounts[k].0.as_str(), tgt) {
            let segs = crate::strutil::path_segs(mounts[k].0.as_str());
            proof {
                assert(segs.deep_view() == crate::strutil::segs_of(mv[k as int].0));
                assert(segs.deep_view().len() == segs@.len());
            }
            if segs.len() >= 2 && str_eq(segs[0].as_str(), part) {
                return true;
            }
        }
        k += 1;
    }
    false
}

/// Runtime check matching [`sweep_spec`].
#[verifier::loop_isolation(false)]
fn sweep_exec(part: &str, modules: &Vec<ModuleInfo>, mounts: &Vec<(String, String)>) -> (r: bool)
    ensures
        r == sweep_spec(part@, modules_view(modules@), mounts.deep_view()),
{
    let ghost ms = modules_view(modules@);
    let ghost mv = mounts.deep_view();
    let part_path = join_path("/", part);
    let mut m: usize = 0;
    while m < modules.len()
        invariant
            0 <= m <= modules.len(),
            ms == modules_view(modules@),
            mv == mounts.deep_view(),
            ms.len() == modules@.len(),
            part_path@ == joined("/"@, part@),
            forall|q: int, j: int|
                0 <= q < m && module_enabled(#[trigger] ms[q]) && 0 <= j < ms[q].system.unwrap().children.len()
                    ==> !((#[trigger] ms[q].system.unwrap().children[j]).kind == FsKind::Dir
                    && !known_point(part@, mv, joined(joined("/"@, part@),
                        ms[q].system.unwrap().children[j].name))
                    && mod_top_nonempty(ms, ms[q].system.unwrap().children[j].name)),
        decreases modules.len() - m,
    {
        proof {
            assert(ms[m as int] == module_view(modules@[m as int]));
        }
        if is_module_enabled(&modules[m]) {
            if let Some(sys) = &modules[m].system {
                let ghost sv = mod_view(*sys);
                proof {
                    lemma_mod_views(sys.children@);
                }
                let mut j: usize = 0;
                while j < sys.children.len()
                    invariant
                        0 <= j <= sys.children.len(),
                        sv == mod_view(*sys),
                        ms[m as int].system.unwrap() == sv,
                        sv.children.len() == sys.children@.len(),
                        forall|q: int|
                            0 <= q < sys.children@.len() ==> sv.children[q] == mod_view(
                                sys.children@[q],
                            ),
                        part_path@ == joined("/"@, part@),
                        ms == modules_view(modules@),
                        mv == mounts.deep_view(),
                        forall|q: int|
                            0 <= q < j ==> !((#[trigger] sv.children[q]).kind == FsKind::Dir
                                && !known_point(part@, mv, joined(joined("/"@, part@),
                                    sv.children[q].name))
                                && mod_top_nonempty(ms, sv.children[q].name)),
                    decreases sys.children.len() - j,
                {
                    let c = &sys.children[j];
                    if matches!(c.kind, FsKind::Dir) {
                        let tgt = join_path(part_path.as_str(), c.name.as_str());
                        if !known_point_exec(part, mounts, tgt.as_str()) {
                            if mod_top_nonempty_exec(modules, c.name.as_str()) {
                                proof {
                                    assert(sv.children[j as int] == mod_view(
                                        sys.children@[j as int],
                                    ));
                                }
                                return true;
                            }
                        }
                    }
                    j += 1;
                }
            }
        }
        m += 1;
    }
    false
}

/// `x` is a child mount point of the partition: it appears in the mount
/// list, lies strictly under `/part`, and is not itself an overlay mount.
pub open spec fn child_point(
    part: Seq<char>,
    mounts: Seq<(Seq<char>, Seq<char>)>,
    x: Seq<char>,
) -> bool {
    &&& exists|k: int| 0 <= k < mounts.len() && (#[trigger] mounts[k]).0 == x
    &&& under_part(part, x)
    &&& !point_has_overlay(mounts, x)
}

/// An existing overlay mount under the partition is a prefix of `x`.
pub open spec fn shadowed(
    part: Seq<char>,
    mounts: Seq<(Seq<char>, Seq<char>)>,
    x: Seq<char>,
) -> bool {
    exists|w: int|
        0 <= w < mounts.len() && under_part(part, (#[trigger] mounts[w]).0) && point_has_overlay(
            mounts,
            mounts[w].0,
        ) && mounts[w].0.is_prefix_of(x)
}

/// The overlay mounts planned for the first `k` child mount points of
/// `pts`, in order: a point shadowed by an existing overlay mount is passed
/// over, and otherwise [`mount_overlay_child`]'s outcome stands — one
/// overlay mount with the module layers over the stock root, or nothing.
pub open spec fn overlay_plan(
    part: Seq<char>,
    ms: Seq<ModuleInfoView>,
    mounts: Seq<(Seq<char>, Seq<char>)>,
    pts: Seq<Seq<char>>,
    k: int,
) -> Seq<crate::plan::OpView>
    decreases k,
{
    if k <= 0 || k > pts.len() {
        Seq::empty()
    } else {
        let prev = overlay_plan(part, ms, mounts, pts, k - 1);
        let x = pts[k - 1];
        if shadowed(part, mounts, x) {
            prev
        } else {
            let rel = crate::strutil::segs_of(x).skip(1);
            match lower_spec(ms, rel, ms.len() as int) {
                None => prev,
                Some(dirs) => {
                    if dirs.len() == 0 {
                        prev
                    } else {
                        prev + seq![
                            crate::plan::OpView::MountOverlay {
                                target: x,
                                options: "lowerdir="@ + joined_with(dirs.push(x), ":"@),
                            },
                        ]
                    }
                },
            }
        }
    }
}

/// True when some entry of `overs` is a prefix of `pt`.
fn any_prefix(overs: &Vec<String>, pt: &str) -> (r: bool)
    ensures
        r == exists|v: int|
            0 <= v < overs.deep_view().len() && (#[trigger] overs.deep_view()[v]).is_prefix_of(
                pt@,
            ),
{
    let mut v: usize = 0;
    while v < overs.len()
        invariant
            0 <= v <= overs.len(),
            overs@.len() == overs.deep_view().len(),
            forall|q: int|
                0 <= q < v ==> !(#[trigger] overs.deep_view()[q]).is_prefix_of(pt@),
        decreases overs.len() - v,
    {
        if crate::strutil::str_starts_with(pt, overs[v].as_str()) {
            proof {
                assert(overs.deep_view()[v as int].is_prefix_of(pt@));
            }
            return true;
        }
        v += 1;
    }
    false
}

/// Plans the overlay composition of one partition: reads the child mount
/// points under `/partition` from the mount list, refuses the partition when
/// module files lie inside an existing overlay mount or in a top-level
/// directory that is no mount point, and otherwise plans one overlay mount
/// per child mount point that modules contribute to, in ascending order of
/// mount point.
#[verifier::loop_isolation(false)]
pub fn mount_overlay_partition_recursive(
    partition: &str,
    modules: &Vec<ModuleInfo>,
    mounts: &Vec<(String, String)>,
) -> (r: Result<Vec<MountOp>, OverlayError>)
    ensures
        (r matches Err(e) && e == OverlayError::ModulesInOverlay) <==> blocked_spec(
            partition@,
            modules_view(modules@),
            mounts.deep_view(),
        ),
        (r matches Err(e) && e == OverlayError::NonMountPointModules) <==> (!blocked_spec(
            partition@,
            modules_view(modules@),
            mounts.deep_view(),
        ) && sweep_spec(partition@, modules_view(modules@), mounts.deep_view())),
        r matches Ok(ops) ==> {
            &&& !blocked_spec(partition@, modules_view(modules@), mounts.deep_view())
            &&& !sweep_spec(partition@, modules_view(modules@), mounts.deep_view())
            &&& forall|q: int|
                0 <= q < ops@.len() ==> ((#[trigger] ops@[q]) matches MountOp::MountOverlay {
                    target,
                    options,
                } && exists|k: int|
                    0 <= k < mounts.deep_view().len() && (#[trigger] mounts.deep_view()[k]).0
                        == target@ && under_part(partition@, mounts.deep_view()[k].0))
            &&& exists|pts2: Seq<Seq<char>>|
                {
                    &&& crate::strutil::strictly_sorted(pts2)
                    &&& (forall|x: Seq<char>| #[trigger]
                        pts2.contains(x) <==> child_point(partition@, mounts.deep_view(), x))
                    &&& crate::plan::op_views(ops@) == overlay_plan(
                        partition@,
                        modules_view(modules@),
                        mounts.deep_view(),
                        pts2,
                        pts2.len() as int,
                    )
                }
        },
{
    let ghost mv = mounts.deep_view();
    let ghost msv = modules_view(modules@);
    if blocked_exec(partition, modules, mounts) {
        return Err(OverlayError::ModulesInOverlay);
    }
    let mut pts: Vec<String> = Vec::new();
    let mut k: usize = 0;
    while k < mounts.len()
        invariant
            0 <= k <= mounts.len(),
            mv == mounts.deep_view(),
            mv.len() == mounts@.len(),
            forall|x: Seq<char>|
                pts.deep_view().contains(x) <==> exists|w: int|
                    0 <= w < k && (#[trigger] mv[w]).0 == x && under_part(partition@, x)
                        && !point_has_overlay(mv, x),
        decreases mounts.len() - k,
    {
        let ghost ppre = pts.deep_view();
        let pt = mounts[k].0.as_str();
        let segs = crate::strutil::path_segs(pt);
        proof {
            assert(segs.deep_view().len() == segs@.len());
            assert(mv[k as int] == mounts@[k as int].deep_view());
        }
        let under = segs.len() >= 2 && str_eq(segs[0].as_str(), partition);
        if under {
            if !crate::strutil::contains_str(&pts, pt) {
                if !point_overlay_exec(mounts, pt) {
                    pts.push(pt.to_owned());
                    proof {
                        assert(pts.deep_view() =~= ppre.push(pt@));
                        assert(under_part(partition@, mv[k as int].0));
                    }
                }
            }
        }
        proof {
            assert forall|x: Seq<char>| pts.deep_view().contains(x) implies exists|w: int|
                0 <= w < k + 1 && (#[trigger] mv[w]).0 == x && under_part(partition@, x)
                    && !point_has_overlay(mv, x) by {
                if ppre.contains(x) {
                    let w0 = choose|w0: int|
                        0 <= w0 < k && (#[trigger] mv[w0]).0 == x && under_part(partition@, x)
                            && !point_has_overlay(mv, x);
                } else {
                    let u = choose|u: int|
                        0 <= u < pts.deep_view().len() && pts.deep_view()[u] == x;
                    assert(x == pt@);
                    assert(mv[k as int].0 == x);
                }
            }
            assert forall|x: Seq<char>| (exists|w: int|
                0 <= w < k + 1 && (#[trigger] mv[w]).0 == x && under_part(partition@, x)
                    && !point_has_overlay(mv, x)) implies pts.deep_view().contains(x) by {
                let w0 = choose|w0: int|
                    0 <= w0 < k + 1 && (#[trigger] mv[w0]).0 == x && under_part(partition@, x)
                        && !point_has_overlay(mv, x);
                if w0 < k {
                    assert(ppre.contains(x));
                    if pts.deep_view() != ppre {
                        let u = choose|u: int| 0 <= u < ppre.len() && ppre[u] == x;
                        assert(pts.deep_view()[u] == x);
                    }
                } else {
                    assert(x == mv[k as int].0);
                    assert(x == pt@);
                    if !ppre.contains(x) {
                        assert(under);
                        assert(pts.deep_view().last() == pt@);
                    }
                }
            }
        }
        k += 1;
    }
    let sorted = crate::strutil::sort_dedup(&pts);
    proof {
        assert forall|x: Seq<char>| #[trigger]
            sorted.deep_view().contains(x) <==> child_point(partition@, mv, x) by {
            assert(sorted.deep_view().contains(x) <==> pts.deep_view().contains(x));
        }
        assert forall|x: Seq<char>| sorted.deep_view().contains(x) implies exists|w: int|
            0 <= w < mv.len() && (#[trigger] mv[w]).0 == x && under_part(partition@, x) by {
            assert(child_point(partition@, mv, x));
        }
    }
    let mut overs: Vec<String> = Vec::new();
    let mut k2: usize = 0;
    while k2 < mounts.len()
        invariant
            0 <= k2 <= mounts.len(),
            forall|x: Seq<char>|
                overs.deep_view().contains(x) <==> exists|w: int|
                    0 <= w < k2 && (#[trigger] mv[w]).0 == x && under_part(partition@, x)
                        && point_has_overlay(mv, x),
        decreases mounts.len() - k2,
    {
        let ghost opre = overs.deep_view();
        let pt = mounts[k2].0.as_str();
        let segs = crate::strutil::path_segs(pt);
        proof {
            assert(segs.deep_view().len() == segs@.len());
            assert(mv[k2 as int] == mounts@[k2 as int].deep_view());
        }
        let under = segs.len() >= 2 && str_eq(segs[0].as_str(), partition);
        if under {
            if point_overlay_exec(mounts, pt) {
                if !crate::strutil::contains_str(&overs, pt) {
                    overs.push(pt.to_owned());
                    proof {
                        assert(overs.deep_view() =~= opre.push(pt@));
                        assert(under_part(partition@, mv[k2 as int].0));
                    }
                }
            }
        }
        proof {
            assert forall|x: Seq<char>| overs.deep_view().contains(x) implies exists|w: int|
                0 <= w < k2 + 1 && (#[trigger] mv[w]).0 == x && under_part(partition@, x)
                    && point_has_overlay(mv, x) by {
                if opre.contains(x) {
                    let w0 = choose|w0: int|
                        0 <= w0 < k2 && (#[trigger] mv[w0]).0 == x && under_part(partition@, x)
                            && point_has_overlay(mv, x);
                } else {
                    let u = choose|u: int|
                        0 <= u < overs.deep_view().len() && overs.deep_view()[u] == x;
                    assert(x == pt@);
                    assert(mv[k2 as int].0 == x);
                }
            }
            assert forall|x: Seq<char>| (exists|w: int|
                0 <= w < k2 + 1 && (#[trigger] mv[w]).0 == x && under_part(partition@, x)
                    && point_has_overlay(mv, x)) implies overs.deep_view().contains(x) by {
                let w0 = choose|w0: int|
                    0 <= w0 < k2 + 1 && (#[trigger] mv[w0]).0 == x && under_part(partition@, x)
                        && point_has_overlay(mv, x);
                if w0 < k2 {
                    assert(opre.contains(x));
                    if overs.deep_view() != opre {
                        let u = choose|u: int| 0 <= u < opre.len() && opre[u] == x;
                        assert(overs.deep_view()[u] == x);
                    }
                } else {
                    assert(x == mv[k2 as int].0);
                    assert(x == pt@);
                    if !opre.contains(x) {
                        assert(under);
                        assert(overs.deep_view().last() == pt@);
                    }
                }
            }
        }
        k2 += 1;
    }
    let mut ops: Vec<MountOp> = Vec::new();
    let mut c: usize = 0;
    proof {
        assert(op_views(ops@) =~= overlay_plan(partition@, msv, mv, sorted.deep_view(), 0));
    }
    while c < sorted.len()
        invariant
            0 <= c <= sorted.len(),
            forall|q: int|
                0 <= q < ops@.len() ==> ((#[trigger] ops@[q]) matches MountOp::MountOverlay {
                    target,
                    options,
                } && exists|w: int|
                    0 <= w < mv.len() && (#[trigger] mv[w]).0 == target@ && under_part(
                        partition@,
                        mv[w].0,
                    )),
            op_views(ops@) == overlay_plan(partition@, msv, mv, sorted.deep_view(), c as int),
        decreases sorted.len() - c,
    {
        let pt = sorted[c].as_str();
        let ghost x = sorted.deep_view()[c as int];
        proof {
            assert(x == pt@);
            assert(sorted.deep_view().contains(x));
            assert(child_point(partition@, mv, x));
        }
        let is_shadowed = any_prefix(&overs, pt);
        proof {
            assert(is_shadowed == shadowed(partition@, mv, x)) by {
                if is_shadowed {
                    let v = choose|v: int|
                        0 <= v < overs.deep_view().len() && (#[trigger] overs.deep_view()[v]).is_prefix_of(
                            pt@,
                        );
                    assert(overs.deep_view().contains(overs.deep_view()[v]));
                }
                if shadowed(partition@, mv, x) {
                    let w = choose|w: int|
                        0 <= w < mv.len() && under_part(partition@, (#[trigger] mv[w]).0)
                            && point_has_overlay(mv, mv[w].0) && mv[w].0.is_prefix_of(x);
                    assert(overs.deep_view().contains(mv[w].0));
                    let u = choose|u: int|
                        0 <= u < overs.deep_view().len() && overs.deep_view()[u] == mv[w].0;
                }
            }
        }
        if !is_shadowed {
            let segs = crate::strutil::path_segs(pt);
            proof {
                assert(segs.deep_view() == crate::strutil::segs_of(pt@));
                assert(segs.deep_view().len() == segs@.len());
                assert(segs.deep_view().len() >= 2);
            }
            let mut rel: Vec<String> = Vec::new();
            let mut j: usize = 1;
            while j < segs.len()
                invariant
                    1 <= j <= segs@.len(),
                    rel.deep_view() =~= segs.deep_view().subrange(1, j as int),
                decreases segs.len() - j,
            {
                let ghost rpre = rel.deep_view();
                rel.push(segs[j].clone());
                proof {
                    assert(rel.deep_view() =~= rpre.push(segs.deep_view()[j as int]));
                    assert(rel.deep_view() =~= segs.deep_view().subrange(1, j as int + 1));
                }
                j += 1;
            }
            proof {
                assert(rel.deep_view() =~= segs.deep_view().skip(1));
                assert(rel.deep_view() == crate::strutil::segs_of(x).skip(1));
            }
            let ghost pre = ops@;
            match mount_overlay_child(pt, &rel, modules) {
                Some(op) => {
                    proof {
                        assert(op is MountOverlay);
                        let dirs = lower_spec(msv, rel.deep_view(), msv.len() as int).unwrap();
                        assert(crate::plan::op_view(op) == (crate::plan::OpView::MountOverlay {
                            target: x,
                            options: "lowerdir="@ + joined_with(dirs.push(x), ":"@),
                        }));
                    }
                    ops.push(op);
                    proof {
                        crate::plan::lemma_op_views_push(pre, ops@.last());
                        assert(op_views(ops@) =~= overlay_plan(
                            partition@,
                            msv,
                            mv,
                            sorted.deep_view(),
                            c as int + 1,
                        ));
                        assert forall|q: int| 0 <= q < ops@.len() implies ((#[trigger] ops@[q])
                            matches MountOp::MountOverlay { target, options } && exists|w: int|
                            0 <= w < mv.len() && (#[trigger] mv[w]).0 == target@ && under_part(
                                partition@,
                                mv[w].0,
                            )) by {
                            if q < pre.len() {
                                assert(ops@[q] == pre[q]);
                            } else {
                                assert(ops@[q] == op);
                            }
                        }
                    }
                },
                None => {
                    proof {
                        assert(op_views(ops@) =~= overlay_plan(
                            partition@,
                            msv,
                            mv,
                            sorted.deep_view(),
                            c as int + 1,
                        ));
                    }
                },
            }
        } else {
            proof {
                assert(op_views(ops@) =~= overlay_plan(
                    partition@,
                    msv,
                    mv,
                    sorted.deep_view(),
                    c as int + 1,
                ));
            }
        }
        c += 1;
    }
    proof {
        assert(sorted.deep_view().take(sorted.deep_view().len() as int) =~= sorted.deep_view());
    }
    if sweep_exec(partition, modules, mounts) {
        return Err(OverlayError::NonMountPointModules);
    }
    proof {
        let pts2 = sorted.deep_view();
        assert(crate::strutil::strictly_sorted(pts2));
        assert(op_views(ops@) == overlay_plan(partition@, msv, mv, pts2, pts2.len() as int));
    }
    Ok(ops)
}

/// The candidate partitions of the overlay composer, in driving order.
pub open spec fn overlay_candidates() -> Seq<Seq<char>> {
    seq!["system"@, "vendor"@, "odm"@, "product"@, "system_ext"@]
}

/// The candidates the composer attempts: those whose probe reports that the
/// partition path exists, in order.
pub open spec fn attempted(probes: Seq<crate::model::PartitionProbeView>, k: int) -> Seq<
    Seq<char>,
>
    decreases k,
{
    if k <= 0 || k > overlay_candidates().len() {
        Seq::empty()
    } else {
        attempted(probes, k - 1) + (if crate::model::probe_for(
            probes,
            overlay_candidates()[k - 1],
        ) matches Some(p) && p.root_exists {
            seq![overlay_candidates()[k - 1]]
        } else {
            Seq::empty()
        })
    }
}

/// The partitions the overlay composer drives, in order.
fn overlay_partitions() -> (r: Vec<String>)
    ensures
        r.deep_view().len() == 5,
        r.deep_view()[0] == "system"@,
        r.deep_view()[1] == "vendor"@,
        r.deep_view()[2] == "odm"@,
        r.deep_view()[3] == "product"@,
        r.deep_view()[4] == "system_ext"@,
{
    let mut v: Vec<String> = Vec::new();
    v.push("system".to_owned());
    v.push("vendor".to_owned());
    v.push("odm".to_owned());
    v.push("product".to_owned());
    v.push("system_ext".to_owned());
    proof {
        assert(v.deep_view().len() == 5);
        assert(v.deep_view()[0] =~= "system"@);
    }
    v
}

/// Plans overlay composition for every candidate partition that exists.
///
/// The result pairs each attempted partition — exactly the candidates
/// `system, vendor, odm, product, system_ext` whose probe reports existence,
/// in that order — with either its overlay plan or the reason composition
/// cannot work there; the caller performs the plans and runs the magic-mount
/// fallback, restricted to the refused or failed partitions, through
/// [`crate::engine::magic_mount_for_partitions`]. With no module taking part
/// nothing is attempted and no mount is established.
#[verifier::loop_isolation(false)]
pub fn overlayfs_mount(
    modules: &Vec<ModuleInfo>,
    probes: &Vec<crate::model::PartitionProbe>,
    mounts: &Vec<(String, String)>,
) -> (r: Vec<(String, Result<Vec<MountOp>, OverlayError>)>)
    ensures
        roots_spec(modules_view(modules@), modules@.len() as int).len() == 0 ==> r@.len() == 0,
        roots_spec(modules_view(modules@), modules@.len() as int).len() > 0 ==> ({
            let att = attempted(probes.deep_view(), overlay_candidates().len() as int);
            &&& r@.len() == att.len()
            &&& forall|q: int| 0 <= q < r@.len() ==> (#[trigger] r@[q]).0@ == att[q]
        }),
        forall|q: int|
            0 <= q < r@.len() ==> (((#[trigger] r@[q]).1 matches Err(e) && e
                == OverlayError::ModulesInOverlay) <==> blocked_spec(
                r@[q].0@,
                modules_view(modules@),
                mounts.deep_view(),
            )),
        forall|q: int|
            0 <= q < r@.len() ==> (((#[trigger] r@[q]).1 matches Err(e) && e
                == OverlayError::NonMountPointModules) <==> (!blocked_spec(
                r@[q].0@,
                modules_view(modules@),
                mounts.deep_view(),
            ) && sweep_spec(r@[q].0@, modules_view(modules@), mounts.deep_view()))),
        forall|q: int|
            0 <= q < r@.len() ==> ((#[trigger] r@[q]).1 matches Ok(ops) ==> {
                &&& !blocked_spec(r@[q].0@, modules_view(modules@), mounts.deep_view())
                &&& !sweep_spec(r@[q].0@, modules_view(modules@), mounts.deep_view())
                &&& exists|pts2: Seq<Seq<char>>|
                    {
                        &&& crate::strutil::strictly_sorted(pts2)
                        &&& (forall|x: Seq<char>| #[trigger]
                            pts2.contains(x) <==> child_point(
                                r@[q].0@,
                                mounts.deep_view(),
                                x,
                            ))
                        &&& op_views(ops@) == overlay_plan(
                            r@[q].0@,
                            modules_view(modules@),
                            mounts.deep_view(),
                            pts2,
                            pts2.len() as int,
                        )
                    }
            }),
{
    let roots = collect_module_system_roots(modules);
    let mut out: Vec<(String, Result<Vec<MountOp>, OverlayError>)> = Vec::new();
    if roots.len() == 0 {
        proof {
            assert(roots.deep_view().len() == roots@.len());
        }
        return out;
    }
    proof {
        assert(roots.deep_view().len() == roots@.len());
    }
    let names = overlay_partitions();
    let ghost cands = overlay_candidates();
    proof {
        assert(names.deep_view() =~= cands);
        assert(out@.len() == attempted(probes.deep_view(), 0).len());
    }
    let mut i: usize = 0;
    while i < names.len()
        invariant
            0 <= i <= names.len(),
            names@.len() == 5,
            out@.len() == attempted(probes.deep_view(), i as int).len(),
            forall|q: int|
                0 <= q < out@.len() ==> (#[trigger] out@[q]).0@ == attempted(
                    probes.deep_view(),
                    i as int,
                )[q],
            forall|q: int|
                0 <= q < out@.len() ==> (((#[trigger] out@[q]).1 matches Err(e) && e
                    == OverlayError::ModulesInOverlay) <==> blocked_spec(
                    out@[q].0@,
                    modules_view(modules@),
                    mounts.deep_view(),
                )),
            forall|q: int|
                0 <= q < out@.len() ==> (((#[trigger] out@[q]).1 matches Err(e) && e
                    == OverlayError::NonMountPointModules) <==> (!blocked_spec(
                    out@[q].0@,
                    modules_view(modules@),
                    mounts.deep_view(),
                ) && sweep_spec(out@[q].0@, modules_view(modules@), mounts.deep_view()))),
            forall|q: int|
                0 <= q < out@.len() ==> ((#[trigger] out@[q]).1 matches Ok(ops) ==> {
                    &&& !blocked_spec(out@[q].0@, modules_view(modules@), mounts.deep_view())
                    &&& !sweep_spec(out@[q].0@, modules_view(modules@), mounts.deep_view())
                    &&& exists|pts2: Seq<Seq<char>>|
                        {
                            &&& crate::strutil::strictly_sorted(pts2)
                            &&& (forall|x: Seq<char>| #[trigger]
                                pts2.contains(x) <==> child_point(
                                    out@[q].0@,
                                    mounts.deep_view(),
                                    x,
                                ))
                            &&& op_views(ops@) == overlay_plan(
                                out@[q].0@,
                                modules_view(modules@),
                                mounts.deep_view(),
                                pts2,
                                pts2.len() as int,
                            )
                        }
                }),
        decreases names.len() - i,
    {
        let name = names[i].as_str();
        proof {
            assert(names.deep_view()[i as int] == cands[i as int]);
            assert(name@ == cands[i as int]);
        }
        let attempt = match crate::model::find_probe(probes, name) {
            Some(p) => p.root_exists,
            None => false,
        };
        proof {
            assert(attempt == (crate::model::probe_for(probes.deep_view(), cands[i as int])
                matches Some(p) && p.root_exists));
        }
        if attempt {
            let ghost pre = out@;
            let res = mount_overlay_partition_recursive(name, modules, mounts);
            out.push((name.to_owned(), res));
            proof {
                assert(out@.last().0@ == cands[i as int]);
                assert(attempted(probes.deep_view(), i as int + 1) =~= attempted(
                    probes.deep_view(),
                    i as int,
                ).push(cands[i as int]));
                assert forall|q: int| 0 <= q < out@.len() implies (#[trigger] out@[q]).0@
                    == attempted(probes.deep_view(), i as int + 1)[q] by {
                    if q < pre.len() {
                        assert(out@[q] == pre[q]);
                    }
                }
            }
        } else {
            proof {
                assert(attempted(probes.deep_view(), i as int + 1) =~= attempted(
                    probes.deep_view(),
                    i as int,
                ));
            }
        }
        i += 1;
    }
    out
}

} // verus!