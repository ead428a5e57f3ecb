//! Plain-data model of what the engine reads from disk.
//!
//! Callers (the unverified binary) walk the module directories, the stock
//! partition trees and the kernel mount table, and describe them with these
//! types; every decision the engine makes is a verified function of them.

use vstd::prelude::*;

verus! {

/// What a single directory entry is, as reported by a non-following stat.
#[derive(Clone, Copy, Debug, PartialEq, Eq, Structural)]
pub enum FsKind {
    File,
    Dir,
    Symlink,
    CharDev,
    Block,
    Fifo,
    Socket,
}

/// One entry of a module's contribution tree, with the facts the engine
/// reads: its kind, its device number (whiteouts are character devices with
/// device number 0), the raw value of the `trusted.overlay.opaque` extended
/// attribute if present, and its entries when it is a directory.
#[derive(Debug)]
pub struct ModEntry {
    pub name: String,
    pub kind: FsKind,
    pub rdev: u64,
    pub opaque: Option<Vec<u8>>,
    pub children: Vec<ModEntry>,
}

/// Ghost mirror of [`ModEntry`].
pub struct ModEntryView {
    pub name: Seq<char>,
    pub kind: FsKind,
    pub rdev: u64,
    pub opaque: Option<Seq<u8>>,
    pub children: Seq<ModEntryView>,
}

/// Ghost mirror of a module entry.
pub open spec fn mod_view(e: ModEntry) -> ModEntryView
    decreases e,
{
    ModEntryView {
        name: e.name@,
        kind: e.kind,
        rdev: e.rdev,
        opaque: match e.opaque {
            Some(v) => Some(v@),
            None => None,
        },
        children: mod_views(e.children@),
    }
}

/// Ghost mirrors of a sequence of module entries, elementwise.
pub open spec fn mod_views(es: Seq<ModEntry>) -> Seq<ModEntryView>
    decreases es,
{
    if es.len() == 0 {
        Seq::empty()
    } else {
        seq![mod_view(es[0])] + mod_views(es.skip(1))
    }
}

pub proof fn lemma_mod_views(es: Seq<ModEntry>)
    ensures
        mod_views(es).len() == es.len(),
        forall|i: int| 0 <= i < es.len() ==> mod_views(es)[i] == mod_view(es[i]),
    decreases es.len(),
{
    if es.len() > 0 {
        lemma_mod_views(es.skip(1));
        assert forall|i: int| 0 <= i < es.len() implies mod_views(es)[i] == mod_view(es[i]) by {
            if i >= 1 {
                assert(mod_views(es)[i] == mod_views(es.skip(1))[i - 1]);
                assert(es.skip(1)[i - 1] == es[i]);
            }
        }
    }
}

/// One entry of the stock (read-only) tree beneath a partition root.
#[derive(Debug)]
pub struct FsEntry {
    pub name: String,
    pub kind: FsKind,
    pub children: Vec<FsEntry>,
}

/// Ghost mirror of [`FsEntry`].
pub struct FsEntryView {
    pub name: Seq<char>,
    pub kind: FsKind,
    pub children: Seq<FsEntryView>,
}

/// Ghost mirror of a stock entry.
pub open spec fn fs_view(e: FsEntry) -> FsEntryView
    decreases e,
{
    FsEntryView { name: e.name@, kind: e.kind, children: fs_views(e.children@) }
}

/// Ghost mirrors of a sequence of stock entries, elementwise.
pub open spec fn fs_views(es: Seq<FsEntry>) -> Seq<FsEntryView>
    decreases es,
{
    if es.len() == 0 {
        Seq::empty()
    } else {
        seq![fs_view(es[0])] + fs_views(es.skip(1))
    }
}

pub proof fn lemma_fs_views(es: Seq<FsEntry>)
    ensures
        fs_views(es).len() == es.len(),
        forall|i: int| 0 <= i < es.len() ==> fs_views(es)[i] == fs_view(es[i]),
    decreases es.len(),
{
    if es.len() > 0 {
        lemma_fs_views(es.skip(1));
        assert forall|i: int| 0 <= i < es.len() implies fs_views(es)[i] == fs_view(es[i]) by {
            if i >= 1 {
                assert(fs_views(es)[i] == fs_views(es.skip(1))[i - 1]);
                assert(es.skip(1)[i - 1] == es[i]);
            }
        }
    }
}

/// One directory of the module root, with the facts that decide whether the
/// module takes part: the entry must be a directory, must carry neither
/// marker file, and must hold a `system` subdirectory.
#[derive(Debug)]
pub struct ModuleInfo {
    pub is_dir: bool,
    pub has_disable: bool,
    pub has_skip_mount: bool,
    pub system: Option<ModEntry>,
    pub system_root: String,
}

/// Ghost mirror of [`ModuleInfo`].
pub struct ModuleInfoView {
    pub is_dir: bool,
    pub has_disable: bool,
    pub has_skip_mount: bool,
    pub system: Option<ModEntryView>,
    pub system_root: Seq<char>,
}

/// Ghost mirror of a module description.
pub open spec fn module_view(m: ModuleInfo) -> ModuleInfoView {
    ModuleInfoView {
        is_dir: m.is_dir,
        has_disable: m.has_disable,
        has_skip_mount: m.has_skip_mount,
        system: match m.system {
            Some(s) => Some(mod_view(s)),
            None => None,
        },
        system_root: m.system_root@,
    }
}

/// Ghost mirrors of a module list, elementwise.
pub open spec fn modules_view(ms: Seq<ModuleInfo>) -> Seq<ModuleInfoView> {
    Seq::new(ms.len(), |i: int| module_view(ms[i]))
}

/// A module takes part iff it is a directory, carries neither the `disable`
/// nor the `skip_mount` marker, and holds a `system` directory.
pub open spec fn module_enabled(m: ModuleInfoView) -> bool {
    &&& m.is_dir
    &&& !m.has_disable
    &&& !m.has_skip_mount
    &&& m.system matches Some(s) && s.kind == FsKind::Dir
}

/// Runtime check matching [`module_enabled`].
pub fn is_module_enabled(m: &ModuleInfo) -> (r: bool)
    ensures
        r == module_enabled(module_view(*m)),
{
    if !m.is_dir || m.has_disable || m.has_skip_mount {
        return false;
    }
    match &m.system {
        Some(s) => matches!(s.kind, FsKind::Dir),
        None => false,
    }
}

/// What the running system shows for one partition name: whether `/<name>`
/// exists, whether it is a directory, and whether `/system/<name>` is a
/// symlink.
#[derive(Clone, Debug)]
pub struct PartitionProbe {
    pub name: String,
    pub root_exists: bool,
    pub root_is_dir: bool,
    pub system_is_symlink: bool,
}

/// Ghost mirror of [`PartitionProbe`].
pub struct PartitionProbeView {
    pub name: Seq<char>,
    pub root_exists: bool,
    pub root_is_dir: bool,
    pub system_is_symlink: bool,
}

impl DeepView for PartitionProbe {
    type V = PartitionProbeView;

    open spec fn deep_view(&self) -> PartitionProbeView {
        PartitionProbeView {
            name: self.name@,
            root_exists: self.root_exists,
            root_is_dir: self.root_is_dir,
            system_is_symlink: self.system_is_symlink,
        }
    }
}

/// The probe for `name`, if the caller supplied one; the first match wins.
pub open spec fn probe_for(ps: Seq<PartitionProbeView>, name: Seq<char>) -> Option<
    PartitionProbeView,
>
    decreases ps.len(),
{
    if ps.len() == 0 {
        None
    } else if ps[0].name == name {
        Some(ps[0])
    } else {
        probe_for(ps.skip(1), name)
    }
}

/// Looks up the probe for `name`.
pub fn find_probe<'a>(ps: &'a Vec<PartitionProbe>, name: &str) -> (r: Option<&'a PartitionProbe>)
    ensures
        match r {
            Some(p) => probe_for(ps.deep_view(), name@) == Some(p.deep_view()),
            None => probe_for(ps.deep_view(), name@) is None,
        },
{
    let mut i: usize = 0;
    proof {
        assert(ps.deep_view().skip(0) =~= ps.deep_view());
    }
    while i < ps.len()
        invariant
            0 <= i <= ps.len(),
            ps@.len() == ps.deep_view().len(),
            probe_for(ps.deep_view(), name@) == probe_for(ps.deep_view().skip(i as int), name@),
        decreases ps.len() - i,
    {
        proof {
            assert(ps.deep_view().skip(i as int)[0] == ps.deep_view()[i as int]);
            assert(ps.deep_view().skip(i as int).skip(1) =~= ps.deep_view().skip(i as int + 1));
        }
        if crate::strutil::str_eq(ps[i].name.as_str(), name) {
            return Some(&ps[i]);
        }
        i += 1;
    }
    proof {
        assert(ps.deep_view().skip(i as int).len() == 0);
    }
    None
}

} // verus!
