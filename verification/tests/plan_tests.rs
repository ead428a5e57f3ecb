use magic_mount::engine::{magic_mount, magic_mount_for_partitions};
use magic_mount::model::{FsEntry, FsKind, ModEntry, ModuleInfo, PartitionProbe};
use magic_mount::overlay::{mount_overlay_child, mount_overlay_partition,
    mount_overlay_partition_recursive, overlayfs_mount, OverlayError};
use magic_mount::plan::MountOp;

const WORK: &str = "/debug_ramdisk/workdir";

fn mod_file(name: &str) -> ModEntry {
    ModEntry {
        name: name.to_string(),
        kind: FsKind::File,
        rdev: 0,
        opaque: None,
        children: Vec::new(),
    }
}

fn mod_symlink(name: &str) -> ModEntry {
    ModEntry {
        name: name.to_string(),
        kind: FsKind::Symlink,
        rdev: 0,
        opaque: None,
        children: Vec::new(),
    }
}

fn mod_whiteout(name: &str) -> ModEntry {
    ModEntry {
        name: name.to_string(),
        kind: FsKind::CharDev,
        rdev: 0,
        opaque: None,
        children: Vec::new(),
    }
}

fn mod_dir(name: &str, children: Vec<ModEntry>) -> ModEntry {
    ModEntry { name: name.to_string(), kind: FsKind::Dir, rdev: 0, opaque: None, children }
}

fn mod_opaque_dir(name: &str, children: Vec<ModEntry>) -> ModEntry {
    ModEntry {
        name: name.to_string(),
        kind: FsKind::Dir,
        rdev: 0,
        opaque: Some(b"y".to_vec()),
        children,
    }
}

fn module(root: &str, system: ModEntry) -> ModuleInfo {
    ModuleInfo {
        is_dir: true,
        has_disable: false,
        has_skip_mount: false,
        system: Some(system),
        system_root: root.to_string(),
    }
}

fn probe(name: &str, root_is_dir: bool, system_is_symlink: bool) -> PartitionProbe {
    PartitionProbe {
        name: name.to_string(),
        root_exists: root_is_dir,
        root_is_dir,
        system_is_symlink,
    }
}

fn fs_file(name: &str) -> FsEntry {
    FsEntry { name: name.to_string(), kind: FsKind::File, children: Vec::new() }
}

fn fs_dir(name: &str, children: Vec<FsEntry>) -> FsEntry {
    FsEntry { name: name.to_string(), kind: FsKind::Dir, children }
}

fn fs_root(children: Vec<FsEntry>) -> FsEntry {
    FsEntry { name: String::new(), kind: FsKind::Dir, children }
}

fn sys_probe() -> Vec<PartitionProbe> {
    vec![probe("system", true, false)]
}

#[test]
fn zero_modules_plan_is_empty() {
    // P10: with no enabled module the engine succeeds with no mounts.
    let stock = fs_root(vec![fs_dir("system", Vec::new())]);
    let (ops, warnings) = magic_mount(&Vec::new(), &sys_probe(), &stock, WORK);
    assert!(ops.is_empty());
    assert!(warnings.is_empty());
    let outcome = overlayfs_mount(&Vec::new(), &sys_probe(), &Vec::new());
    assert!(outcome.is_empty());
}

#[test]
fn file_over_matching_stock_binds_in_place() {
    // A module file whose stock counterpart is a regular file needs no
    // tmpfs: it is bind-mounted directly over the stock path.
    let m = module(
        "/data/adb/modules/a/system",
        mod_dir("system", vec![mod_dir("etc", vec![mod_file("hosts")])]),
    );
    let stock = fs_root(vec![fs_dir(
        "system",
        vec![fs_dir("etc", vec![fs_file("hosts"), fs_file("passwd")])],
    )]);
    let (ops, warnings) = magic_mount(&vec![m], &sys_probe(), &stock, WORK);
    assert!(warnings.is_empty());
    assert_eq!(
        ops,
        vec![
            MountOp::MountTmpfs { target: WORK.to_string() },
            MountOp::MakePrivate { target: WORK.to_string() },
            MountOp::BindMount {
                source: "/data/adb/modules/a/system/etc/hosts".to_string(),
                target: "/system/etc/hosts".to_string(),
            },
            MountOp::UnmountDetach { target: WORK.to_string() },
            MountOp::RemoveDir { target: WORK.to_string() },
        ]
    );
}

#[test]
fn whiteout_with_stock_entry_builds_skeleton() {
    // S3: a whiteout over an existing stock file forces a tmpfs for the
    // parent; the hidden entry is absent and the sibling is mirrored.
    let m = module(
        "/data/adb/modules/a/system",
        mod_dir("system", vec![mod_dir("bin", vec![mod_whiteout("foo")])]),
    );
    let stock = fs_root(vec![fs_dir(
        "system",
        vec![fs_dir("bin", vec![fs_file("foo"), fs_file("other")])],
    )]);
    let (ops, warnings) = magic_mount(&vec![m], &sys_probe(), &stock, WORK);
    assert!(warnings.is_empty());
    let wbin = format!("{WORK}/system/bin");
    assert_eq!(
        ops,
        vec![
            MountOp::MountTmpfs { target: WORK.to_string() },
            MountOp::MakePrivate { target: WORK.to_string() },
            MountOp::CreateDirAll { target: wbin.clone() },
            MountOp::CloneAttrs { source: "/system/bin".to_string(), target: wbin.clone() },
            MountOp::BindSelf { target: wbin.clone() },
            MountOp::CreateFile { target: format!("{wbin}/other") },
            MountOp::BindMount {
                source: "/system/bin/other".to_string(),
                target: format!("{wbin}/other"),
            },
            MountOp::MoveMount { source: wbin.clone(), target: "/system/bin".to_string() },
            MountOp::MakePrivate { target: "/system/bin".to_string() },
            MountOp::UnmountDetach { target: WORK.to_string() },
            MountOp::RemoveDir { target: WORK.to_string() },
        ]
    );
}

#[test]
fn whiteout_of_missing_stock_needs_nothing() {
    // P11: a whiteout of a non-existent stock path establishes no mounts at
    // that path and raises no error.
    let m = module(
        "/data/adb/modules/a/system",
        mod_dir("system", vec![mod_dir("bin", vec![mod_whiteout("foo")])]),
    );
    let stock = fs_root(vec![fs_dir("system", vec![fs_dir("bin", vec![fs_file("ls")])])]);
    let (ops, warnings) = magic_mount(&vec![m], &sys_probe(), &stock, WORK);
    assert!(warnings.is_empty());
    assert_eq!(
        ops,
        vec![
            MountOp::MountTmpfs { target: WORK.to_string() },
            MountOp::MakePrivate { target: WORK.to_string() },
            MountOp::UnmountDetach { target: WORK.to_string() },
            MountOp::RemoveDir { target: WORK.to_string() },
        ]
    );
}

#[test]
fn symlink_over_stock_file_needs_skeleton() {
    // P12 / S4: a module symlink always lives in the skeleton; stock
    // siblings are mirrored.
    let m = module(
        "/data/adb/modules/a/system",
        mod_dir("system", vec![mod_dir("lib", vec![mod_symlink("libbar.so")])]),
    );
    let stock = fs_root(vec![fs_dir(
        "system",
        vec![fs_dir("lib", vec![fs_file("libbar.so"), fs_file("libc.so")])],
    )]);
    let (ops, warnings) = magic_mount(&vec![m], &sys_probe(), &stock, WORK);
    assert!(warnings.is_empty());
    let wlib = format!("{WORK}/system/lib");
    assert_eq!(
        ops,
        vec![
            MountOp::MountTmpfs { target: WORK.to_string() },
            MountOp::MakePrivate { target: WORK.to_string() },
            MountOp::CreateDirAll { target: wlib.clone() },
            MountOp::CloneAttrs { source: "/system/lib".to_string(), target: wlib.clone() },
            MountOp::BindSelf { target: wlib.clone() },
            MountOp::CloneSymlink {
                source: "/data/adb/modules/a/system/lib/libbar.so".to_string(),
                target: format!("{wlib}/libbar.so"),
            },
            MountOp::CreateFile { target: format!("{wlib}/libc.so") },
            MountOp::BindMount {
                source: "/system/lib/libc.so".to_string(),
                target: format!("{wlib}/libc.so"),
            },
            MountOp::MoveMount { source: wlib.clone(), target: "/system/lib".to_string() },
            MountOp::MakePrivate { target: "/system/lib".to_string() },
            MountOp::UnmountDetach { target: WORK.to_string() },
            MountOp::RemoveDir { target: WORK.to_string() },
        ]
    );
}

#[test]
fn opaque_directory_hides_stock_entries() {
    // S2 / P6 / P7: an opaque module directory replaces the stock listing;
    // the stock entries X and Y are not mirrored.
    let m = module(
        "/data/adb/modules/a/system",
        mod_dir(
            "system",
            vec![mod_dir("app", vec![mod_opaque_dir("Foo", vec![mod_file("bar.apk")])])],
        ),
    );
    let stock = fs_root(vec![fs_dir(
        "system",
        vec![fs_dir("app", vec![fs_dir("Foo", vec![fs_file("X"), fs_file("Y")])])],
    )]);
    let (ops, warnings) = magic_mount(&vec![m], &sys_probe(), &stock, WORK);
    assert!(warnings.is_empty());
    let wfoo = format!("{WORK}/system/app/Foo");
    assert_eq!(
        ops,
        vec![
            MountOp::MountTmpfs { target: WORK.to_string() },
            MountOp::MakePrivate { target: WORK.to_string() },
            MountOp::CreateDirAll { target: wfoo.clone() },
            MountOp::CloneAttrs {
                source: "/system/app/Foo".to_string(),
                target: wfoo.clone(),
            },
            MountOp::BindSelf { target: wfoo.clone() },
            MountOp::CreateFile { target: format!("{wfoo}/bar.apk") },
            MountOp::BindMount {
                source: "/data/adb/modules/a/system/app/Foo/bar.apk".to_string(),
                target: format!("{wfoo}/bar.apk"),
            },
            MountOp::MoveMount {
                source: wfoo.clone(),
                target: "/system/app/Foo".to_string(),
            },
            MountOp::MakePrivate { target: "/system/app/Foo".to_string() },
            MountOp::UnmountDetach { target: WORK.to_string() },
            MountOp::RemoveDir { target: WORK.to_string() },
        ]
    );
    for op in &ops {
        let touches = |t: &String| t.contains("/X") || t.contains("/Y");
        match op {
            MountOp::BindMount { source, target } => {
                assert!(!touches(source) && !touches(target))
            },
            MountOp::CreateFile { target } => assert!(!touches(target)),
            _ => {},
        }
    }
}

#[test]
fn planner_is_deterministic() {
    // Two runs over the same snapshot plan the same mounts, the plan-level
    // face of running the engine twice with no module changes.
    let build_module = || {
        module(
            "/data/adb/modules/a/system",
            mod_dir("system", vec![mod_dir("bin", vec![mod_whiteout("foo")])]),
        )
    };
    let build_stock = || {
        fs_root(vec![fs_dir(
            "system",
            vec![fs_dir("bin", vec![fs_file("foo"), fs_file("other")])],
        )])
    };
    let first = magic_mount(&vec![build_module()], &sys_probe(), &build_stock(), WORK);
    let second = magic_mount(&vec![build_module()], &sys_probe(), &build_stock(), WORK);
    assert_eq!(first.0, second.0);
}

#[test]
fn overlay_child_layers_and_options() {
    let a = module(
        "/data/adb/modules/a/system",
        mod_dir("system", vec![mod_dir("product", vec![mod_file("x.apk")])]),
    );
    let b = module(
        "/data/adb/modules/b/system",
        mod_dir("system", vec![mod_dir("product", vec![mod_file("y.apk")])]),
    );
    let rel = vec!["product".to_string()];
    let a2 = module(
        "/data/adb/modules/a/system",
        mod_dir("system", vec![mod_dir("product", vec![mod_file("x.apk")])]),
    );
    let op = mount_overlay_child("/system/product", &rel, &vec![a2, b]).expect("op");
    let expected = format!(
        "lowerdir={}:{}:{}",
        "/data/adb/modules/a/system/product",
        "/data/adb/modules/b/system/product",
        "/system/product"
    );
    assert_eq!(
        op,
        MountOp::MountOverlay { target: "/system/product".to_string(), options: expected }
    );
    // a module file where a directory is required blocks the mount point
    let blocker = module(
        "/data/adb/modules/c/system",
        mod_dir("system", vec![mod_file("product")]),
    );
    assert!(mount_overlay_child("/system/product", &rel, &vec![a, blocker]).is_none());
}

#[test]
fn overlay_partition_guards() {
    let lower = vec!["/data/adb/modules/a/system/vendor".to_string()];
    let p = probe("vendor", true, false);
    let op = mount_overlay_partition("vendor", &lower, Some(&p)).expect("op");
    assert_eq!(
        op,
        MountOp::MountOverlay {
            target: "/vendor".to_string(),
            options: "lowerdir=/data/adb/modules/a/system/vendor".to_string(),
        }
    );
    assert!(mount_overlay_partition("vendor", &Vec::new(), Some(&p)).is_none());
    let sym = probe("vendor", true, true);
    assert!(mount_overlay_partition("vendor", &lower, Some(&sym)).is_none());
    assert!(mount_overlay_partition("vendor", &lower, None).is_none());
}

#[test]
fn overlay_blocked_by_existing_overlay() {
    // S6 / P13: module files inside an existing overlay mount fail the
    // partition, and the fallback plans only that partition's subtree.
    let build_module = || {
        module(
            "/data/adb/modules/a/system",
            mod_dir(
                "system",
                vec![mod_dir(
                    "product",
                    vec![mod_dir("app", vec![mod_dir("Z", vec![mod_file("z.apk")])])],
                )],
            ),
        )
    };
    let mounts = vec![("/system/product".to_string(), "overlay".to_string())];
    let res = mount_overlay_partition_recursive("system", &vec![build_module()], &mounts);
    assert_eq!(res, Err(OverlayError::ModulesInOverlay));

    let probes = sys_probe();
    let outcome = overlayfs_mount(&vec![build_module()], &probes, &mounts);
    let system_entry = outcome.iter().find(|e| e.0 == "system").expect("system attempted");
    assert_eq!(system_entry.1, Err(OverlayError::ModulesInOverlay));

    let stock = fs_root(vec![fs_dir(
        "system",
        vec![fs_dir("product", vec![fs_dir("app", Vec::new())])],
    )]);
    let failed = vec!["system".to_string()];
    let (ops, warnings) =
        magic_mount_for_partitions(&vec![build_module()], &probes, &stock, WORK, &failed);
    assert!(warnings.is_empty());
    assert!(ops.iter().all(|op| match op {
        MountOp::MountOverlay { .. } => false,
        _ => true,
    }));
    assert!(ops.len() > 4, "the system subtree is planned by the fallback");
}

#[test]
fn overlay_non_mountpoint_modules_fail_partition() {
    // a module contributes under /system/bin, but only /system/product is a
    // child mount point: child-mount overlays cannot show the contribution
    let m = module(
        "/data/adb/modules/a/system",
        mod_dir("system", vec![mod_dir("bin", vec![mod_file("tool")])]),
    );
    let mounts = vec![("/system/product".to_string(), "ext4".to_string())];
    let res = mount_overlay_partition_recursive("system", &vec![m], &mounts);
    assert_eq!(res, Err(OverlayError::NonMountPointModules));
}

#[test]
fn overlay_plans_child_mounts() {
    let m = module(
        "/data/adb/modules/a/system",
        mod_dir("system", vec![mod_dir("product", vec![mod_file("x.apk")])]),
    );
    let mounts = vec![("/system/product".to_string(), "ext4".to_string())];
    let res = mount_overlay_partition_recursive("system", &vec![m], &mounts).expect("plan");
    assert_eq!(
        res,
        vec![MountOp::MountOverlay {
            target: "/system/product".to_string(),
            options: "lowerdir=/data/adb/modules/a/system/product:/system/product".to_string(),
        }]
    );
}
