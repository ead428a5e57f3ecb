use magic_mount::model::{FsKind, ModEntry, ModuleInfo, PartitionProbe};
use magic_mount::node::{Node, NodeFileType};
use magic_mount::overlay::{collect_module_system_roots, parse_mount_line, parse_mount_table};
use magic_mount::router::{collect_module_files, should_mount_partition};
use magic_mount::strutil::{join_path, join_with, path_segs, sort_dedup, split_char, str_eq,
    str_le, str_starts_with};

fn mod_file(name: &str) -> ModEntry {
    ModEntry {
        name: name.to_string(),
        kind: FsKind::File,
        rdev: 0,
        opaque: None,
        children: Vec::new(),
    }
}

fn mod_dir(name: &str, children: Vec<ModEntry>) -> ModEntry {
    ModEntry { name: name.to_string(), kind: FsKind::Dir, rdev: 0, opaque: None, children }
}

fn module(root: &str, system: ModEntry) -> ModuleInfo {
    ModuleInfo {
        is_dir: true,
        has_disable: false,
        has_skip_mount: false,
        system: Some(system),
        system_root: root.to_string(),
    }
}

fn probe(name: &str, root_is_dir: bool, system_is_symlink: bool) -> PartitionProbe {
    PartitionProbe {
        name: name.to_string(),
        root_exists: root_is_dir,
        root_is_dir,
        system_is_symlink,
    }
}

#[test]
fn split_and_segments() {
    let segs = path_segs("/system/etc/hosts");
    assert_eq!(segs, vec!["system".to_string(), "etc".to_string(), "hosts".to_string()]);
    assert_eq!(path_segs("/"), Vec::<String>::new());
    assert_eq!(path_segs(""), Vec::<String>::new());
    assert_eq!(path_segs("a//b/"), vec!["a".to_string(), "b".to_string()]);
    let pieces = split_char("a,,b", ',');
    assert_eq!(pieces, vec!["a".to_string(), String::new(), "b".to_string()]);
}

#[test]
fn join_helpers() {
    assert_eq!(join_path("/system", "etc"), "/system/etc");
    assert_eq!(join_path("/", "system"), "/system");
    assert_eq!(join_path("/x", ""), "/x");
    let parts = vec!["a".to_string(), "b".to_string(), "c".to_string()];
    assert_eq!(join_with(&parts, ":"), "a:b:c");
    assert_eq!(join_with(&Vec::new(), ":"), "");
}

#[test]
fn string_order_and_prefix() {
    assert!(str_le("/a", "/b"));
    assert!(str_le("/a", "/a"));
    assert!(!str_le("/b", "/a"));
    assert!(str_le("/a", "/a/b"));
    assert!(str_eq("abc", "abc"));
    assert!(!str_eq("abc", "abd"));
    assert!(str_starts_with("/system/app", "/system"));
    assert!(!str_starts_with("/sys", "/system"));
    let v = vec![
        "/system/b".to_string(),
        "/system/a".to_string(),
        "/system/b".to_string(),
    ];
    let sorted = sort_dedup(&v);
    assert_eq!(sorted, vec!["/system/a".to_string(), "/system/b".to_string()]);
}

#[test]
fn mount_line_parsing() {
    assert_eq!(
        parse_mount_line("/dev/block /system ext4 ro 0 0"),
        Some(("/system".to_string(), "ext4".to_string()))
    );
    assert_eq!(parse_mount_line("short line"), None);
    let table = parse_mount_table(
        "overlay /system/product overlay ro 0 0\n/dev/sda /vendor ext4 rw 0 0\n\nbad",
    );
    assert_eq!(
        table,
        vec![
            ("/system/product".to_string(), "overlay".to_string()),
            ("/vendor".to_string(), "ext4".to_string()),
        ]
    );
}

#[test]
fn partition_decision() {
    let p = probe("vendor", true, true);
    assert!(should_mount_partition(Some(&p), "vendor", true));
    assert!(!should_mount_partition(Some(&p), "vendor", false));
    let q = probe("odm", true, false);
    assert!(should_mount_partition(Some(&q), "odm", false));
    assert!(!should_mount_partition(Some(&q), "odm", true));
    let missing = probe("oem", false, false);
    assert!(!should_mount_partition(Some(&missing), "oem", false));
    assert!(!should_mount_partition(None, "vendor", true));
    let sys = probe("system", true, false);
    assert!(should_mount_partition(Some(&sys), "system", false));
}

#[test]
fn whiteout_and_opaque_detection() {
    let wh = ModEntry {
        name: "foo".to_string(),
        kind: FsKind::CharDev,
        rdev: 0,
        opaque: None,
        children: Vec::new(),
    };
    let n = Node::new_module(&wh, "/m/foo").expect("whiteout node");
    assert_eq!(n.file_type, NodeFileType::Whiteout);
    let dev = ModEntry { rdev: 5, ..wh };
    assert!(Node::new_module(&dev, "/m/foo").is_none());
    let opaque_dir = ModEntry {
        name: "Foo".to_string(),
        kind: FsKind::Dir,
        rdev: 0,
        opaque: Some(b"y".to_vec()),
        children: Vec::new(),
    };
    let d = Node::new_module(&opaque_dir, "/m/Foo").expect("dir node");
    assert!(d.replace);
    let plain_dir = ModEntry { opaque: Some(b"n".to_vec()), ..opaque_dir };
    let d2 = Node::new_module(&plain_dir, "/m/Foo").expect("dir node");
    assert!(!d2.replace);
}

#[test]
fn collection_merges_and_prunes() {
    let m1 = module(
        "/data/adb/modules/a/system",
        mod_dir("system", vec![mod_dir("etc", vec![mod_file("hosts")])]),
    );
    // the second module adds an empty directory shell, which is pruned,
    // and a conflicting file under the same path, where the first wins
    let m2 = module(
        "/data/adb/modules/b/system",
        mod_dir(
            "system",
            vec![mod_dir("empty", Vec::new()), mod_dir("etc", vec![mod_file("hosts")])],
        ),
    );
    let probes = vec![probe("system", true, false)];
    let root = collect_module_files(&vec![m1, m2], &probes).expect("tree");
    assert_eq!(root.name, "");
    assert_eq!(root.children.len(), 1);
    let system = &root.children[0];
    assert_eq!(system.name, "system");
    assert_eq!(system.children.len(), 1, "empty shell directory must be pruned");
    let etc = &system.children[0];
    assert_eq!(etc.name, "etc");
    assert_eq!(etc.children.len(), 1);
    let hosts = &etc.children[0];
    assert_eq!(hosts.file_type, NodeFileType::RegularFile);
    assert_eq!(
        hosts.source_path.as_deref(),
        Some("/data/adb/modules/a/system/etc/hosts"),
        "first contributor wins"
    );
}

#[test]
fn collection_empty_without_content() {
    let m = module("/data/adb/modules/a/system", mod_dir("system", Vec::new()));
    let probes = vec![probe("system", true, false)];
    assert!(collect_module_files(&vec![m], &probes).is_none());
    let disabled = ModuleInfo {
        is_dir: true,
        has_disable: true,
        has_skip_mount: false,
        system: Some(mod_dir("system", vec![mod_file("x")])),
        system_root: "/data/adb/modules/d/system".to_string(),
    };
    assert!(collect_module_files(&vec![disabled], &probes).is_none());
}

#[test]
fn partition_lift() {
    // S5: /vendor is a directory and /system/vendor is a symlink, so the
    // vendor subtree roots at /vendor instead of /system/vendor.
    let m = module(
        "/data/adb/modules/a/system",
        mod_dir(
            "system",
            vec![mod_dir("vendor", vec![mod_dir("etc", vec![mod_file("v.conf")])])],
        ),
    );
    let probes = vec![probe("system", true, false), probe("vendor", true, true)];
    let root = collect_module_files(&vec![m], &probes).expect("tree");
    assert_eq!(root.children.len(), 2);
    assert_eq!(root.children[0].name, "vendor");
    assert_eq!(root.children[1].name, "system");
    assert!(root.children[1].children.is_empty(), "vendor left the system subtree");
}

#[test]
fn module_roots_listing() {
    let m1 = module("/data/adb/modules/a/system", mod_dir("system", vec![mod_file("f")]));
    let skipped = ModuleInfo {
        is_dir: true,
        has_disable: false,
        has_skip_mount: true,
        system: Some(mod_dir("system", vec![mod_file("g")])),
        system_root: "/data/adb/modules/s/system".to_string(),
    };
    let roots = collect_module_system_roots(&vec![m1, skipped]);
    assert_eq!(roots, vec!["/data/adb/modules/a/system".to_string()]);
}
