use magic_mount::engine::{do_magic_mount, magic_mount};
use magic_mount::model::{FsEntry, FsKind, ModEntry, ModuleInfo, PartitionProbe};
use magic_mount::node::{Node, NodeFileType};
use magic_mount::plan::{EngineError, MountOp};

fn bare_node(name: &str, file_type: NodeFileType) -> Node {
    Node {
        name: name.to_string(),
        file_type,
        children: Vec::new(),
        source_path: None,
        replace: false,
        skip: false,
    }
}

#[test]
fn file_without_source_is_refused() {
    let node = bare_node("f", NodeFileType::RegularFile);
    let mut ops: Vec<MountOp> = Vec::new();
    let mut warnings: Vec<EngineError> = Vec::new();
    let r = do_magic_mount(None, "/x", "/w", &node, false, &mut ops, &mut warnings);
    assert_eq!(r, Err(EngineError::RootFile { path: "/x/f".to_string() }));
    assert!(ops.is_empty());
}

#[test]
fn symlink_without_source_is_refused() {
    let node = bare_node("l", NodeFileType::Symlink);
    let mut ops: Vec<MountOp> = Vec::new();
    let mut warnings: Vec<EngineError> = Vec::new();
    let r = do_magic_mount(None, "/x", "/w", &node, false, &mut ops, &mut warnings);
    assert_eq!(r, Err(EngineError::RootSymlink { path: "/x/l".to_string() }));
    assert!(ops.is_empty());
}

#[test]
fn replaced_directory_without_source_is_refused() {
    let node = Node { replace: true, ..bare_node("d", NodeFileType::Directory) };
    let mut ops: Vec<MountOp> = Vec::new();
    let mut warnings: Vec<EngineError> = Vec::new();
    let r = do_magic_mount(None, "/x", "/w", &node, false, &mut ops, &mut warnings);
    assert_eq!(r, Err(EngineError::ReplacedRoot { path: "/x/d".to_string() }));
}

#[test]
fn skeleton_without_any_metadata_source_is_refused() {
    // a directory that must be staged (its child is a symlink) but has
    // neither a stock nor a module counterpart to copy attributes from
    let node = Node {
        source_path: Some("/m/d".to_string()),
        children: vec![Node {
            source_path: Some("/m/d/l".to_string()),
            ..bare_node("l", NodeFileType::Symlink)
        }],
        ..bare_node("d", NodeFileType::Directory)
    };
    let mut ops: Vec<MountOp> = Vec::new();
    let mut warnings: Vec<EngineError> = Vec::new();
    let r = do_magic_mount(None, "/x", "/w", &node, true, &mut ops, &mut warnings);
    assert!(r.is_ok(), "with a module source the skeleton can be staged");
    // without any metadata source the same directory is refused
    let bad = Node {
        source_path: None,
        children: vec![Node {
            source_path: Some("/m/d/l".to_string()),
            ..bare_node("l", NodeFileType::Symlink)
        }],
        ..bare_node("d", NodeFileType::Directory)
    };
    let mut ops2: Vec<MountOp> = Vec::new();
    let mut warnings2: Vec<EngineError> = Vec::new();
    let r2 = do_magic_mount(None, "/x", "/w", &bad, true, &mut ops2, &mut warnings2);
    assert_eq!(r2, Err(EngineError::RootDir { path: "/x/d".to_string() }));
}

#[test]
fn root_level_mismatch_is_skipped_with_warning() {
    // the synthetic root cannot be staged as a tmpfs: a partition subtree
    // whose stock counterpart is missing is skipped and reported
    let m = ModuleInfo {
        is_dir: true,
        has_disable: false,
        has_skip_mount: false,
        system: Some(ModEntry {
            name: "system".to_string(),
            kind: FsKind::Dir,
            rdev: 0,
            opaque: None,
            children: vec![ModEntry {
                name: "f".to_string(),
                kind: FsKind::File,
                rdev: 0,
                opaque: None,
                children: Vec::new(),
            }],
        }),
        system_root: "/data/adb/modules/a/system".to_string(),
    };
    let probes = vec![PartitionProbe {
        name: "system".to_string(),
        root_exists: true,
        root_is_dir: true,
        system_is_symlink: false,
    }];
    // stock root with no `system` entry at all
    let stock = FsEntry { name: String::new(), kind: FsKind::Dir, children: Vec::new() };
    let (ops, warnings) = magic_mount(&vec![m], &probes, &stock, "/w");
    assert_eq!(
        warnings,
        vec![EngineError::SkippedChild { path: "/".to_string(), name: "system".to_string() }]
    );
    assert_eq!(
        ops,
        vec![
            MountOp::MountTmpfs { target: "/w".to_string() },
            MountOp::MakePrivate { target: "/w".to_string() },
            MountOp::UnmountDetach { target: "/w".to_string() },
            MountOp::RemoveDir { target: "/w".to_string() },
        ]
    );
}
