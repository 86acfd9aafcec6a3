use abspath::classify::classify;
use abspath::component::{
    are_relative, is_absolute_path, is_sequenced_path, PathComponent, Prefix, Scheme,
};
use abspath::context::{DriveDirectory, ResolutionContext};
use abspath::error::ErrorKind;
use abspath::reduce::{apply, reduce};
use abspath::render::render;
use abspath::resolve::{resolve_components, resolve_path};

const DRIVES: Scheme = Scheme::DriveLetter;
const SINGLE: Scheme = Scheme::SingleRoot;

fn context(scheme: Scheme, cwd: &[u8], drives: &[(u8, &[u8])]) -> ResolutionContext {
    ResolutionContext {
        current_dir: Some(classify(scheme, cwd)),
        drive_dirs: drives
            .iter()
            .map(|(letter, dir)| DriveDirectory { letter: *letter, directory: classify(scheme, dir) })
            .collect(),
    }
}

fn without_current_dir() -> ResolutionContext {
    ResolutionContext { current_dir: None, drive_dirs: Vec::new() }
}

fn resolve_text(scheme: Scheme, path: &[u8], ctx: &ResolutionContext) -> Vec<u8> {
    render(scheme, &resolve_path(scheme, path, ctx).unwrap())
}

fn resolve_kind(scheme: Scheme, path: &[u8], ctx: &ResolutionContext) -> ErrorKind {
    resolve_path(scheme, path, ctx).unwrap_err().kind
}

#[test]
fn drive_relative_on_current_drive_uses_current_dir() {
    let ctx = context(DRIVES, b"C:\\Users\\me", &[]);
    assert_eq!(resolve_text(DRIVES, b"C:projects", &ctx), b"C:\\Users\\me\\projects");
}

#[test]
fn drive_relative_on_other_drive_uses_recorded_dir() {
    let ctx = context(DRIVES, b"D:\\data", &[(b'C', b"C:\\Tools")]);
    assert_eq!(resolve_text(DRIVES, b"C:projects", &ctx), b"C:\\Tools\\projects");
}

#[test]
fn drive_relative_without_record_uses_drive_root() {
    let ctx = context(DRIVES, b"D:\\data", &[]);
    assert_eq!(resolve_text(DRIVES, b"C:projects", &ctx), b"C:\\projects");
}

#[test]
fn drive_relative_prefers_current_dir_over_record() {
    let ctx = context(DRIVES, b"C:\\Users\\me", &[(b'C', b"C:\\Tools")]);
    assert_eq!(resolve_text(DRIVES, b"c:x", &ctx), b"C:\\Users\\me\\x");
}

#[test]
fn first_record_of_a_drive_counts() {
    let ctx = context(DRIVES, b"D:\\data", &[(b'E', b"E:\\e"), (b'C', b"C:\\one"), (b'C', b"C:\\two")]);
    assert_eq!(resolve_text(DRIVES, b"C:x", &ctx), b"C:\\one\\x");
    assert_eq!(resolve_text(DRIVES, b"E:..\\x", &ctx), b"E:\\x");
}

#[test]
fn drive_relative_matches_a_verbatim_current_dir() {
    let ctx = context(DRIVES, b"\\\\?\\C:\\Users", &[]);
    assert_eq!(
        resolve_path(DRIVES, b"C:x", &ctx).unwrap(),
        vec![
            PathComponent::Prefix(Prefix::VerbatimDisk(b'C')),
            PathComponent::RootSeparator,
            PathComponent::NamedSegment(b"Users".to_vec()),
            PathComponent::NamedSegment(b"x".to_vec()),
        ]
    );
    assert_eq!(resolve_text(DRIVES, b"C:x", &ctx), b"\\\\?\\C:\\Users\\x");
}

#[test]
fn rooted_driveless_takes_current_drive() {
    let ctx = context(DRIVES, b"C:\\Users\\me", &[]);
    assert_eq!(resolve_text(DRIVES, b"\\temp", &ctx), b"C:\\temp");
    assert_eq!(resolve_text(DRIVES, b"/temp/../x", &ctx), b"C:\\x");
}

#[test]
fn rooted_driveless_takes_drive_of_verbatim_current_dir() {
    let ctx = context(DRIVES, b"\\\\?\\D:\\data", &[]);
    assert_eq!(resolve_text(DRIVES, b"\\temp", &ctx), b"D:\\temp");
}

#[test]
fn rooted_driveless_fails_without_current_drive() {
    let ctx = context(DRIVES, b"\\\\server\\share\\dir", &[]);
    let err = resolve_path(DRIVES, b"\\temp", &ctx).unwrap_err();
    assert_eq!(err.kind, ErrorKind::DriveResolution);
    assert_eq!(err.path, b"\\temp");
}

#[test]
fn fully_anchored_path_needs_no_context() {
    let ctx = without_current_dir();
    assert_eq!(resolve_text(DRIVES, b"C:\\a\\.\\b\\..\\c", &ctx), b"C:\\a\\c");
    assert_eq!(resolve_text(DRIVES, b"\\\\?\\E:\\data", &ctx), b"E:\\data");
    assert_eq!(resolve_text(SINGLE, b"/a/./b/../c", &ctx), b"/a/c");
}

#[test]
fn missing_current_dir_fails_where_it_is_needed() {
    let ctx = without_current_dir();
    assert_eq!(resolve_kind(DRIVES, b"x", &ctx), ErrorKind::CurrentDirUnavailable);
    assert_eq!(resolve_kind(DRIVES, b"", &ctx), ErrorKind::CurrentDirUnavailable);
    assert_eq!(resolve_kind(DRIVES, b"C:x", &ctx), ErrorKind::CurrentDirUnavailable);
    assert_eq!(resolve_kind(DRIVES, b"\\x", &ctx), ErrorKind::CurrentDirUnavailable);
    assert_eq!(resolve_kind(SINGLE, b"x", &ctx), ErrorKind::CurrentDirUnavailable);
    let err = resolve_path(SINGLE, b"a/b", &ctx).unwrap_err();
    assert_eq!(err.path, b"a/b");
}

#[test]
fn recorded_dir_is_not_read_without_current_dir() {
    let ctx = ResolutionContext {
        current_dir: None,
        drive_dirs: vec![DriveDirectory { letter: b'C', directory: classify(DRIVES, b"C:\\Tools") }],
    };
    assert_eq!(resolve_kind(DRIVES, b"C:x", &ctx), ErrorKind::CurrentDirUnavailable);
}

#[test]
fn other_prefix_is_refused() {
    let ctx = context(DRIVES, b"C:\\Users\\me", &[]);
    let err = resolve_path(DRIVES, b"\\\\server\\share\\x", &ctx).unwrap_err();
    assert_eq!(err.kind, ErrorKind::InvalidPath);
    assert_eq!(err.path, b"\\\\server\\share\\x");
    assert_eq!(resolve_kind(DRIVES, b"\\\\.\\COM1", &ctx), ErrorKind::InvalidPath);
    assert_eq!(resolve_kind(DRIVES, b"\\\\?\\UNC\\server\\share", &ctx), ErrorKind::InvalidPath);
    assert_eq!(resolve_kind(DRIVES, b"\\\\?\\pipe\\x", &ctx), ErrorKind::InvalidPath);
}

#[test]
fn relative_path_on_a_share() {
    let ctx = context(DRIVES, b"\\\\server\\share\\dir", &[]);
    assert_eq!(resolve_text(DRIVES, b"..\\..\\x", &ctx), b"\\\\server\\share\\x");
}

#[test]
fn single_root_relative_paths() {
    let ctx = context(SINGLE, b"/home/me", &[]);
    assert_eq!(resolve_text(SINGLE, b"../../x", &ctx), b"/x");
    assert_eq!(resolve_text(SINGLE, b"../../../x", &ctx), b"/x");
    assert_eq!(resolve_text(SINGLE, b"./a/../b", &ctx), b"/home/me/b");
    assert_eq!(resolve_text(SINGLE, b"", &ctx), b"/home/me");
    assert_eq!(resolve_text(SINGLE, b".", &ctx), b"/home/me");
    assert_eq!(resolve_text(SINGLE, b"..", &ctx), b"/home");
    assert_eq!(resolve_text(SINGLE, b"docs/", &ctx), b"/home/me/docs");
}

#[test]
fn parent_of_root_is_root() {
    let ctx = context(SINGLE, b"/home/me", &[]);
    assert_eq!(resolve_text(SINGLE, b"/../../../etc", &ctx), resolve_text(SINGLE, b"/etc", &ctx));
    assert_eq!(resolve_text(SINGLE, b"/../../../etc", &ctx), b"/etc");
    assert_eq!(resolve_text(SINGLE, b"/..", &ctx), b"/");
    let ctx = context(DRIVES, b"C:\\Users\\me", &[]);
    assert_eq!(resolve_text(DRIVES, b"C:\\..\\..\\x", &ctx), b"C:\\x");
    assert_eq!(resolve_text(DRIVES, b"..\\..\\..\\..", &ctx), b"C:\\");
}

#[test]
fn verbatim_disk_without_root_is_anchored_at_drive_root() {
    let ctx = context(DRIVES, b"C:\\Users\\me", &[]);
    let input = vec![
        PathComponent::Prefix(Prefix::VerbatimDisk(b'E')),
        PathComponent::NamedSegment(b"data".to_vec()),
        PathComponent::NamedSegment(b"x".to_vec()),
    ];
    let out = resolve_components(DRIVES, &input, &ctx).unwrap();
    assert_eq!(render(DRIVES, &out), b"E:\\data\\x");
    assert_eq!(resolve_text(DRIVES, b"\\\\?\\E:", &ctx), b"E:\\");
}

#[test]
fn verbatim_disk_with_root() {
    let ctx = context(DRIVES, b"C:\\Users\\me", &[]);
    assert_eq!(resolve_text(DRIVES, b"\\\\?\\E:\\data\\..\\x", &ctx), b"E:\\x");
}

#[test]
fn resolved_path_holds_no_markers() {
    let ctx = context(SINGLE, b"/home/me", &[]);
    let out = resolve_path(SINGLE, b"a/./b/../../../c/.", &ctx).unwrap();
    assert!(is_absolute_path(SINGLE, &out));
    assert!(out.iter().all(|c| *c != PathComponent::CurrentDirMarker && *c != PathComponent::ParentDirMarker));
    assert_eq!(render(SINGLE, &out), b"/home/c");
}

#[test]
fn resolving_twice_changes_nothing() {
    let ctx = context(DRIVES, b"D:\\data", &[(b'C', b"C:\\Tools")]);
    for path in [&b"C:projects"[..], b"x\\..\\y", b"\\temp", b"c:/a//b/./..", b"\\\\?\\E:\\q"] {
        let once = resolve_path(DRIVES, path, &ctx).unwrap();
        let twice = resolve_path(DRIVES, &render(DRIVES, &once), &ctx).unwrap();
        assert_eq!(once, twice);
    }
    let ctx = context(SINGLE, b"/home/me", &[]);
    for path in [&b"../x"[..], b"/a/../b//c/", b"", b"./."] {
        let once = resolve_path(SINGLE, path, &ctx).unwrap();
        let twice = resolve_path(SINGLE, &render(SINGLE, &once), &ctx).unwrap();
        assert_eq!(once, twice);
    }
}

#[test]
fn mixed_and_repeated_separators_resolve_alike() {
    let ctx = context(DRIVES, b"C:\\Users\\me", &[]);
    assert_eq!(
        resolve_path(DRIVES, b"C:/Users//me\\\\docs/", &ctx).unwrap(),
        resolve_path(DRIVES, b"C:\\Users\\me\\docs", &ctx).unwrap()
    );
    assert_eq!(resolve_text(DRIVES, b"a//b\\/c", &ctx), b"C:\\Users\\me\\a\\b\\c");
    let ctx = context(SINGLE, b"/home/me", &[]);
    assert_eq!(
        resolve_path(SINGLE, b"//usr///lib//", &ctx).unwrap(),
        resolve_path(SINGLE, b"/usr/lib", &ctx).unwrap()
    );
}

#[test]
fn reduce_folds_onto_the_stack() {
    let stack = classify(SINGLE, b"/a/b");
    let rest = classify(SINGLE, b"../c/./d/..");
    assert_eq!(reduce(stack, &rest), classify(SINGLE, b"/a/c"));
}

#[test]
fn reduce_pops_an_unrooted_stack_down_to_nothing() {
    let stack = classify(SINGLE, b"a");
    let rest = classify(SINGLE, b"../../b");
    assert_eq!(reduce(stack, &rest), classify(SINGLE, b"b"));
}

#[test]
fn apply_takes_one_unit() {
    let mut stack = classify(SINGLE, b"/a");
    apply(&mut stack, &PathComponent::NamedSegment(b"b".to_vec()));
    assert_eq!(stack, classify(SINGLE, b"/a/b"));
    apply(&mut stack, &PathComponent::CurrentDirMarker);
    assert_eq!(stack, classify(SINGLE, b"/a/b"));
    apply(&mut stack, &PathComponent::ParentDirMarker);
    apply(&mut stack, &PathComponent::ParentDirMarker);
    assert_eq!(stack, classify(SINGLE, b"/"));
    apply(&mut stack, &PathComponent::ParentDirMarker);
    assert_eq!(stack, classify(SINGLE, b"/"));
}

#[test]
fn order_of_components() {
    let root = PathComponent::RootSeparator;
    let disk = PathComponent::Prefix(Prefix::Disk(b'C'));
    let name = PathComponent::NamedSegment(b"a".to_vec());
    assert!(is_sequenced_path(DRIVES, &[]));
    assert!(is_sequenced_path(DRIVES, &[disk.clone(), root.clone(), name.clone()]));
    assert!(is_sequenced_path(DRIVES, &[disk.clone(), name.clone()]));
    assert!(is_sequenced_path(DRIVES, &[root.clone(), name.clone()]));
    assert!(is_sequenced_path(SINGLE, &[root.clone(), name.clone()]));
    assert!(!is_sequenced_path(SINGLE, &[disk.clone(), root.clone()]));
    assert!(!is_sequenced_path(DRIVES, &[name.clone(), disk.clone()]));
    assert!(!is_sequenced_path(DRIVES, &[name.clone(), root.clone()]));
    assert!(!is_sequenced_path(DRIVES, &[root.clone(), root.clone()]));
    assert!(!is_sequenced_path(DRIVES, &[disk.clone(), name.clone(), root.clone()]));
    assert!(are_relative(&[name.clone(), PathComponent::ParentDirMarker, PathComponent::CurrentDirMarker]));
    assert!(!are_relative(&[name.clone(), root.clone()]));
    assert!(!are_relative(&[disk.clone()]));
}

#[test]
fn context_well_formedness() {
    assert!(context(SINGLE, b"/home/me", &[]).is_well_formed(SINGLE));
    assert!(without_current_dir().is_well_formed(SINGLE));
    assert!(!context(SINGLE, b"home/me", &[]).is_well_formed(SINGLE));
    assert!(!context(SINGLE, b"/home/../me", &[]).is_well_formed(SINGLE));
    assert!(context(DRIVES, b"C:\\Users", &[(b'D', b"D:\\")]).is_well_formed(DRIVES));
    assert!(context(DRIVES, b"\\\\server\\share", &[]).is_well_formed(DRIVES));
    assert!(!context(DRIVES, b"\\Users", &[]).is_well_formed(DRIVES));
    assert!(!context(DRIVES, b"C:\\Users", &[(b'D', b"D:x")]).is_well_formed(DRIVES));
}
