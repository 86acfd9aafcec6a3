use abspath::classify::classify;
use abspath::component::{PathComponent, Prefix, Scheme};

fn named(text: &[u8]) -> PathComponent {
    PathComponent::NamedSegment(text.to_vec())
}

fn disk(letter: u8) -> PathComponent {
    PathComponent::Prefix(Prefix::Disk(letter))
}

fn verbatim_disk(letter: u8) -> PathComponent {
    PathComponent::Prefix(Prefix::VerbatimDisk(letter))
}

fn other(text: &[u8]) -> PathComponent {
    PathComponent::Prefix(Prefix::Other(text.to_vec()))
}

#[test]
fn single_root_absolute_path() {
    assert_eq!(
        classify(Scheme::SingleRoot, b"/home/me"),
        vec![PathComponent::RootSeparator, named(b"home"), named(b"me")]
    );
}

#[test]
fn single_root_relative_path_keeps_markers() {
    assert_eq!(
        classify(Scheme::SingleRoot, b"./a/../b"),
        vec![PathComponent::CurrentDirMarker, named(b"a"), PathComponent::ParentDirMarker, named(b"b")]
    );
}

#[test]
fn single_root_drops_empty_units() {
    assert_eq!(
        classify(Scheme::SingleRoot, b"//a///b/"),
        vec![PathComponent::RootSeparator, named(b"a"), named(b"b")]
    );
}

#[test]
fn single_root_has_no_prefixes_and_one_separator() {
    assert_eq!(classify(Scheme::SingleRoot, b"C:\\x"), vec![named(b"C:\\x")]);
    assert_eq!(classify(Scheme::SingleRoot, b"a\\b/c"), vec![named(b"a\\b"), named(b"c")]);
}

#[test]
fn empty_path_has_no_components() {
    assert_eq!(classify(Scheme::SingleRoot, b""), vec![]);
    assert_eq!(classify(Scheme::DriveLetter, b""), vec![]);
}

#[test]
fn root_alone() {
    assert_eq!(classify(Scheme::SingleRoot, b"/"), vec![PathComponent::RootSeparator]);
    assert_eq!(classify(Scheme::DriveLetter, b"\\"), vec![PathComponent::RootSeparator]);
    assert_eq!(classify(Scheme::DriveLetter, b"/"), vec![PathComponent::RootSeparator]);
}

#[test]
fn dots_inside_longer_names_are_names() {
    assert_eq!(
        classify(Scheme::SingleRoot, b".../.a/a./..b"),
        vec![named(b"..."), named(b".a"), named(b"a."), named(b"..b")]
    );
}

#[test]
fn drive_with_root() {
    assert_eq!(
        classify(Scheme::DriveLetter, b"C:\\Users\\me"),
        vec![disk(b'C'), PathComponent::RootSeparator, named(b"Users"), named(b"me")]
    );
}

#[test]
fn drive_letter_is_upper_cased() {
    assert_eq!(classify(Scheme::DriveLetter, b"c:foo"), vec![disk(b'C'), named(b"foo")]);
    assert_eq!(classify(Scheme::DriveLetter, b"z:"), vec![disk(b'Z')]);
}

#[test]
fn drive_needs_a_letter() {
    assert_eq!(classify(Scheme::DriveLetter, b"1:foo"), vec![named(b"1:foo")]);
    assert_eq!(classify(Scheme::DriveLetter, b":foo"), vec![named(b":foo")]);
}

#[test]
fn drive_is_recognised_at_the_start_only() {
    assert_eq!(
        classify(Scheme::DriveLetter, b"a\\C:\\b"),
        vec![named(b"a"), named(b"C:"), named(b"b")]
    );
}

#[test]
fn rooted_path_without_drive() {
    assert_eq!(
        classify(Scheme::DriveLetter, b"\\temp"),
        vec![PathComponent::RootSeparator, named(b"temp")]
    );
}

#[test]
fn both_separators_and_repeats() {
    assert_eq!(
        classify(Scheme::DriveLetter, b"a\\.\\b/..\\c\\\\d/"),
        vec![
            named(b"a"),
            PathComponent::CurrentDirMarker,
            named(b"b"),
            PathComponent::ParentDirMarker,
            named(b"c"),
            named(b"d"),
        ]
    );
}

#[test]
fn verbatim_disk_with_and_without_root() {
    assert_eq!(
        classify(Scheme::DriveLetter, b"\\\\?\\E:\\data"),
        vec![verbatim_disk(b'E'), PathComponent::RootSeparator, named(b"data")]
    );
    assert_eq!(classify(Scheme::DriveLetter, b"\\\\?\\e:"), vec![verbatim_disk(b'E')]);
}

#[test]
fn verbatim_path_is_split_at_backslashes_only() {
    assert_eq!(
        classify(Scheme::DriveLetter, b"\\\\?\\E:\\a/b\\c"),
        vec![verbatim_disk(b'E'), PathComponent::RootSeparator, named(b"a/b"), named(b"c")]
    );
}

#[test]
fn verbatim_drive_followed_by_a_name_is_another_prefix() {
    assert_eq!(classify(Scheme::DriveLetter, b"\\\\?\\C:x"), vec![other(b"\\\\?\\C:x")]);
}

#[test]
fn verbatim_name() {
    assert_eq!(
        classify(Scheme::DriveLetter, b"\\\\?\\pipe\\x"),
        vec![other(b"\\\\?\\pipe"), PathComponent::RootSeparator, named(b"x")]
    );
}

#[test]
fn verbatim_share() {
    assert_eq!(
        classify(Scheme::DriveLetter, b"\\\\?\\UNC\\server\\share\\x"),
        vec![other(b"\\\\?\\UNC\\server\\share"), PathComponent::RootSeparator, named(b"x")]
    );
    assert_eq!(
        classify(Scheme::DriveLetter, b"\\\\?\\UNC\\server"),
        vec![other(b"\\\\?\\UNC\\server")]
    );
}

#[test]
fn network_share_has_a_root_of_its_own() {
    assert_eq!(
        classify(Scheme::DriveLetter, b"\\\\server\\share\\dir"),
        vec![other(b"\\\\server\\share"), PathComponent::RootSeparator, named(b"dir")]
    );
    assert_eq!(
        classify(Scheme::DriveLetter, b"\\\\server\\share"),
        vec![other(b"\\\\server\\share"), PathComponent::RootSeparator]
    );
    assert_eq!(
        classify(Scheme::DriveLetter, b"//server/share/dir"),
        vec![other(b"//server/share"), PathComponent::RootSeparator, named(b"dir")]
    );
}

#[test]
fn share_without_both_parts_is_no_prefix() {
    assert_eq!(
        classify(Scheme::DriveLetter, b"\\\\server"),
        vec![PathComponent::RootSeparator, named(b"server")]
    );
    assert_eq!(
        classify(Scheme::DriveLetter, b"\\\\server\\"),
        vec![PathComponent::RootSeparator, named(b"server")]
    );
    assert_eq!(
        classify(Scheme::DriveLetter, b"\\\\\\share"),
        vec![PathComponent::RootSeparator, named(b"share")]
    );
}

#[test]
fn device_prefix() {
    assert_eq!(
        classify(Scheme::DriveLetter, b"\\\\.\\COM1"),
        vec![other(b"\\\\.\\COM1"), PathComponent::RootSeparator]
    );
    assert_eq!(
        classify(Scheme::DriveLetter, b"//./pipe/x"),
        vec![other(b"//./pipe"), PathComponent::RootSeparator, named(b"x")]
    );
}

#[test]
fn question_mark_with_slashes_is_a_share() {
    assert_eq!(
        classify(Scheme::DriveLetter, b"//?/C:/x"),
        vec![other(b"//?/C:"), PathComponent::RootSeparator, named(b"x")]
    );
}
