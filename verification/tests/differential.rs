use abspath::classify::classify;
use abspath::component::Scheme;
use abspath::context::ResolutionContext;
use abspath::render::render;
use abspath::resolve::resolve_path;
use std::path::{Component, Path, PathBuf, MAIN_SEPARATOR};

/// The same resolution, made with the components that `std::path` gives.
fn with_std(path: &str, cwd: &str) -> PathBuf {
    let mut components = Path::new(path).components().peekable();
    let mut stack = Vec::new();
    let base = PathBuf::from(cwd);
    match components.peek() {
        Some(Component::RootDir) => stack.push(components.next().unwrap()),
        _ => stack.extend(base.components()),
    }
    for component in components {
        match component {
            Component::Normal(_) => stack.push(component),
            Component::CurDir => (),
            Component::ParentDir => {
                if stack.last() != Some(&Component::RootDir) {
                    stack.pop();
                }
            }
            Component::Prefix(_) | Component::RootDir => unreachable!(),
        }
    }
    stack.iter().collect()
}

fn texts(alphabet: &[u8], max_len: usize) -> Vec<String> {
    let mut all = vec![String::new()];
    let mut last = vec![String::new()];
    for _ in 0..max_len {
        let mut next = Vec::new();
        for text in &last {
            for c in alphabet {
                let mut longer = text.clone();
                longer.push(*c as char);
                next.push(longer);
            }
        }
        all.extend(next.iter().cloned());
        last = next;
    }
    all
}

#[test]
fn single_root_agrees_with_std_on_every_short_path() {
    if MAIN_SEPARATOR != '/' {
        return;
    }
    let cwd = "/home/me";
    let ctx = ResolutionContext {
        current_dir: Some(classify(Scheme::SingleRoot, cwd.as_bytes())),
        drive_dirs: Vec::new(),
    };
    for text in texts(b"ab./", 7) {
        let ours = resolve_path(Scheme::SingleRoot, text.as_bytes(), &ctx).unwrap();
        let theirs = with_std(&text, cwd);
        assert_eq!(
            render(Scheme::SingleRoot, &ours),
            theirs.to_str().unwrap().as_bytes(),
            "for {:?}",
            text
        );
    }
}

#[test]
fn single_root_resolution_is_idempotent_on_every_short_path() {
    let ctx = ResolutionContext {
        current_dir: Some(classify(Scheme::SingleRoot, b"/home/me")),
        drive_dirs: Vec::new(),
    };
    for text in texts(b"a./", 8) {
        let once = resolve_path(Scheme::SingleRoot, text.as_bytes(), &ctx).unwrap();
        let again = render(Scheme::SingleRoot, &once);
        assert_eq!(resolve_path(Scheme::SingleRoot, &again, &ctx).unwrap(), once, "for {:?}", text);
    }
}

#[test]
fn drive_letter_resolution_is_idempotent_on_every_short_path() {
    let ctx = ResolutionContext {
        current_dir: Some(classify(Scheme::DriveLetter, b"D:\\data\\x")),
        drive_dirs: Vec::new(),
    };
    for text in texts(b"aC:./\\", 6) {
        match resolve_path(Scheme::DriveLetter, text.as_bytes(), &ctx) {
            Ok(once) => {
                let again = render(Scheme::DriveLetter, &once);
                assert_eq!(
                    resolve_path(Scheme::DriveLetter, &again, &ctx).unwrap(),
                    once,
                    "for {:?}",
                    text
                );
            }
            Err(error) => assert_eq!(error.path, text.as_bytes()),
        }
    }
}
