//! Finding the absolute base that a path is anchored to.

use crate::component::{copy_components, units, PathComponent, Prefix, PrefixView, Scheme, Unit};
use crate::context::{
    drive_dir, drive_letter_of, drive_views, ContextView, DriveDirectory, ResolutionContext,
};
use crate::error::ErrorKind;
use vstd::prelude::*;

verus! {

/// The units that a resolved path starts from, and how many leading units
/// of the input they stand for.
pub struct Base {
    pub stack: Seq<Unit>,
    pub used: int,
}

/// The root of a drive: `C:\`.
pub open spec fn drive_root(letter: u8) -> Seq<Unit> {
    seq![Unit::Prefix(PrefixView::Disk(letter)), Unit::Root]
}

/// The current directory in full, if it could be had.
pub open spec fn current_dir_base(ctx: ContextView, used: int) -> Result<Base, ErrorKind> {
    match ctx.current_dir {
        Some(dir) => Ok(Base { stack: dir, used }),
        None => Err(ErrorKind::CurrentDirUnavailable),
    }
}

/// The directory that a path on drive `letter` without a root is relative
/// to: the current directory where it lies on that drive, else the
/// directory recorded for the drive, else the root of the drive.
pub open spec fn drive_relative_base(letter: u8, ctx: ContextView) -> Result<Base, ErrorKind> {
    match ctx.current_dir {
        None => Err(ErrorKind::CurrentDirUnavailable),
        Some(dir) => if drive_letter_of(dir) == Some(letter) {
            Ok(Base { stack: dir, used: 1 })
        } else {
            match drive_dir(ctx.drive_dirs, letter) {
                Some(recorded) => Ok(Base { stack: recorded, used: 1 }),
                None => Ok(Base { stack: drive_root(letter), used: 1 }),
            }
        },
    }
}

/// The root of the drive that the current directory lies on.
pub open spec fn current_drive_base(ctx: ContextView) -> Result<Base, ErrorKind> {
    match ctx.current_dir {
        None => Err(ErrorKind::CurrentDirUnavailable),
        Some(dir) => match drive_letter_of(dir) {
            Some(letter) => Ok(Base { stack: drive_root(letter), used: 1 }),
            None => Err(ErrorKind::DriveResolution),
        },
    }
}

/// A root stands at index `at`.
pub open spec fn root_at(us: Seq<Unit>, at: int) -> bool {
    0 <= at < us.len() && us[at] is Root
}

/// The base under the single-root scheme: the root where the path starts
/// with it, the current directory otherwise.
pub open spec fn single_root_base(us: Seq<Unit>, ctx: ContextView) -> Result<Base, ErrorKind> {
    if root_at(us, 0) {
        Ok(Base { stack: seq![Unit::Root], used: 1 })
    } else {
        current_dir_base(ctx, 0)
    }
}

/// The base under the drive-letter scheme.
///
/// - `C:\..` is anchored as it stands.
/// - `C:..` is relative to a directory on drive `C`.
/// - `\\?\C:..` is anchored at `C:\`, with or without a root behind it.
/// - Any other prefix is refused.
/// - `\..` is anchored at the root of the current drive.
/// - Anything else is relative to the current directory.
pub open spec fn drive_letter_base(us: Seq<Unit>, ctx: ContextView) -> Result<Base, ErrorKind> {
    if us.len() == 0 {
        current_dir_base(ctx, 0)
    } else {
        match us[0] {
            Unit::Prefix(PrefixView::Disk(letter)) => if root_at(us, 1) {
                Ok(Base { stack: seq![us[0], us[1]], used: 2 })
            } else {
                drive_relative_base(letter, ctx)
            },
            Unit::Prefix(PrefixView::VerbatimDisk(letter)) => Ok(
                Base {
                    stack: drive_root(letter),
                    used: if root_at(us, 1) {
                        2
                    } else {
                        1
                    },
                },
            ),
            Unit::Prefix(PrefixView::Other(_)) => Err(ErrorKind::InvalidPath),
            Unit::Root => current_drive_base(ctx),
            _ => current_dir_base(ctx, 0),
        }
    }
}

/// The base that the units of a path are anchored to.
pub open spec fn base_of(scheme: Scheme, us: Seq<Unit>, ctx: ContextView) -> Result<
    Base,
    ErrorKind,
> {
    match scheme {
        Scheme::SingleRoot => single_root_base(us, ctx),
        Scheme::DriveLetter => drive_letter_base(us, ctx),
    }
}

/// What an executable result has to be for a base.
pub open spec fn base_matches(
    r: Result<(Vec<PathComponent>, usize), ErrorKind>,
    base: Result<Base, ErrorKind>,
) -> bool {
    match base {
        Ok(b) => r matches Ok(got) && units(got.0@) == b.stack && got.1 == b.used,
        Err(kind) => r matches Err(e) && e == kind,
    }
}

/// The drive letter that `path` begins with, if it begins with a drive.
pub fn drive_letter(path: &[PathComponent]) -> (r: Option<u8>)
    ensures
        r == drive_letter_of(units(path@)),
{
    if path.len() == 0 {
        None
    } else {
        match &path[0] {
            PathComponent::Prefix(Prefix::Disk(letter)) => Some(*letter),
            PathComponent::Prefix(Prefix::VerbatimDisk(letter)) => Some(*letter),
            _ => None,
        }
    }
}

/// The directory recorded for `letter`, if there is one.
pub fn lookup_drive(dirs: &[DriveDirectory], letter: u8) -> (r: Option<Vec<PathComponent>>)
    ensures
        match drive_dir(drive_views(dirs@), letter) {
            Some(dir) => r matches Some(got) && units(got@) == dir,
            None => r is None,
        },
{
    let ghost all = drive_views(dirs@);
    let mut i: usize = 0;
    assert(all.skip(0) =~= all);
    while i < dirs.len()
        invariant
            i <= dirs.len(),
            all == drive_views(dirs@),
            drive_dir(all, letter) == drive_dir(all.skip(i as int), letter),
        decreases dirs.len() - i,
    {
        assert(all.skip(i as int).drop_first() =~= all.skip(i + 1));
        if dirs[i].letter == letter {
            return Some(copy_components(dirs[i].directory.as_slice()));
        }
        i = i + 1;
    }
    None
}

fn drive_root_components(letter: u8) -> (r: Vec<PathComponent>)
    ensures
        units(r@) == drive_root(letter),
{
    let mut stack: Vec<PathComponent> = Vec::new();
    stack.push(PathComponent::Prefix(Prefix::Disk(letter)));
    stack.push(PathComponent::RootSeparator);
    assert(units(stack@) =~= drive_root(letter));
    stack
}

fn current_dir_components(ctx: &ResolutionContext, used: usize) -> (r: Result<
    (Vec<PathComponent>, usize),
    ErrorKind,
>)
    ensures
        base_matches(r, current_dir_base(ctx@, used as int)),
{
    match &ctx.current_dir {
        Some(dir) => Ok((copy_components(dir.as_slice()), used)),
        None => Err(ErrorKind::CurrentDirUnavailable),
    }
}

fn drive_relative(letter: u8, ctx: &ResolutionContext) -> (r: Result<
    (Vec<PathComponent>, usize),
    ErrorKind,
>)
    ensures
        base_matches(r, drive_relative_base(letter, ctx@)),
{
    match &ctx.current_dir {
        None => Err(ErrorKind::CurrentDirUnavailable),
        Some(dir) => {
            let on = drive_letter(dir.as_slice());
            let same = match on {
                Some(l) => l == letter,
                None => false,
            };
            if same {
                Ok((copy_components(dir.as_slice()), 1))
            } else {
                match lookup_drive(ctx.drive_dirs.as_slice(), letter) {
                    Some(recorded) => Ok((recorded, 1)),
                    None => Ok((drive_root_components(letter), 1)),
                }
            }
        },
    }
}

fn current_drive(ctx: &ResolutionContext) -> (r: Result<(Vec<PathComponent>, usize), ErrorKind>)
    ensures
        base_matches(r, current_drive_base(ctx@)),
{
    match &ctx.current_dir {
        None => Err(ErrorKind::CurrentDirUnavailable),
        Some(dir) => match drive_letter(dir.as_slice()) {
            Some(letter) => Ok((drive_root_components(letter), 1)),
            None => Err(ErrorKind::DriveResolution),
        },
    }
}

fn single_root(components: &[PathComponent], ctx: &ResolutionContext) -> (r: Result<
    (Vec<PathComponent>, usize),
    ErrorKind,
>)
    ensures
        base_matches(r, single_root_base(units(components@), ctx@)),
{
    if components.len() > 0 && components[0].is_root() {
        let mut stack: Vec<PathComponent> = Vec::new();
        stack.push(PathComponent::RootSeparator);
        assert(units(stack@) =~= seq![Unit::Root]);
        Ok((stack, 1))
    } else {
        current_dir_components(ctx, 0)
    }
}

fn drive_letter_root(components: &[PathComponent], ctx: &ResolutionContext) -> (r: Result<
    (Vec<PathComponent>, usize),
    ErrorKind,
>)
    ensures
        base_matches(r, drive_letter_base(units(components@), ctx@)),
{
    let n: usize = components.len();
    if n == 0 {
        return current_dir_components(ctx, 0);
    }
    let rooted = n > 1 && components[1].is_root();
    match &components[0] {
        PathComponent::Prefix(Prefix::Disk(letter)) => {
            if rooted {
                let mut stack: Vec<PathComponent> = Vec::new();
                stack.push(components[0].clone());
                stack.push(PathComponent::RootSeparator);
                assert(units(stack@) =~= seq![units(components@)[0], units(components@)[1]]);
                Ok((stack, 2))
            } else {
                drive_relative(*letter, ctx)
            }
        },
        PathComponent::Prefix(Prefix::VerbatimDisk(letter)) => {
            let used: usize = if rooted {
                2
            } else {
                1
            };
            Ok((drive_root_components(*letter), used))
        },
        PathComponent::Prefix(Prefix::Other(_)) => Err(ErrorKind::InvalidPath),
        PathComponent::RootSeparator => current_drive(ctx),
        _ => current_dir_components(ctx, 0),
    }
}

/// Seeds the stack of a resolution: returns the base that `components` are
/// anchored to and the number of leading components that the base stands
/// for.
pub fn resolve_root(scheme: Scheme, components: &[PathComponent], ctx: &ResolutionContext) -> (r:
    Result<(Vec<PathComponent>, usize), ErrorKind>)
    ensures
        base_matches(r, base_of(scheme, units(components@), ctx@)),
        r matches Ok(got) ==> got.1 <= components@.len(),
{
    match scheme {
        Scheme::SingleRoot => single_root(components, ctx),
        Scheme::DriveLetter => drive_letter_root(components, ctx),
    }
}

} // verus!
