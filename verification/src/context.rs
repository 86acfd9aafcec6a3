//! The facts about the process that resolution reads and never changes.

use crate::component::{
    is_absolute, is_absolute_path, units, PathComponent, PrefixView, Scheme, Unit,
};
use vstd::prelude::*;

verus! {

/// The directory that was last active on one drive.
#[derive(Debug, PartialEq, Eq)]
pub struct DriveDirectory {
    pub letter: u8,
    pub directory: Vec<PathComponent>,
}

/// The view of a [`DriveDirectory`].
pub struct DriveDirectoryView {
    pub letter: u8,
    pub directory: Seq<Unit>,
}

impl View for DriveDirectory {
    type V = DriveDirectoryView;

    open spec fn view(&self) -> DriveDirectoryView {
        DriveDirectoryView { letter: self.letter, directory: units(self.directory@) }
    }
}

/// The views of a sequence of recorded directories, in order.
pub open spec fn drive_views(dirs: Seq<DriveDirectory>) -> Seq<DriveDirectoryView> {
    dirs.map_values(|d: DriveDirectory| d@)
}

/// The current directory, or `None` where it could not be had, and the
/// directories last active on the drives (read only under the drive-letter
/// scheme; of two entries for one letter the first counts).
#[derive(Debug, PartialEq, Eq)]
pub struct ResolutionContext {
    pub current_dir: Option<Vec<PathComponent>>,
    pub drive_dirs: Vec<DriveDirectory>,
}

/// The view of a [`ResolutionContext`].
pub struct ContextView {
    pub current_dir: Option<Seq<Unit>>,
    pub drive_dirs: Seq<DriveDirectoryView>,
}

impl View for ResolutionContext {
    type V = ContextView;

    open spec fn view(&self) -> ContextView {
        ContextView {
            current_dir: match self.current_dir {
                Some(dir) => Some(units(dir@)),
                None => None,
            },
            drive_dirs: drive_views(self.drive_dirs@),
        }
    }
}

impl ContextView {
    /// The current directory, where it is known, and every recorded
    /// directory are absolute paths.
    pub open spec fn well_formed(self, scheme: Scheme) -> bool {
        &&& self.current_dir matches Some(dir) ==> is_absolute(scheme, dir)
        &&& forall|i: int|
            0 <= i < self.drive_dirs.len() ==> is_absolute(
                scheme,
                (#[trigger] self.drive_dirs[i]).directory,
            )
    }
}

impl ResolutionContext {
    /// Whether the context holds absolute paths only.
    pub fn is_well_formed(&self, scheme: Scheme) -> (r: bool)
        ensures
            r == self@.well_formed(scheme),
    {
        let current_ok = match &self.current_dir {
            Some(dir) => is_absolute_path(scheme, dir.as_slice()),
            None => true,
        };
        if !current_ok {
            return false;
        }
        let mut i: usize = 0;
        while i < self.drive_dirs.len()
            invariant
                i <= self.drive_dirs.len(),
                forall|j: int|
                    0 <= j < i ==> is_absolute(scheme, (#[trigger] self@.drive_dirs[j]).directory),
            decreases self.drive_dirs.len() - i,
        {
            if !is_absolute_path(scheme, self.drive_dirs[i].directory.as_slice()) {
                assert(!is_absolute(scheme, self@.drive_dirs[i as int].directory));
                return false;
            }
            i = i + 1;
        }
        true
    }
}

/// The directory recorded for `letter`: that of the first entry with this
/// letter, if there is one.
pub open spec fn drive_dir(dirs: Seq<DriveDirectoryView>, letter: u8) -> Option<Seq<Unit>>
    decreases dirs.len(),
{
    if dirs.len() == 0 {
        None
    } else if dirs[0].letter == letter {
        Some(dirs[0].directory)
    } else {
        drive_dir(dirs.drop_first(), letter)
    }
}

/// The drive that an absolute path of the drive-letter scheme lies on.
pub open spec fn drive_letter_of(path: Seq<Unit>) -> Option<u8> {
    if path.len() == 0 {
        None
    } else {
        match path[0] {
            Unit::Prefix(PrefixView::Disk(letter)) => Some(letter),
            Unit::Prefix(PrefixView::VerbatimDisk(letter)) => Some(letter),
            _ => None,
        }
    }
}

} // verus!
