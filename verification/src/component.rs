//! The components a path is made of, and their mathematical views.

use vstd::prelude::*;

verus! {

/// The addressing model in which a path is read.
#[derive(Clone, Copy, Debug, PartialEq, Eq, Structural)]
pub enum Scheme {
    /// One global root, `/` is the only separator.
    SingleRoot,
    /// One root per drive letter; `\` and `/` both separate.
    DriveLetter,
}

/// What a path of the drive-letter scheme may begin with.
#[derive(Debug, PartialEq, Eq)]
pub enum Prefix {
    /// `C:`, holding the upper-case letter.
    Disk(u8),
    /// `\\?\C:`, holding the upper-case letter.
    VerbatimDisk(u8),
    /// Any other prefix (a network share, a device, another verbatim form),
    /// holding its text as it was written.
    Other(Vec<u8>),
}

/// The view of a [`Prefix`].
pub enum PrefixView {
    Disk(u8),
    VerbatimDisk(u8),
    Other(Seq<u8>),
}

impl View for Prefix {
    type V = PrefixView;

    open spec fn view(&self) -> PrefixView {
        match self {
            Prefix::Disk(letter) => PrefixView::Disk(*letter),
            Prefix::VerbatimDisk(letter) => PrefixView::VerbatimDisk(*letter),
            Prefix::Other(text) => PrefixView::Other(text@),
        }
    }
}

impl Clone for Prefix {
    fn clone(&self) -> (r: Self)
        ensures
            r@ == self@,
    {
        match self {
            Prefix::Disk(letter) => Prefix::Disk(*letter),
            Prefix::VerbatimDisk(letter) => Prefix::VerbatimDisk(*letter),
            Prefix::Other(text) => Prefix::Other(copy_bytes(text.as_slice())),
        }
    }
}

/// One lexical unit of a path.
#[derive(Debug, PartialEq, Eq)]
pub enum PathComponent {
    /// A drive or namespace prefix; only ever the first unit of a path.
    Prefix(Prefix),
    /// The separator that anchors a path at a root.
    RootSeparator,
    /// `.`
    CurrentDirMarker,
    /// `..`
    ParentDirMarker,
    /// Any other segment, holding its bytes.
    NamedSegment(Vec<u8>),
}

/// The view of a [`PathComponent`].
pub enum Unit {
    Prefix(PrefixView),
    Root,
    CurDir,
    ParentDir,
    Named(Seq<u8>),
}

impl View for PathComponent {
    type V = Unit;

    open spec fn view(&self) -> Unit {
        match self {
            PathComponent::Prefix(p) => Unit::Prefix(p@),
            PathComponent::RootSeparator => Unit::Root,
            PathComponent::CurrentDirMarker => Unit::CurDir,
            PathComponent::ParentDirMarker => Unit::ParentDir,
            PathComponent::NamedSegment(text) => Unit::Named(text@),
        }
    }
}

impl Clone for PathComponent {
    fn clone(&self) -> (r: Self)
        ensures
            r@ == self@,
    {
        match self {
            PathComponent::Prefix(p) => PathComponent::Prefix(p.clone()),
            PathComponent::RootSeparator => PathComponent::RootSeparator,
            PathComponent::CurrentDirMarker => PathComponent::CurrentDirMarker,
            PathComponent::ParentDirMarker => PathComponent::ParentDirMarker,
            PathComponent::NamedSegment(text) => PathComponent::NamedSegment(
                copy_bytes(text.as_slice()),
            ),
        }
    }
}

/// The views of a sequence of components, in order.
pub open spec fn units(components: Seq<PathComponent>) -> Seq<Unit> {
    components.map_values(|c: PathComponent| c@)
}

/// A prefix stands first and nowhere else; a root stands first, or second
/// behind a prefix. The single-root scheme has no prefixes.
pub open spec fn is_sequenced(scheme: Scheme, us: Seq<Unit>) -> bool {
    forall|i: int|
        0 <= i < us.len() ==> {
            &&& (#[trigger] us[i]) is Prefix ==> scheme == Scheme::DriveLetter && i == 0
            &&& us[i] is Root ==> i == 0 || (i == 1 && us[0] is Prefix)
        }
}

/// A unit that can follow the anchor of a path.
pub open spec fn is_relative(u: Unit) -> bool {
    u is CurDir || u is ParentDir || u is Named
}

/// Every unit can follow the anchor of a path.
pub open spec fn all_relative(us: Seq<Unit>) -> bool {
    forall|i: int| 0 <= i < us.len() ==> is_relative(#[trigger] us[i])
}

/// The number of units that anchor an absolute path: the root alone, or a
/// prefix and the root behind it.
pub open spec fn anchor_len(scheme: Scheme) -> int {
    match scheme {
        Scheme::SingleRoot => 1,
        Scheme::DriveLetter => 2,
    }
}

/// `us` begins with the units that establish a root.
pub open spec fn is_anchored(scheme: Scheme, us: Seq<Unit>) -> bool {
    match scheme {
        Scheme::SingleRoot => us.len() >= 1 && us[0] is Root,
        Scheme::DriveLetter => us.len() >= 2 && us[0] is Prefix && us[1] is Root,
    }
}

/// An absolute, clean path: the anchor, then named segments and nothing
/// else.
pub open spec fn is_absolute(scheme: Scheme, us: Seq<Unit>) -> bool {
    &&& is_anchored(scheme, us)
    &&& forall|i: int| anchor_len(scheme) <= i < us.len() ==> (#[trigger] us[i]) is Named
}

/// A fresh vector with the bytes of `bytes`.
pub fn copy_bytes(bytes: &[u8]) -> (r: Vec<u8>)
    ensures
        r@ == bytes@,
{
    let mut out: Vec<u8> = Vec::new();
    let mut i: usize = 0;
    while i < bytes.len()
        invariant
            i <= bytes.len(),
            out@ == bytes@.subrange(0, i as int),
        decreases bytes.len() - i,
    {
        out.push(bytes[i]);
        i = i + 1;
    }
    assert(bytes@.subrange(0, bytes@.len() as int) == bytes@);
    out
}

/// A fresh vector with copies of `components`.
pub fn copy_components(components: &[PathComponent]) -> (r: Vec<PathComponent>)
    ensures
        units(r@) == units(components@),
{
    let mut out: Vec<PathComponent> = Vec::new();
    let mut i: usize = 0;
    while i < components.len()
        invariant
            i <= components.len(),
            units(out@) == units(components@).take(i as int),
        decreases components.len() - i,
    {
        let ghost before = units(out@);
        out.push(components[i].clone());
        assert(units(out@) =~= before.push(components@[i as int]@));
        assert(before.push(components@[i as int]@) =~= units(components@).take(i + 1));
        i = i + 1;
    }
    assert(units(components@).take(components@.len() as int) =~= units(components@));
    out
}

/// Whether `components` are an absolute, clean path.
pub fn is_absolute_path(scheme: Scheme, components: &[PathComponent]) -> (r: bool)
    ensures
        r == is_absolute(scheme, units(components@)),
{
    let ghost us = units(components@);
    let n: usize = components.len();
    let anchored = match scheme {
        Scheme::SingleRoot => n >= 1 && components[0].is_root(),
        Scheme::DriveLetter => n >= 2 && components[0].is_prefix() && components[1].is_root(),
    };
    if !anchored {
        return false;
    }
    let mut i: usize = match scheme {
        Scheme::SingleRoot => 1,
        Scheme::DriveLetter => 2,
    };
    while i < n
        invariant
            anchor_len(scheme) <= i <= n,
            n == components@.len(),
            us == units(components@),
            forall|j: int| anchor_len(scheme) <= j < i ==> (#[trigger] us[j]) is Named,
        decreases n - i,
    {
        if !components[i].is_named() {
            assert(!(us[i as int] is Named));
            return false;
        }
        i = i + 1;
    }
    true
}

/// Whether `components` stand in an order in which a path can hold them.
pub fn is_sequenced_path(scheme: Scheme, components: &[PathComponent]) -> (r: bool)
    ensures
        r == is_sequenced(scheme, units(components@)),
{
    let ghost us = units(components@);
    let n: usize = components.len();
    let mut i: usize = 0;
    while i < n
        invariant
            i <= n,
            n == components@.len(),
            us == units(components@),
            is_sequenced(scheme, us.take(i as int)),
        decreases n - i,
    {
        let allowed = match &components[i] {
            PathComponent::Prefix(_) => i == 0 && match scheme {
                Scheme::SingleRoot => false,
                Scheme::DriveLetter => true,
            },
            PathComponent::RootSeparator => i == 0 || (i == 1 && components[0].is_prefix()),
            _ => true,
        };
        if !allowed {
            assert(!is_sequenced(scheme, us)) by {
                assert(us[i as int] == components@[i as int]@);
            }
            return false;
        }
        assert(is_sequenced(scheme, us.take(i + 1))) by {
            assert forall|j: int| 0 <= j < i + 1 implies {
                &&& (#[trigger] us.take(i + 1)[j]) is Prefix ==> scheme == Scheme::DriveLetter && j
                    == 0
                &&& us.take(i + 1)[j] is Root ==> j == 0 || (j == 1 && us.take(i + 1)[0] is Prefix)
            } by {
                if j < i {
                    assert(us.take(i as int)[j] == us.take(i + 1)[j]);
                    if i > 0 {
                        assert(us.take(i as int)[0] == us.take(i + 1)[0]);
                    }
                }
            }
        }
        i = i + 1;
    }
    assert(us.take(n as int) =~= us);
    true
}

/// Whether `components` hold neither prefix nor root.
pub fn are_relative(components: &[PathComponent]) -> (r: bool)
    ensures
        r == all_relative(units(components@)),
{
    let ghost us = units(components@);
    let mut i: usize = 0;
    while i < components.len()
        invariant
            i <= components.len(),
            us == units(components@),
            forall|j: int| 0 <= j < i ==> is_relative(#[trigger] us[j]),
        decreases components.len() - i,
    {
        if components[i].is_prefix() || components[i].is_root() {
            assert(!is_relative(us[i as int]));
            return false;
        }
        i = i + 1;
    }
    true
}

impl PathComponent {
    /// Whether this is a prefix.
    pub fn is_prefix(&self) -> (r: bool)
        ensures
            r == (self@ is Prefix),
    {
        match self {
            PathComponent::Prefix(_) => true,
            _ => false,
        }
    }

    /// Whether this is a named segment.
    pub fn is_named(&self) -> (r: bool)
        ensures
            r == (self@ is Named),
    {
        match self {
            PathComponent::NamedSegment(_) => true,
            _ => false,
        }
    }

    /// Whether this is the root.
    pub fn is_root(&self) -> (r: bool)
        ensures
            r == (self@ is Root),
    {
        match self {
            PathComponent::RootSeparator => true,
            _ => false,
        }
    }
}

} // verus!
