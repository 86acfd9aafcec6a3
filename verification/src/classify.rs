//! Splitting the bytes of a path into components.
//!
//! Nothing is normalised here: `.` and `..` come out as markers of their
//! own, and only empty units (repeated or trailing separators) are dropped.
//! A prefix is recognised at the start of a path and nowhere else.

use crate::component::{
    copy_bytes, is_relative, is_sequenced, units, PathComponent, Prefix, PrefixView, Scheme, Unit,
};
use vstd::prelude::*;

verus! {

pub const SLASH: u8 = 0x2f;

pub const BACKSLASH: u8 = 0x5c;

pub const DOT: u8 = 0x2e;

pub const COLON: u8 = 0x3a;

pub const QUESTION: u8 = 0x3f;

pub const UPPER_U: u8 = 0x55;

pub const UPPER_N: u8 = 0x4e;

pub const UPPER_C: u8 = 0x43;

/// Which bytes separate the units of a path.
#[derive(Clone, Copy, Debug, PartialEq, Eq, Structural)]
pub enum Separators {
    /// `/` alone.
    Slash,
    /// `/` and `\`.
    Either,
    /// `\` alone, as after a verbatim prefix.
    Backslash,
}

/// Whether `b` is one of the separators.
pub open spec fn separates(seps: Separators, b: u8) -> bool {
    match seps {
        Separators::Slash => b == SLASH,
        Separators::Either => b == SLASH || b == BACKSLASH,
        Separators::Backslash => b == BACKSLASH,
    }
}

/// Whether `b` is one of the separators.
pub fn is_separator(seps: Separators, b: u8) -> (r: bool)
    ensures
        r == separates(seps, b),
{
    match seps {
        Separators::Slash => b == SLASH,
        Separators::Either => b == SLASH || b == BACKSLASH,
        Separators::Backslash => b == BACKSLASH,
    }
}

/// The separators that can anchor a path at its root.
pub open spec fn root_separators(scheme: Scheme) -> Separators {
    match scheme {
        Scheme::SingleRoot => Separators::Slash,
        Scheme::DriveLetter => Separators::Either,
    }
}

/// The separators between the units that follow prefix and root.
pub open spec fn body_separators(scheme: Scheme, verbatim: bool) -> Separators {
    match scheme {
        Scheme::SingleRoot => Separators::Slash,
        Scheme::DriveLetter => if verbatim {
            Separators::Backslash
        } else {
            Separators::Either
        },
    }
}

/// The index of the first separator at or after `from`, or the length of `s`
/// where none follows.
pub open spec fn unit_end(s: Seq<u8>, seps: Separators, from: int) -> int
    decreases s.len() - from,
{
    if from < 0 || from >= s.len() || separates(seps, s[from]) {
        from
    } else {
        unit_end(s, seps, from + 1)
    }
}

/// A unit ends at the first separator or at the end of the text, and holds
/// no separator.
pub proof fn lemma_unit_end(s: Seq<u8>, seps: Separators, from: int)
    requires
        0 <= from <= s.len(),
    ensures
        from <= unit_end(s, seps, from) <= s.len(),
        forall|k: int| from <= k < unit_end(s, seps, from) ==> !separates(seps, #[trigger] s[k]),
        unit_end(s, seps, from) < s.len() ==> separates(seps, s[unit_end(s, seps, from)]),
    decreases s.len() - from,
{
    if from < s.len() && !separates(seps, s[from]) {
        lemma_unit_end(s, seps, from + 1);
    }
}

/// A unit ends where the first separator stands, and nowhere else.
pub proof fn lemma_unit_end_is(s: Seq<u8>, seps: Separators, from: int, end: int)
    requires
        0 <= from <= end <= s.len(),
        forall|k: int| from <= k < end ==> !separates(seps, #[trigger] s[k]),
        end < s.len() ==> separates(seps, s[end]),
    ensures
        unit_end(s, seps, from) == end,
    decreases end - from,
{
    if from < end {
        lemma_unit_end_is(s, seps, from + 1, end);
    }
}

/// The text `.`
pub open spec fn is_dot(text: Seq<u8>) -> bool {
    text.len() == 1 && text[0] == DOT
}

/// The text `..`
pub open spec fn is_dot_dot(text: Seq<u8>) -> bool {
    text.len() == 2 && text[0] == DOT && text[1] == DOT
}

/// What the text between two separators stands for: nothing where it is
/// empty, a marker for `.` and `..`, a named segment otherwise.
pub open spec fn unit_of(text: Seq<u8>) -> Seq<Unit> {
    if text.len() == 0 {
        Seq::empty()
    } else if is_dot(text) {
        seq![Unit::CurDir]
    } else if is_dot_dot(text) {
        seq![Unit::ParentDir]
    } else {
        seq![Unit::Named(text)]
    }
}

/// A text that stands for a named segment: not empty, not `.` or `..`, and
/// without a separator.
pub open spec fn is_proper_name(seps: Separators, text: Seq<u8>) -> bool {
    &&& text.len() > 0
    &&& !is_dot(text)
    &&& !is_dot_dot(text)
    &&& forall|j: int| 0 <= j < text.len() ==> !separates(seps, #[trigger] text[j])
}

/// A unit that is relative and, where it is a named segment, has a proper
/// name.
pub open spec fn is_proper_unit(seps: Separators, u: Unit) -> bool {
    match u {
        Unit::Named(text) => is_proper_name(seps, text),
        Unit::CurDir => true,
        Unit::ParentDir => true,
        _ => false,
    }
}

/// The units of `s` from `from` on: the text up to the first separator,
/// then the units of what follows that separator.
pub open spec fn body_units(s: Seq<u8>, seps: Separators, from: int) -> Seq<Unit>
    decreases s.len() + 1 - from,
{
    if from < 0 || from >= s.len() {
        Seq::empty()
    } else {
        proof {
            lemma_unit_end(s, seps, from);
        }
        unit_of(s.subrange(from, unit_end(s, seps, from))) + body_units(
            s,
            seps,
            unit_end(s, seps, from) + 1,
        )
    }
}

/// An ASCII letter.
pub open spec fn is_letter(b: u8) -> bool {
    (0x41 <= b <= 0x5a) || (0x61 <= b <= 0x7a)
}

/// An upper-case ASCII letter.
pub open spec fn is_upper_letter(b: u8) -> bool {
    0x41 <= b <= 0x5a
}

/// The upper-case form of an ASCII letter; any other byte unchanged.
pub open spec fn to_upper(b: u8) -> u8 {
    if 0x61 <= b <= 0x7a {
        (b - 0x20) as u8
    } else {
        b
    }
}

/// A drive letter and a colon stand at `at`.
pub open spec fn drive_at(s: Seq<u8>, at: int) -> bool {
    0 <= at && at + 2 <= s.len() && is_letter(s[at]) && s[at + 1] == COLON
}

/// `s` begins with `\\?\`, written with backslashes only.
pub open spec fn starts_verbatim(s: Seq<u8>) -> bool {
    s.len() >= 4 && s[0] == BACKSLASH && s[1] == BACKSLASH && s[2] == QUESTION && s[3]
        == BACKSLASH
}

/// `s` begins with `\\.\`, either separator standing for `\`.
pub open spec fn starts_device(s: Seq<u8>) -> bool {
    s.len() >= 4 && separates(Separators::Either, s[0]) && separates(Separators::Either, s[1])
        && s[2] == DOT && separates(Separators::Either, s[3])
}

/// `s` begins with two separators.
pub open spec fn starts_double(s: Seq<u8>) -> bool {
    s.len() >= 2 && separates(Separators::Either, s[0]) && separates(Separators::Either, s[1])
}

/// After `\\?\` comes `UNC` and a separator.
pub open spec fn names_verbatim_share(s: Seq<u8>) -> bool {
    s.len() >= 8 && s[4] == UPPER_U && s[5] == UPPER_N && s[6] == UPPER_C && separates(
        Separators::Either,
        s[7],
    )
}

/// After `\\?\` comes a drive and then nothing or a separator.
pub open spec fn names_verbatim_disk(s: Seq<u8>) -> bool {
    drive_at(s, 4) && (s.len() == 6 || separates(Separators::Either, s[6]))
}

/// Where a server and share pair that starts at `from` ends: behind the
/// share where there is one, behind the server otherwise.
pub open spec fn pair_end(s: Seq<u8>, seps: Separators, from: int) -> int {
    let first = unit_end(s, seps, from);
    let second = unit_end(s, seps, first + 1);
    if first < s.len() && second > first + 1 {
        second
    } else {
        first
    }
}

/// Server and share are both there.
pub open spec fn pair_complete(s: Seq<u8>, seps: Separators, from: int) -> bool {
    let first = unit_end(s, seps, from);
    first > from && first < s.len() && unit_end(s, seps, first + 1) > first + 1
}

/// What a path begins with: its prefix, the number of bytes the prefix
/// takes, and whether the prefix makes the rest verbatim.
pub struct Lead {
    pub prefix: Option<PrefixView>,
    pub len: int,
    pub verbatim: bool,
}

/// No prefix.
pub open spec fn no_lead() -> Lead {
    Lead { prefix: None, len: 0, verbatim: false }
}

/// A prefix that is no drive, written with the first `end` bytes of `s`.
pub open spec fn other_lead(s: Seq<u8>, end: int, verbatim: bool) -> Lead {
    Lead { prefix: Some(PrefixView::Other(s.subrange(0, end))), len: end, verbatim }
}

/// The prefix of a path of the drive-letter scheme.
///
/// - `\\?\UNC\server\share`, `\\?\C:` and `\\?\name` are verbatim prefixes;
/// - `\\.\name` names a device;
/// - `\\server\share` names a network share, if both parts are there;
/// - `C:` names a drive.
pub open spec fn drive_lead(s: Seq<u8>) -> Lead {
    if starts_verbatim(s) {
        if names_verbatim_share(s) {
            other_lead(s, pair_end(s, Separators::Backslash, 8), true)
        } else if names_verbatim_disk(s) {
            Lead { prefix: Some(PrefixView::VerbatimDisk(to_upper(s[4]))), len: 6, verbatim: true }
        } else {
            other_lead(s, unit_end(s, Separators::Backslash, 4), true)
        }
    } else if starts_device(s) {
        other_lead(s, unit_end(s, Separators::Either, 4), false)
    } else if starts_double(s) {
        if pair_complete(s, Separators::Either, 2) {
            other_lead(s, pair_end(s, Separators::Either, 2), false)
        } else {
            no_lead()
        }
    } else if drive_at(s, 0) {
        Lead { prefix: Some(PrefixView::Disk(to_upper(s[0]))), len: 2, verbatim: false }
    } else {
        no_lead()
    }
}

/// What a path begins with; the single-root scheme has no prefixes.
pub open spec fn lead_of(scheme: Scheme, s: Seq<u8>) -> Lead {
    match scheme {
        Scheme::SingleRoot => no_lead(),
        Scheme::DriveLetter => drive_lead(s),
    }
}

/// A separator stands right behind the prefix.
pub open spec fn rooted_in_text(scheme: Scheme, s: Seq<u8>) -> bool {
    let lead = lead_of(scheme, s);
    0 <= lead.len < s.len() && separates(root_separators(scheme), s[lead.len])
}

/// A share or a device is a root of its own, written or not.
pub open spec fn rooted_by_prefix(lead: Lead) -> bool {
    lead.prefix matches Some(PrefixView::Other(_)) && !lead.verbatim
}

/// The prefix as a unit, if there is one.
pub open spec fn prefix_units(prefix: Option<PrefixView>) -> Seq<Unit> {
    match prefix {
        Some(p) => seq![Unit::Prefix(p)],
        None => Seq::empty(),
    }
}

/// The root as a unit, if there is one.
pub open spec fn root_units(rooted: bool) -> Seq<Unit> {
    if rooted {
        seq![Unit::Root]
    } else {
        Seq::empty()
    }
}

/// The components of a path: its prefix if it has one, its root if it has
/// one, then the units of the rest.
pub open spec fn lex(scheme: Scheme, s: Seq<u8>) -> Seq<Unit> {
    let lead = lead_of(scheme, s);
    let start = if rooted_in_text(scheme, s) {
        lead.len + 1
    } else {
        lead.len
    };
    prefix_units(lead.prefix) + root_units(rooted_in_text(scheme, s) || rooted_by_prefix(lead))
        + body_units(s, body_separators(scheme, lead.verbatim), start)
}

/// The body of a path holds neither prefix nor root.
pub proof fn lemma_body_relative(s: Seq<u8>, seps: Separators, from: int)
    ensures
        forall|i: int|
            0 <= i < body_units(s, seps, from).len() ==> is_relative(
                #[trigger] body_units(s, seps, from)[i],
            ),
    decreases s.len() + 1 - from,
{
    if 0 <= from < s.len() {
        let end: int = unit_end(s, seps, from);
        let head = unit_of(s.subrange(from, end));
        let tail = body_units(s, seps, end + 1);
        lemma_unit_end(s, seps, from);
        lemma_body_relative(s, seps, end + 1);
        assert forall|i: int| 0 <= i < (head + tail).len() implies is_relative(
            #[trigger] (head + tail)[i],
        ) by {
            if i >= head.len() {
                assert((head + tail)[i] == tail[i - head.len()]);
            }
        }
    }
}

/// The body of a path holds markers and proper names only.
pub proof fn lemma_body_proper(s: Seq<u8>, seps: Separators, from: int)
    ensures
        forall|i: int|
            0 <= i < body_units(s, seps, from).len() ==> is_proper_unit(
                seps,
                #[trigger] body_units(s, seps, from)[i],
            ),
    decreases s.len() + 1 - from,
{
    if 0 <= from < s.len() {
        let end: int = unit_end(s, seps, from);
        let text = s.subrange(from, end);
        let head = unit_of(text);
        let tail = body_units(s, seps, end + 1);
        lemma_unit_end(s, seps, from);
        lemma_body_proper(s, seps, end + 1);
        assert forall|j: int| 0 <= j < text.len() implies !separates(seps, #[trigger] text[j]) by {
            assert(text[j] == s[from + j]);
        }
        assert forall|i: int| 0 <= i < (head + tail).len() implies is_proper_unit(
            seps,
            #[trigger] (head + tail)[i],
        ) by {
            if i >= head.len() {
                assert((head + tail)[i] == tail[i - head.len()]);
            }
        }
    }
}

/// In what `lex` gives, a prefix stands first and a root first or right
/// behind the prefix.
pub proof fn lemma_lex_sequenced(scheme: Scheme, s: Seq<u8>)
    ensures
        is_sequenced(scheme, lex(scheme, s)),
{
    let lead = lead_of(scheme, s);
    let start = if rooted_in_text(scheme, s) {
        lead.len + 1
    } else {
        lead.len
    };
    lemma_body_relative(s, body_separators(scheme, lead.verbatim), start);
}

fn scan_unit(s: &[u8], seps: Separators, from: usize) -> (end: usize)
    requires
        from <= s.len(),
    ensures
        end == unit_end(s@, seps, from as int),
        from <= end <= s.len(),
{
    let mut i: usize = from;
    while i < s.len() && !is_separator(seps, s[i])
        invariant
            from <= i <= s.len(),
            unit_end(s@, seps, from as int) == unit_end(s@, seps, i as int),
        decreases s.len() - i,
    {
        i = i + 1;
    }
    i
}

fn scan_pair(s: &[u8], seps: Separators, from: usize) -> (r: (usize, bool))
    requires
        from <= s.len(),
    ensures
        r.0 == pair_end(s@, seps, from as int),
        r.1 == pair_complete(s@, seps, from as int),
        from <= r.0 <= s.len(),
{
    let first: usize = scan_unit(s, seps, from);
    if first < s.len() {
        let second: usize = scan_unit(s, seps, first + 1);
        if second > first + 1 {
            (second, first > from)
        } else {
            (first, false)
        }
    } else {
        (first, false)
    }
}

fn unit_component(s: &[u8], from: usize, end: usize, out: &mut Vec<PathComponent>)
    requires
        from <= end <= s.len(),
    ensures
        units(final(out)@) == units(old(out)@) + unit_of(s@.subrange(from as int, end as int)),
{
    let ghost text = s@.subrange(from as int, end as int);
    let ghost before = units(out@);
    if end == from {
    } else if end - from == 1 && s[from] == DOT {
        out.push(PathComponent::CurrentDirMarker);
    } else if end - from == 2 && s[from] == DOT && s[from + 1] == DOT {
        out.push(PathComponent::ParentDirMarker);
    } else {
        let name = copy_bytes(vstd::slice::slice_subrange(s, from, end));
        out.push(PathComponent::NamedSegment(name));
    }
    assert(units(out@) =~= before + unit_of(text));
}

fn push_body(s: &[u8], seps: Separators, start: usize, out: &mut Vec<PathComponent>)
    requires
        start <= s.len(),
    ensures
        units(final(out)@) == units(old(out)@) + body_units(s@, seps, start as int),
{
    let ghost before = units(out@);
    let mut from: usize = start;
    while from < s.len()
        invariant
            start <= from <= s.len(),
            units(out@) + body_units(s@, seps, from as int) == before + body_units(
                s@,
                seps,
                start as int,
            ),
        decreases s.len() - from,
    {
        let ghost so_far = units(out@);
        let end: usize = scan_unit(s, seps, from);
        unit_component(s, from, end, out);
        proof {
            let text = s@.subrange(from as int, end as int);
            assert((so_far + unit_of(text)) + body_units(s@, seps, end + 1) =~= so_far + (unit_of(
                text,
            ) + body_units(s@, seps, end + 1)));
        }
        if end == s.len() {
            from = end;
        } else {
            from = end + 1;
        }
    }
    assert(units(out@) + Seq::<Unit>::empty() =~= units(out@));
}

fn is_ascii_letter(b: u8) -> (r: bool)
    ensures
        r == is_letter(b),
{
    (0x41 <= b && b <= 0x5a) || (0x61 <= b && b <= 0x7a)
}

fn ascii_upper(b: u8) -> (r: u8)
    ensures
        r == to_upper(b),
{
    if 0x61 <= b && b <= 0x7a {
        b - 0x20
    } else {
        b
    }
}

fn has_drive(s: &[u8], at: usize) -> (r: bool)
    requires
        at <= s.len(),
    ensures
        r == drive_at(s@, at as int),
{
    s.len() - at >= 2 && is_ascii_letter(s[at]) && s[at + 1] == COLON
}

fn other_prefix(s: &[u8], end: usize, verbatim: bool) -> (r: (Option<Prefix>, usize, bool))
    requires
        end <= s.len(),
    ensures
        lead_matches(r, other_lead(s@, end as int, verbatim)),
{
    let text = copy_bytes(vstd::slice::slice_subrange(s, 0, end));
    (Some(Prefix::Other(text)), end, verbatim)
}

/// What an executable result has to be for a lead.
pub open spec fn lead_matches(r: (Option<Prefix>, usize, bool), lead: Lead) -> bool {
    &&& match r.0 {
        Some(p) => lead.prefix == Some(p@),
        None => lead.prefix is None,
    }
    &&& r.1 == lead.len
    &&& r.2 == lead.verbatim
}

fn read_drive_lead(s: &[u8]) -> (r: (Option<Prefix>, usize, bool))
    ensures
        lead_matches(r, drive_lead(s@)),
        r.1 <= s.len(),
{
    let n: usize = s.len();
    let either = Separators::Either;
    if n >= 4 && s[0] == BACKSLASH && s[1] == BACKSLASH && s[2] == QUESTION && s[3] == BACKSLASH {
        if n >= 8 && s[4] == UPPER_U && s[5] == UPPER_N && s[6] == UPPER_C && is_separator(
            either,
            s[7],
        ) {
            let (end, _): (usize, bool) = scan_pair(s, Separators::Backslash, 8);
            other_prefix(s, end, true)
        } else if has_drive(s, 4) && (n == 6 || is_separator(either, s[6])) {
            (Some(Prefix::VerbatimDisk(ascii_upper(s[4]))), 6, true)
        } else {
            let end: usize = scan_unit(s, Separators::Backslash, 4);
            other_prefix(s, end, true)
        }
    } else if n >= 4 && is_separator(either, s[0]) && is_separator(either, s[1]) && s[2] == DOT
        && is_separator(either, s[3]) {
        let end: usize = scan_unit(s, either, 4);
        other_prefix(s, end, false)
    } else if n >= 2 && is_separator(either, s[0]) && is_separator(either, s[1]) {
        let (end, complete): (usize, bool) = scan_pair(s, either, 2);
        if complete {
            other_prefix(s, end, false)
        } else {
            (None, 0, false)
        }
    } else if has_drive(s, 0) {
        (Some(Prefix::Disk(ascii_upper(s[0]))), 2, false)
    } else {
        (None, 0, false)
    }
}

fn root_separators_of(scheme: Scheme) -> (r: Separators)
    ensures
        r == root_separators(scheme),
{
    match scheme {
        Scheme::SingleRoot => Separators::Slash,
        Scheme::DriveLetter => Separators::Either,
    }
}

fn body_separators_of(scheme: Scheme, verbatim: bool) -> (r: Separators)
    ensures
        r == body_separators(scheme, verbatim),
{
    match scheme {
        Scheme::SingleRoot => Separators::Slash,
        Scheme::DriveLetter => if verbatim {
            Separators::Backslash
        } else {
            Separators::Either
        },
    }
}

/// Splits `path` into its components under `scheme`.
pub fn classify(scheme: Scheme, path: &[u8]) -> (r: Vec<PathComponent>)
    ensures
        units(r@) == lex(scheme, path@),
        is_sequenced(scheme, units(r@)),
{
    let (prefix, len, verbatim): (Option<Prefix>, usize, bool) = match scheme {
        Scheme::SingleRoot => (None, 0, false),
        Scheme::DriveLetter => read_drive_lead(path),
    };
    let ghost lead = lead_of(scheme, path@);
    let mut out: Vec<PathComponent> = Vec::new();
    let by_prefix = match &prefix {
        Some(Prefix::Other(_)) => !verbatim,
        _ => false,
    };
    match prefix {
        Some(p) => {
            out.push(PathComponent::Prefix(p));
        },
        None => {},
    }
    assert(units(out@) =~= prefix_units(lead.prefix));
    let in_text = len < path.len() && is_separator(root_separators_of(scheme), path[len]);
    if in_text || by_prefix {
        out.push(PathComponent::RootSeparator);
    }
    assert(units(out@) =~= prefix_units(lead.prefix) + root_units(
        rooted_in_text(scheme, path@) || rooted_by_prefix(lead),
    ));
    let start = if in_text {
        len + 1
    } else {
        len
    };
    push_body(path, body_separators_of(scheme, verbatim), start, &mut out);
    proof {
        lemma_lex_sequenced(scheme, path@);
    }
    out
}

} // verus!
