//! Writing components back as the bytes of a path.

use crate::classify::{
    body_units, is_proper_name, is_upper_letter, lemma_unit_end, lemma_unit_end_is, lex,
    root_separators, separates, unit_end, unit_of, Separators, BACKSLASH, COLON, DOT, QUESTION,
    SLASH,
};
use crate::component::{
    anchor_len, is_absolute, units, PathComponent, Prefix, PrefixView, Scheme, Unit,
};
use vstd::prelude::*;

verus! {

/// The separator that a scheme writes.
pub open spec fn main_separator(scheme: Scheme) -> u8 {
    match scheme {
        Scheme::SingleRoot => SLASH,
        Scheme::DriveLetter => BACKSLASH,
    }
}

/// The bytes that a prefix is written with.
pub open spec fn prefix_text(p: PrefixView) -> Seq<u8> {
    match p {
        PrefixView::Disk(letter) => seq![letter, COLON],
        PrefixView::VerbatimDisk(letter) => seq![
            BACKSLASH,
            BACKSLASH,
            QUESTION,
            BACKSLASH,
            letter,
            COLON,
        ],
        PrefixView::Other(text) => text,
    }
}

/// The bytes that a unit is written with.
pub open spec fn unit_text(scheme: Scheme, u: Unit) -> Seq<u8> {
    match u {
        Unit::Prefix(p) => prefix_text(p),
        Unit::Root => seq![main_separator(scheme)],
        Unit::CurDir => seq![DOT],
        Unit::ParentDir => seq![DOT, DOT],
        Unit::Named(text) => text,
    }
}

/// Whether a separator is written between two neighbours: not before a
/// root, not after one, and not after a plain drive (`C:name` is relative to
/// a directory on `C`).
pub open spec fn joined(prev: Unit, next: Unit) -> bool {
    !(next is Root) && match prev {
        Unit::Root => false,
        Unit::Prefix(PrefixView::Disk(_)) => false,
        _ => true,
    }
}

/// What is written between the units before `last` and `last`.
pub open spec fn glue(scheme: Scheme, before: Seq<Unit>, last: Unit) -> Seq<u8> {
    if before.len() > 0 && joined(before.last(), last) {
        seq![main_separator(scheme)]
    } else {
        Seq::empty()
    }
}

/// The bytes of a path with the units `us`.
pub open spec fn rendered(scheme: Scheme, us: Seq<Unit>) -> Seq<u8>
    decreases us.len(),
{
    if us.len() == 0 {
        Seq::empty()
    } else {
        rendered(scheme, us.drop_last()) + glue(scheme, us.drop_last(), us.last()) + unit_text(
            scheme,
            us.last(),
        )
    }
}

fn separator_of(scheme: Scheme) -> (r: u8)
    ensures
        r == main_separator(scheme),
{
    match scheme {
        Scheme::SingleRoot => SLASH,
        Scheme::DriveLetter => BACKSLASH,
    }
}

fn append_bytes(out: &mut Vec<u8>, bytes: &[u8])
    ensures
        final(out)@ == old(out)@ + bytes@,
{
    let ghost before = out@;
    let mut i: usize = 0;
    assert(bytes@.take(0) =~= Seq::<u8>::empty());
    assert(before + Seq::<u8>::empty() =~= before);
    while i < bytes.len()
        invariant
            i <= bytes.len(),
            out@ == before + bytes@.take(i as int),
        decreases bytes.len() - i,
    {
        out.push(bytes[i]);
        assert(out@ =~= before + bytes@.take(i + 1));
        i = i + 1;
    }
    assert(bytes@.take(bytes@.len() as int) =~= bytes@);
}

fn append_unit(scheme: Scheme, out: &mut Vec<u8>, component: &PathComponent)
    ensures
        final(out)@ == old(out)@ + unit_text(scheme, component@),
{
    let ghost before = out@;
    match component {
        PathComponent::Prefix(Prefix::Disk(letter)) => {
            out.push(*letter);
            out.push(COLON);
        },
        PathComponent::Prefix(Prefix::VerbatimDisk(letter)) => {
            out.push(BACKSLASH);
            out.push(BACKSLASH);
            out.push(QUESTION);
            out.push(BACKSLASH);
            out.push(*letter);
            out.push(COLON);
        },
        PathComponent::Prefix(Prefix::Other(text)) => {
            append_bytes(out, text.as_slice());
        },
        PathComponent::RootSeparator => {
            out.push(separator_of(scheme));
        },
        PathComponent::CurrentDirMarker => {
            out.push(DOT);
        },
        PathComponent::ParentDirMarker => {
            out.push(DOT);
            out.push(DOT);
        },
        PathComponent::NamedSegment(text) => {
            append_bytes(out, text.as_slice());
        },
    }
    assert(out@ =~= before + unit_text(scheme, component@));
}

fn is_joined(prev: &PathComponent, next: &PathComponent) -> (r: bool)
    ensures
        r == joined(prev@, next@),
{
    !next.is_root() && match prev {
        PathComponent::RootSeparator => false,
        PathComponent::Prefix(Prefix::Disk(_)) => false,
        _ => true,
    }
}

/// Writes `components` as the bytes of a path, with the separator of
/// `scheme` between neighbours.
pub fn render(scheme: Scheme, components: &[PathComponent]) -> (r: Vec<u8>)
    ensures
        r@ == rendered(scheme, units(components@)),
{
    let ghost us = units(components@);
    let mut out: Vec<u8> = Vec::new();
    let mut i: usize = 0;
    assert(us.take(0) =~= Seq::<Unit>::empty());
    while i < components.len()
        invariant
            i <= components.len(),
            us == units(components@),
            out@ == rendered(scheme, us.take(i as int)),
        decreases components.len() - i,
    {
        let ghost so_far = out@;
        proof {
            assert(us.take(i + 1).drop_last() =~= us.take(i as int));
            assert(us.take(i + 1).last() == us[i as int]);
            if i > 0 {
                assert(us.take(i as int).last() == us[i - 1]);
            }
        }
        if i > 0 && is_joined(&components[i - 1], &components[i]) {
            out.push(separator_of(scheme));
        }
        assert(out@ =~= so_far + glue(scheme, us.take(i as int), us[i as int]));
        append_unit(scheme, &mut out, &components[i]);
        i = i + 1;
    }
    assert(us.take(components@.len() as int) =~= us);
    out
}

/// A unit that is a plain drive with an upper-case letter.
pub open spec fn is_plain_drive(u: Unit) -> bool {
    match u {
        Unit::Prefix(PrefixView::Disk(letter)) => is_upper_letter(letter),
        _ => false,
    }
}

/// A unit that is a named segment with a proper name.
pub open spec fn is_proper_segment(seps: Separators, u: Unit) -> bool {
    match u {
        Unit::Named(text) => is_proper_name(seps, text),
        _ => false,
    }
}

/// An absolute path in its plainest form: under the drive-letter scheme it
/// lies on a plain drive, and every name is one that the path's text can
/// hold between two separators.
pub open spec fn is_plain(scheme: Scheme, us: Seq<Unit>) -> bool {
    &&& is_absolute(scheme, us)
    &&& scheme == Scheme::DriveLetter ==> is_plain_drive(us[0])
    &&& forall|i: int|
        anchor_len(scheme) <= i < us.len() ==> is_proper_segment(
            root_separators(scheme),
            #[trigger] us[i],
        )
}

/// The bytes that the anchor of a plain path is written with.
pub open spec fn anchor_text(scheme: Scheme, us: Seq<Unit>) -> Seq<u8> {
    match scheme {
        Scheme::SingleRoot => seq![SLASH],
        Scheme::DriveLetter => prefix_text(us[0]->Prefix_0) + seq![BACKSLASH],
    }
}

/// Appending a separator and a name to a text appends the name to its
/// units.
pub proof fn lemma_body_append(s: Seq<u8>, seps: Separators, from: int, c: u8, name: Seq<u8>)
    requires
        0 <= from <= s.len(),
        separates(seps, c),
        is_proper_name(seps, name),
    ensures
        body_units(s + seq![c] + name, seps, from) == body_units(s, seps, from).push(
            Unit::Named(name),
        ),
    decreases s.len() - from,
{
    let t = s + seq![c] + name;
    assert(t[s.len() as int] == c);
    assert forall|k: int| s.len() < k < t.len() implies !separates(seps, #[trigger] t[k]) by {
        assert(t[k] == name[k - s.len() - 1]);
    }
    // the units of `t` behind the appended separator
    let behind: int = s.len() as int + 1;
    let past: int = t.len() as int + 1;
    assert(body_units(t, seps, behind) == seq![Unit::Named(name)]) by {
        lemma_unit_end_is(t, seps, behind, t.len() as int);
        assert(t.subrange(behind, t.len() as int) =~= name);
        assert(body_units(t, seps, past) =~= Seq::<Unit>::empty());
        assert(unit_of(name) + Seq::<Unit>::empty() =~= seq![Unit::Named(name)]);
    }
    if from == s.len() {
        lemma_unit_end_is(t, seps, from, from);
        assert(t.subrange(from, from) =~= Seq::<u8>::empty());
        assert(body_units(s, seps, from) =~= Seq::<Unit>::empty());
        assert(Seq::<Unit>::empty() + seq![Unit::Named(name)] =~= Seq::<Unit>::empty().push(
            Unit::Named(name),
        ));
    } else {
        let end: int = unit_end(s, seps, from);
        lemma_unit_end(s, seps, from);
        assert forall|k: int| from <= k < end implies !separates(seps, #[trigger] t[k]) by {
            assert(t[k] == s[k]);
        }
        if end < s.len() {
            assert(t[end] == s[end]);
        }
        lemma_unit_end_is(t, seps, from, end);
        assert(t.subrange(from, end) =~= s.subrange(from, end));
        let head = unit_of(s.subrange(from, end));
        if end < s.len() {
            lemma_body_append(s, seps, end + 1, c, name);
            assert(head + body_units(s, seps, end + 1).push(Unit::Named(name)) =~= (head
                + body_units(s, seps, end + 1)).push(Unit::Named(name)));
        } else {
            assert(body_units(s, seps, end + 1) =~= Seq::<Unit>::empty());
            assert(head + seq![Unit::Named(name)] =~= (head + Seq::<Unit>::empty()).push(
                Unit::Named(name),
            ));
        }
    }
}

/// The text of a plain path begins with the text of its anchor, and is no
/// more than that where the path is no more than its anchor.
pub proof fn lemma_rendered_begins(scheme: Scheme, us: Seq<Unit>)
    requires
        is_plain(scheme, us),
    ensures
        rendered(scheme, us).len() >= anchor_text(scheme, us).len(),
        rendered(scheme, us).take(anchor_text(scheme, us).len() as int) == anchor_text(scheme, us),
        us.len() == anchor_len(scheme) ==> rendered(scheme, us) == anchor_text(scheme, us),
    decreases us.len(),
{
    let n: int = anchor_len(scheme);
    let a = anchor_text(scheme, us);
    if us.len() == n {
        match scheme {
            Scheme::SingleRoot => {
                assert(rendered(scheme, us.drop_last()) =~= Seq::<u8>::empty());
                assert(glue(scheme, us.drop_last(), us.last()) =~= Seq::<u8>::empty());
                assert(rendered(scheme, us) =~= a);
            },
            Scheme::DriveLetter => {
                let first = us.drop_last();
                assert(first.last() == us[0]);
                assert(rendered(scheme, first.drop_last()) =~= Seq::<u8>::empty());
                assert(glue(scheme, first.drop_last(), first.last()) =~= Seq::<u8>::empty());
                assert(rendered(scheme, first) =~= prefix_text(us[0]->Prefix_0));
                assert(glue(scheme, first, us.last()) =~= Seq::<u8>::empty());
                assert(rendered(scheme, us) =~= a);
            },
        }
        assert(a.take(a.len() as int) =~= a);
    } else {
        let init = us.drop_last();
        assert(is_plain(scheme, init));
        lemma_rendered_begins(scheme, init);
        assert(anchor_text(scheme, init) == a);
        let s = rendered(scheme, init);
        let t = rendered(scheme, us);
        assert(t.take(a.len() as int) =~= s.take(a.len() as int));
    }
}

/// The units of a text that begins with the anchor of a plain path: that
/// anchor, then the units of what follows it.
pub proof fn lemma_lex_anchored(scheme: Scheme, us: Seq<Unit>, s: Seq<u8>)
    requires
        is_plain(scheme, us),
        s.len() >= anchor_text(scheme, us).len(),
        s.take(anchor_text(scheme, us).len() as int) == anchor_text(scheme, us),
    ensures
        lex(scheme, s) == us.take(anchor_len(scheme)) + body_units(
            s,
            root_separators(scheme),
            anchor_text(scheme, us).len() as int,
        ),
{
    let a = anchor_text(scheme, us);
    assert forall|k: int| 0 <= k < a.len() implies s[k] == a[k] by {
        assert(s.take(a.len() as int)[k] == s[k]);
    }
    match scheme {
        Scheme::SingleRoot => {
            assert(s[0] == SLASH);
            assert(lex(scheme, s) =~= us.take(1) + body_units(s, Separators::Slash, 1));
        },
        Scheme::DriveLetter => {
            let letter = us[0]->Prefix_0->Disk_0;
            assert(s[0] == letter);
            assert(s[1] == COLON);
            assert(s[2] == BACKSLASH);
            assert(lex(scheme, s) =~= us.take(2) + body_units(s, Separators::Either, 3));
        },
    }
}

/// Writing a plain path and reading the text again gives the path.
pub proof fn lemma_lex_rendered(scheme: Scheme, us: Seq<Unit>)
    requires
        is_plain(scheme, us),
    ensures
        lex(scheme, rendered(scheme, us)) == us,
    decreases us.len(),
{
    let n: int = anchor_len(scheme);
    let seps = root_separators(scheme);
    let a = anchor_text(scheme, us);
    let t = rendered(scheme, us);
    lemma_rendered_begins(scheme, us);
    lemma_lex_anchored(scheme, us, t);
    if us.len() == n {
        assert(body_units(t, seps, a.len() as int) =~= Seq::<Unit>::empty());
        assert(us.take(n) + Seq::<Unit>::empty() =~= us);
    } else {
        let init = us.drop_last();
        let name = us.last()->Named_0;
        let s = rendered(scheme, init);
        assert(is_plain(scheme, init));
        assert(is_proper_segment(seps, us[us.len() - 1]));
        lemma_lex_rendered(scheme, init);
        lemma_rendered_begins(scheme, init);
        lemma_lex_anchored(scheme, init, s);
        assert(anchor_text(scheme, init) == a);
        assert(init.take(n) =~= us.take(n));
        if init.len() == n {
            assert(init.last() is Root);
            assert(t =~= s + name);
            assert forall|k: int| a.len() <= k < t.len() implies !separates(
                seps,
                #[trigger] t[k],
            ) by {
                assert(t[k] == name[k - a.len()]);
            }
            lemma_unit_end_is(t, seps, a.len() as int, t.len() as int);
            assert(t.subrange(a.len() as int, t.len() as int) =~= name);
            let past: int = t.len() as int + 1;
            assert(body_units(t, seps, past) =~= Seq::<Unit>::empty());
            assert(body_units(t, seps, a.len() as int) =~= seq![Unit::Named(name)]);
            assert(body_units(s, seps, a.len() as int) =~= Seq::<Unit>::empty());
            assert(us.take(n) + seq![Unit::Named(name)] =~= us);
        } else {
            assert(init.last() is Named);
            assert(t =~= s + seq![main_separator(scheme)] + name);
            lemma_body_append(s, seps, a.len() as int, main_separator(scheme), name);
            assert(us.take(n) + body_units(s, seps, a.len() as int).push(Unit::Named(name)) =~= (
            init.take(n) + body_units(s, seps, a.len() as int)).push(Unit::Named(name)));
            assert(init.push(Unit::Named(name)) =~= us);
        }
    }
}

} // verus!
