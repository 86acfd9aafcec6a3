//! Texts that differ in their separators only have the same components,
//! and so resolve alike.

use crate::classify::{
    body_units, drive_at, lemma_unit_end, lemma_unit_end_is, lex, root_units, separates,
    starts_double, to_upper, unit_end, unit_of, Separators, SLASH,
};
use crate::component::{PrefixView, Scheme, Unit};
use crate::context::ContextView;
use crate::resolve::resolved;
use vstd::prelude::*;

verus! {

/// The units from `from` on depend on the bytes from `from` on and on
/// nothing else.
pub proof fn lemma_body_shift(s: Seq<u8>, from_s: int, t: Seq<u8>, from_t: int, seps: Separators)
    requires
        0 <= from_s <= s.len(),
        0 <= from_t <= t.len(),
        s.skip(from_s) == t.skip(from_t),
    ensures
        body_units(s, seps, from_s) == body_units(t, seps, from_t),
    decreases s.len() - from_s,
{
    let shift: int = from_t - from_s;
    assert(s.skip(from_s).len() == s.len() - from_s);
    assert(t.skip(from_t).len() == t.len() - from_t);
    assert forall|k: int| from_s <= k < s.len() implies #[trigger] s[k] == t[k + shift] by {
        assert(s.skip(from_s)[k - from_s] == s[k]);
        assert(t.skip(from_t)[k - from_s] == t[k + shift]);
    }
    if from_s < s.len() {
        let end: int = unit_end(s, seps, from_s);
        lemma_unit_end(s, seps, from_s);
        assert forall|k: int| from_t <= k < end + shift implies !separates(
            seps,
            #[trigger] t[k],
        ) by {
            assert(s[k - shift] == t[k - shift + shift]);
        }
        if end < s.len() {
            assert(s[end] == t[end + shift]);
        }
        lemma_unit_end_is(t, seps, from_t, end + shift);
        assert(s.subrange(from_s, end) =~= t.subrange(from_t, end + shift)) by {
            let text_s = s.subrange(from_s, end);
            let text_t = t.subrange(from_t, end + shift);
            assert forall|k: int| 0 <= k < text_s.len() implies #[trigger] text_s[k]
                == text_t[k] by {
                assert(s[from_s + k] == t[from_s + k + shift]);
            }
        }
        if end < s.len() {
            let rest_s = s.skip(end + 1);
            let rest_t = t.skip(end + shift + 1);
            assert(rest_s =~= rest_t) by {
                assert forall|k: int| 0 <= k < rest_s.len() implies #[trigger] rest_s[k]
                    == rest_t[k] by {
                    assert(s[end + 1 + k] == t[end + 1 + k + shift]);
                }
            }
            lemma_body_shift(s, end + 1, t, end + shift + 1, seps);
        } else {
            assert(body_units(s, seps, end + 1) =~= Seq::<Unit>::empty());
            assert(body_units(t, seps, end + shift + 1) =~= Seq::<Unit>::empty());
        }
        assert(body_units(t, seps, from_t) == unit_of(t.subrange(from_t, end + shift))
            + body_units(t, seps, end + shift + 1));
    } else {
        assert(body_units(t, seps, from_t) =~= Seq::<Unit>::empty());
    }
}

/// Repeated separators: a separator more changes nothing where it cuts no
/// name in two, that is at the start, at the end, or beside another
/// separator.
pub proof fn lemma_separator_repeated(s: Seq<u8>, seps: Separators, from: int, i: int, c: u8)
    requires
        0 <= from <= i <= s.len(),
        separates(seps, c),
        i == from || i == s.len() || separates(seps, s[i]) || separates(seps, s[i - 1]),
    ensures
        body_units(s.insert(i, c), seps, from) == body_units(s, seps, from),
    decreases s.len() - from,
{
    let t = s.insert(i, c);
    assert(t.len() == s.len() + 1);
    assert(t[i] == c);
    assert forall|k: int| 0 <= k < i implies #[trigger] t[k] == s[k] by {}
    assert forall|k: int| i < k < t.len() implies #[trigger] t[k] == s[k - 1] by {}
    if i == from {
        lemma_unit_end_is(t, seps, from, from);
        assert(unit_of(t.subrange(from, from)) =~= Seq::<Unit>::empty());
        let rest_s = s.skip(from);
        let rest_t = t.skip(from + 1);
        assert(rest_s =~= rest_t) by {
            assert forall|k: int| 0 <= k < rest_s.len() implies #[trigger] rest_s[k]
                == rest_t[k] by {
                assert(t[from + 1 + k] == s[from + 1 + k - 1]);
            }
        }
        lemma_body_shift(s, from, t, from + 1, seps);
        assert(Seq::<Unit>::empty() + body_units(t, seps, from + 1) =~= body_units(
            t,
            seps,
            from + 1,
        ));
        assert(body_units(t, seps, from) == unit_of(t.subrange(from, from)) + body_units(
            t,
            seps,
            from + 1,
        ));
    } else {
        let end: int = unit_end(s, seps, from);
        lemma_unit_end(s, seps, from);
        assert(end <= i);
        assert forall|k: int| from <= k < end implies !separates(seps, #[trigger] t[k]) by {
            assert(t[k] == s[k]);
        }
        if end < i {
            assert(t[end] == s[end]);
        }
        lemma_unit_end_is(t, seps, from, end);
        assert(t.subrange(from, end) =~= s.subrange(from, end));
        if end < i {
            lemma_separator_repeated(s, seps, end + 1, i, c);
        } else if end == s.len() {
            assert(body_units(s, seps, end + 1) =~= Seq::<Unit>::empty());
            assert(body_units(t, seps, end + 1) =~= Seq::<Unit>::empty());
        } else {
            // `c` stands right before the separator that ended the unit
            assert(t[end + 1] == s[end]);
            lemma_unit_end_is(t, seps, end + 1, end + 1);
            assert(unit_of(t.subrange(end + 1, end + 1)) =~= Seq::<Unit>::empty());
            let rest_s = s.skip(end + 1);
            let rest_t = t.skip(end + 2);
            assert(rest_s =~= rest_t) by {
                assert forall|k: int| 0 <= k < rest_s.len() implies #[trigger] rest_s[k]
                    == rest_t[k] by {
                    assert(t[end + 2 + k] == s[end + 2 + k - 1]);
                }
            }
            lemma_body_shift(s, end + 1, t, end + 2, seps);
            assert(Seq::<Unit>::empty() + body_units(t, seps, end + 2) =~= body_units(
                t,
                seps,
                end + 2,
            ));
            assert(body_units(t, seps, end + 1) == unit_of(t.subrange(end + 1, end + 1))
                + body_units(t, seps, end + 2));
        }
        assert(body_units(t, seps, from) == unit_of(t.subrange(from, end)) + body_units(
            t,
            seps,
            end + 1,
        ));
    }
}

/// Two texts of one length that differ only in which separator stands
/// where a separator stands.
pub open spec fn same_but_separators(s: Seq<u8>, t: Seq<u8>, seps: Separators) -> bool {
    &&& s.len() == t.len()
    &&& forall|k: int|
        0 <= k < s.len() ==> #[trigger] s[k] == t[k] || (separates(seps, s[k]) && separates(
            seps,
            t[k],
        ))
}

/// Mixed separators: which of the separators stands between two units
/// changes nothing.
pub proof fn lemma_separators_mixed(s: Seq<u8>, t: Seq<u8>, seps: Separators, from: int)
    requires
        same_but_separators(s, t, seps),
    ensures
        body_units(s, seps, from) == body_units(t, seps, from),
    decreases s.len() + 1 - from,
{
    if 0 <= from < s.len() {
        let end: int = unit_end(s, seps, from);
        lemma_unit_end(s, seps, from);
        assert forall|k: int| from <= k < end implies !separates(seps, #[trigger] t[k]) by {
            assert(s[k] == t[k] || (separates(seps, s[k]) && separates(seps, t[k])));
        }
        if end < s.len() {
            assert(s[end] == t[end] || (separates(seps, s[end]) && separates(seps, t[end])));
        }
        lemma_unit_end_is(t, seps, from, end);
        assert(s.subrange(from, end) =~= t.subrange(from, end)) by {
            let text_s = s.subrange(from, end);
            let text_t = t.subrange(from, end);
            assert forall|k: int| 0 <= k < text_s.len() implies #[trigger] text_s[k]
                == text_t[k] by {
                assert(s[from + k] == t[from + k] || (separates(seps, s[from + k]) && separates(
                    seps,
                    t[from + k],
                )));
            }
        }
        lemma_separators_mixed(s, t, seps, end + 1);
    }
}

/// A separator stands at `at`.
pub open spec fn separator_at(s: Seq<u8>, seps: Separators, at: int) -> bool {
    0 <= at < s.len() && separates(seps, s[at])
}

/// A separator at the start of the body is the root and no unit of the
/// body.
proof fn lemma_body_behind_root(s: Seq<u8>, seps: Separators, from: int)
    requires
        separator_at(s, seps, from),
    ensures
        body_units(s, seps, from) == body_units(s, seps, from + 1),
{
    lemma_unit_end_is(s, seps, from, from);
    assert(unit_of(s.subrange(from, from)) =~= Seq::<Unit>::empty());
    assert(Seq::<Unit>::empty() + body_units(s, seps, from + 1) =~= body_units(s, seps, from + 1));
}

/// Under the single-root scheme a text has a root if it begins with `/`,
/// and its other units are those of the whole text.
proof fn lemma_lex_single_root(s: Seq<u8>)
    ensures
        lex(Scheme::SingleRoot, s) == root_units(separator_at(s, Separators::Slash, 0))
            + body_units(s, Separators::Slash, 0),
{
    if separator_at(s, Separators::Slash, 0) {
        lemma_body_behind_root(s, Separators::Slash, 0);
    }
}

/// The drive that a text of the drive-letter scheme begins with.
pub open spec fn drive_units(s: Seq<u8>) -> Seq<Unit> {
    if drive_at(s, 0) {
        seq![Unit::Prefix(PrefixView::Disk(to_upper(s[0])))]
    } else {
        Seq::empty()
    }
}

/// The number of bytes that the drive takes.
pub open spec fn drive_len(s: Seq<u8>) -> int {
    if drive_at(s, 0) {
        2
    } else {
        0
    }
}

/// Under the drive-letter scheme a text that does not begin with two
/// separators has a drive or no prefix at all, a root if a separator comes
/// next, and then the units of the rest.
proof fn lemma_lex_drive_letter(s: Seq<u8>)
    requires
        !starts_double(s),
    ensures
        lex(Scheme::DriveLetter, s) == drive_units(s) + root_units(
            separator_at(s, Separators::Either, drive_len(s)),
        ) + body_units(s, Separators::Either, drive_len(s)),
{
    if separator_at(s, Separators::Either, drive_len(s)) {
        lemma_body_behind_root(s, Separators::Either, drive_len(s));
    }
}

/// Repeated separators under the single-root scheme: a `/` more beside a
/// `/` leaves the components of a path as they are.
pub proof fn lemma_lex_repeated_single_root(s: Seq<u8>, i: int)
    requires
        0 <= i <= s.len(),
        separator_at(s, Separators::Slash, i) || separator_at(s, Separators::Slash, i - 1),
    ensures
        lex(Scheme::SingleRoot, s.insert(i, SLASH)) == lex(Scheme::SingleRoot, s),
        forall|ctx: ContextView| #[trigger]
            resolved(Scheme::SingleRoot, lex(Scheme::SingleRoot, s.insert(i, SLASH)), ctx)
                == resolved(Scheme::SingleRoot, lex(Scheme::SingleRoot, s), ctx),
{
    let t = s.insert(i, SLASH);
    lemma_lex_single_root(s);
    lemma_lex_single_root(t);
    lemma_separator_repeated(s, Separators::Slash, 0, i, SLASH);
    assert(separator_at(t, Separators::Slash, 0) == separator_at(s, Separators::Slash, 0));
}

/// Repeated separators under the drive-letter scheme: a separator more
/// beside a separator leaves the components of a path as they are, unless
/// the path begins with two separators before or after, which is how a
/// prefix is written.
pub proof fn lemma_lex_repeated_drive_letter(s: Seq<u8>, i: int, c: u8)
    requires
        0 <= i <= s.len(),
        separates(Separators::Either, c),
        separator_at(s, Separators::Either, i) || separator_at(s, Separators::Either, i - 1),
        !starts_double(s),
        !starts_double(s.insert(i, c)),
    ensures
        lex(Scheme::DriveLetter, s.insert(i, c)) == lex(Scheme::DriveLetter, s),
        forall|ctx: ContextView| #[trigger]
            resolved(Scheme::DriveLetter, lex(Scheme::DriveLetter, s.insert(i, c)), ctx)
                == resolved(Scheme::DriveLetter, lex(Scheme::DriveLetter, s), ctx),
{
    let t = s.insert(i, c);
    let from: int = drive_len(s);
    lemma_lex_drive_letter(s);
    lemma_lex_drive_letter(t);
    assert(t[i] == c);
    assert forall|k: int| 0 <= k < i implies #[trigger] t[k] == s[k] by {}
    assert forall|k: int| i < k < t.len() implies #[trigger] t[k] == s[k - 1] by {}
    if i == 0 {
        assert(t[1] == s[0]);
    }
    assert(drive_at(t, 0) == drive_at(s, 0));
    assert(drive_units(t) == drive_units(s));
    assert(from <= i);
    assert(separator_at(t, Separators::Either, from) == separator_at(s, Separators::Either, from));
    lemma_separator_repeated(s, Separators::Either, from, i, c);
}

/// Mixed separators under the drive-letter scheme: `/` for `\\` or `\\` for
/// `/` leaves the components of a path as they are, unless the path begins
/// with two separators, which is how a prefix is written.
pub proof fn lemma_lex_mixed_drive_letter(s: Seq<u8>, t: Seq<u8>)
    requires
        same_but_separators(s, t, Separators::Either),
        !starts_double(s),
    ensures
        lex(Scheme::DriveLetter, t) == lex(Scheme::DriveLetter, s),
        forall|ctx: ContextView| #[trigger]
            resolved(Scheme::DriveLetter, lex(Scheme::DriveLetter, t), ctx) == resolved(
                Scheme::DriveLetter,
                lex(Scheme::DriveLetter, s),
                ctx,
            ),
{
    assert(s.len() >= 1 ==> s[0] == t[0] || (separates(Separators::Either, s[0]) && separates(
        Separators::Either,
        t[0],
    )));
    assert(s.len() >= 2 ==> s[1] == t[1] || (separates(Separators::Either, s[1]) && separates(
        Separators::Either,
        t[1],
    )));
    assert(s.len() >= 3 ==> s[2] == t[2] || (separates(Separators::Either, s[2]) && separates(
        Separators::Either,
        t[2],
    )));
    lemma_lex_drive_letter(s);
    lemma_lex_drive_letter(t);
    lemma_separators_mixed(s, t, Separators::Either, drive_len(s));
}

} // verus!
