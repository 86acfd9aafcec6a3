//! Resolving a path to its absolute, clean form.

use crate::anchor::{base_of, drive_root, resolve_root, root_at};
use crate::classify::{
    body_separators, body_units, classify, is_proper_unit, lead_of, lemma_body_proper,
    lemma_lex_sequenced, lex, prefix_units, root_separators, root_units, rooted_by_prefix,
    rooted_in_text,
};
use crate::component::{
    all_relative, anchor_len, copy_bytes, is_absolute, is_relative, is_sequenced, units,
    PathComponent, PrefixView, Scheme, Unit,
};
use crate::context::{
    drive_dir, drive_letter_of, ContextView, DriveDirectoryView, ResolutionContext,
};
use crate::error::{Error, ErrorKind};
use crate::reduce::{fold, lemma_fold_absolute, lemma_fold_keeps_root, lemma_fold_named, reduce};
use crate::render::{is_plain, is_plain_drive, lemma_lex_rendered, rendered};
use vstd::prelude::*;

verus! {

/// The resolved form of a sequence of units: the units that the base does
/// not stand for, folded onto the base.
pub open spec fn resolved(scheme: Scheme, us: Seq<Unit>, ctx: ContextView) -> Result<
    Seq<Unit>,
    ErrorKind,
> {
    match base_of(scheme, us, ctx) {
        Ok(base) => Ok(fold(base.stack, us.skip(base.used))),
        Err(kind) => Err(kind),
    }
}

/// Behind the units that a base stands for, a sequenced path holds
/// relative units only.
pub proof fn lemma_rest_relative(scheme: Scheme, us: Seq<Unit>, ctx: ContextView)
    requires
        is_sequenced(scheme, us),
        base_of(scheme, us, ctx) is Ok,
    ensures
        0 <= base_of(scheme, us, ctx)->Ok_0.used <= us.len(),
        all_relative(us.skip(base_of(scheme, us, ctx)->Ok_0.used)),
{
    let used: int = base_of(scheme, us, ctx)->Ok_0.used;
    assert forall|i: int| 0 <= i < us.skip(used).len() implies is_relative(
        #[trigger] us.skip(used)[i],
    ) by {
        assert(us.skip(used)[i] == us[i + used]);
    }
}

/// A recorded directory is one of the entries.
pub proof fn lemma_drive_dir_is_entry(dirs: Seq<DriveDirectoryView>, letter: u8)
    requires
        drive_dir(dirs, letter) is Some,
    ensures
        exists|i: int|
            0 <= i < dirs.len() && (#[trigger] dirs[i]).letter == letter && dirs[i].directory
                == drive_dir(dirs, letter)->Some_0,
    decreases dirs.len(),
{
    if dirs[0].letter == letter {
    } else {
        lemma_drive_dir_is_entry(dirs.drop_first(), letter);
        let i = choose|i: int|
            0 <= i < dirs.drop_first().len() && (#[trigger] dirs.drop_first()[i]).letter == letter
                && dirs.drop_first()[i].directory == drive_dir(dirs.drop_first(), letter)->Some_0;
        assert(dirs[i + 1] == dirs.drop_first()[i]);
    }
}

/// With absolute directories in the context, every base is absolute.
pub proof fn lemma_base_absolute(scheme: Scheme, us: Seq<Unit>, ctx: ContextView)
    requires
        ctx.well_formed(scheme),
        base_of(scheme, us, ctx) is Ok,
    ensures
        is_absolute(scheme, base_of(scheme, us, ctx)->Ok_0.stack),
{
    if scheme == Scheme::DriveLetter && us.len() > 0 {
        match us[0] {
            Unit::Prefix(PrefixView::Disk(letter)) => {
                if !root_at(us, 1) && drive_dir(ctx.drive_dirs, letter) is Some {
                    lemma_drive_dir_is_entry(ctx.drive_dirs, letter);
                }
            },
            _ => {},
        }
    }
}

/// Absoluteness: with absolute directories in the context, a resolved path
/// is the anchor of its base followed by named segments, so it holds no
/// `.` and no `..`.
pub proof fn lemma_resolved_absolute(scheme: Scheme, us: Seq<Unit>, ctx: ContextView)
    requires
        ctx.well_formed(scheme),
        resolved(scheme, us, ctx) is Ok,
    ensures
        is_absolute(scheme, resolved(scheme, us, ctx)->Ok_0),
        forall|i: int|
            0 <= i < resolved(scheme, us, ctx)->Ok_0.len() ==> !((#[trigger] resolved(
                scheme,
                us,
                ctx,
            )->Ok_0[i]) is CurDir) && !(resolved(scheme, us, ctx)->Ok_0[i] is ParentDir),
        resolved(scheme, us, ctx)->Ok_0.take(anchor_len(scheme)) == base_of(
            scheme,
            us,
            ctx,
        )->Ok_0.stack.take(anchor_len(scheme)),
{
    let base = base_of(scheme, us, ctx)->Ok_0;
    lemma_base_absolute(scheme, us, ctx);
    lemma_fold_absolute(scheme, base.stack, us.skip(base.used));
}

/// Root floor: a root in the base is never taken off. Whatever the path
/// holds, the resolved path begins with the base up to and including that
/// root.
pub proof fn lemma_resolved_keeps_root(scheme: Scheme, us: Seq<Unit>, ctx: ContextView, k: int)
    requires
        base_of(scheme, us, ctx) is Ok,
        root_at(base_of(scheme, us, ctx)->Ok_0.stack, k),
    ensures
        resolved(scheme, us, ctx) is Ok,
        resolved(scheme, us, ctx)->Ok_0.len() > k,
        resolved(scheme, us, ctx)->Ok_0.take(k + 1) == base_of(scheme, us, ctx)->Ok_0.stack.take(
            k + 1,
        ),
{
    let base = base_of(scheme, us, ctx)->Ok_0;
    lemma_fold_keeps_root(base.stack, us.skip(base.used), k);
}

/// A path that needs nothing from the context to be absolute: under the
/// drive-letter scheme it lies on a plain drive.
pub open spec fn is_self_anchored(scheme: Scheme, us: Seq<Unit>) -> bool {
    &&& is_absolute(scheme, us)
    &&& scheme == Scheme::DriveLetter ==> us[0] matches Unit::Prefix(PrefixView::Disk(_))
}

/// Such a path resolves to itself, whatever the context holds.
pub proof fn lemma_self_anchored_is_fixed(scheme: Scheme, us: Seq<Unit>, ctx: ContextView)
    requires
        is_self_anchored(scheme, us),
    ensures
        resolved(scheme, us, ctx) == Ok::<Seq<Unit>, ErrorKind>(us),
{
    let n: int = anchor_len(scheme);
    let base = base_of(scheme, us, ctx)->Ok_0;
    assert(base.stack =~= us.take(n));
    assert(base.used == n);
    assert forall|i: int| 0 <= i < us.skip(n).len() implies (#[trigger] us.skip(n)[i]) is Named by {
        assert(us.skip(n)[i] == us[i + n]);
    }
    lemma_fold_named(us.take(n), us.skip(n));
    assert(us.take(n) + us.skip(n) =~= us);
}

/// Idempotence on components: where a path resolves to a path on a plain
/// drive (or under the single root), resolving the result again changes
/// nothing.
pub proof fn lemma_resolved_idempotent(scheme: Scheme, us: Seq<Unit>, ctx: ContextView)
    requires
        resolved(scheme, us, ctx) is Ok,
        is_self_anchored(scheme, resolved(scheme, us, ctx)->Ok_0),
    ensures
        resolved(scheme, resolved(scheme, us, ctx)->Ok_0, ctx) == resolved(scheme, us, ctx),
{
    lemma_self_anchored_is_fixed(scheme, resolved(scheme, us, ctx)->Ok_0, ctx);
}

/// A context whose directories are all plain paths.
pub open spec fn is_plain_context(scheme: Scheme, ctx: ContextView) -> bool {
    &&& ctx.current_dir matches Some(dir) ==> is_plain(scheme, dir)
    &&& forall|i: int|
        0 <= i < ctx.drive_dirs.len() ==> is_plain(scheme, (#[trigger] ctx.drive_dirs[i]).directory)
}

/// Folding markers and proper names onto a plain path gives a plain path.
pub proof fn lemma_fold_plain(scheme: Scheme, stack: Seq<Unit>, rest: Seq<Unit>)
    requires
        is_plain(scheme, stack),
        forall|i: int|
            0 <= i < rest.len() ==> is_proper_unit(root_separators(scheme), #[trigger] rest[i]),
    ensures
        is_plain(scheme, fold(stack, rest)),
    decreases rest.len(),
{
    if rest.len() > 0 {
        lemma_fold_plain(scheme, stack, rest.drop_last());
    }
}

/// The named segments of a text have proper names, and a drive that the
/// text names has an upper-case letter.
pub proof fn lemma_lex_proper(scheme: Scheme, path: Seq<u8>)
    ensures
        forall|i: int|
            0 <= i < lex(scheme, path).len() && (#[trigger] lex(scheme, path)[i]) is Named
                ==> is_proper_unit(
                body_separators(scheme, lead_of(scheme, path).verbatim),
                lex(scheme, path)[i],
            ),
        lex(scheme, path).len() > 0 && lex(scheme, path)[0] is Prefix && lex(
            scheme,
            path,
        )[0]->Prefix_0 is Disk ==> is_plain_drive(lex(scheme, path)[0]),
        lex(scheme, path).len() > 0 && lex(scheme, path)[0] is Prefix && lex(
            scheme,
            path,
        )[0]->Prefix_0 is VerbatimDisk ==> lead_of(scheme, path).verbatim,
{
    let lead = lead_of(scheme, path);
    let seps = body_separators(scheme, lead.verbatim);
    let start = if rooted_in_text(scheme, path) {
        lead.len + 1
    } else {
        lead.len
    };
    let front = prefix_units(lead.prefix) + root_units(
        rooted_in_text(scheme, path) || rooted_by_prefix(lead),
    );
    let body = body_units(path, seps, start);
    lemma_body_proper(path, seps, start);
    assert forall|i: int|
        0 <= i < lex(scheme, path).len() && (#[trigger] lex(scheme, path)[i]) is Named
        implies is_proper_unit(seps, lex(scheme, path)[i]) by {
        assert(lex(scheme, path) == front + body);
        assert(i >= front.len());
        assert((front + body)[i] == body[i - front.len()]);
    }
    if lex(scheme, path).len() > 0 && lex(scheme, path)[0] is Prefix {
        assert(lex(scheme, path) == front + body);
        if lead.prefix is Some {
            assert((front + body)[0] == Unit::Prefix(lead.prefix->Some_0));
        } else if front.len() > 0 {
            assert((front + body)[0] == Unit::Root);
        } else {
            assert((front + body)[0] == body[0]);
        }
    }
}

/// With plain directories in the context, a text that begins with no
/// verbatim prefix resolves to a plain path.
pub proof fn lemma_resolved_plain(scheme: Scheme, path: Seq<u8>, ctx: ContextView)
    requires
        is_plain_context(scheme, ctx),
        !lead_of(scheme, path).verbatim,
        resolved(scheme, lex(scheme, path), ctx) is Ok,
    ensures
        is_plain(scheme, resolved(scheme, lex(scheme, path), ctx)->Ok_0),
{
    let us = lex(scheme, path);
    let base = base_of(scheme, us, ctx)->Ok_0;
    let seps = root_separators(scheme);
    lemma_lex_proper(scheme, path);
    lemma_lex_sequenced(scheme, path);
    lemma_rest_relative(scheme, us, ctx);
    assert(is_plain(scheme, base.stack)) by {
        if scheme == Scheme::DriveLetter && us.len() > 0 {
            match us[0] {
                Unit::Prefix(PrefixView::Disk(letter)) => {
                    assert(is_plain_drive(us[0]));
                    if root_at(us, 1) {
                        assert(base.stack =~= seq![us[0], us[1]]);
                    } else if drive_letter_of(ctx.current_dir->Some_0) == Some(letter) {
                    } else if drive_dir(ctx.drive_dirs, letter) is Some {
                        lemma_drive_dir_is_entry(ctx.drive_dirs, letter);
                    } else {
                        assert(base.stack =~= drive_root(letter));
                    }
                },
                Unit::Prefix(PrefixView::VerbatimDisk(_)) => {
                    assert(lead_of(scheme, path).verbatim);
                },
                Unit::Root => {
                    let dir = ctx.current_dir->Some_0;
                    assert(is_plain_drive(dir[0]));
                    assert(base.stack =~= drive_root(drive_letter_of(dir)->Some_0));
                },
                _ => {},
            }
        }
    }
    let rest = us.skip(base.used);
    assert forall|i: int| 0 <= i < rest.len() implies is_proper_unit(seps, #[trigger] rest[i]) by {
        assert(rest[i] == us[i + base.used]);
    }
    lemma_fold_plain(scheme, base.stack, rest);
}

/// Idempotence: where a path resolves to a plain path, the text of the
/// result resolves to the same result.
pub proof fn lemma_resolve_idempotent(scheme: Scheme, path: Seq<u8>, ctx: ContextView)
    requires
        resolved(scheme, lex(scheme, path), ctx) is Ok,
        is_plain(scheme, resolved(scheme, lex(scheme, path), ctx)->Ok_0),
    ensures
        resolved(
            scheme,
            lex(scheme, rendered(scheme, resolved(scheme, lex(scheme, path), ctx)->Ok_0)),
            ctx,
        ) == resolved(scheme, lex(scheme, path), ctx),
{
    let out = resolved(scheme, lex(scheme, path), ctx)->Ok_0;
    lemma_lex_rendered(scheme, out);
    lemma_self_anchored_is_fixed(scheme, out, ctx);
}

/// Idempotence, stated of what goes in: with plain directories in the
/// context, the text of what a path without a verbatim prefix resolves to
/// resolves to the same result.
pub proof fn lemma_resolve_idempotent_in_plain_context(
    scheme: Scheme,
    path: Seq<u8>,
    ctx: ContextView,
)
    requires
        is_plain_context(scheme, ctx),
        !lead_of(scheme, path).verbatim,
        resolved(scheme, lex(scheme, path), ctx) is Ok,
    ensures
        resolved(
            scheme,
            lex(scheme, rendered(scheme, resolved(scheme, lex(scheme, path), ctx)->Ok_0)),
            ctx,
        ) == resolved(scheme, lex(scheme, path), ctx),
{
    lemma_resolved_plain(scheme, path, ctx);
    lemma_resolve_idempotent(scheme, path, ctx);
}

/// What an executable result has to be for a resolved path.
pub open spec fn result_matches(
    r: Result<Vec<PathComponent>, ErrorKind>,
    expected: Result<Seq<Unit>, ErrorKind>,
) -> bool {
    match expected {
        Ok(us) => r matches Ok(got) && units(got@) == us,
        Err(kind) => r matches Err(e) && e == kind,
    }
}

/// Resolves a path that is given by its components.
///
/// The components have to be in the order in which a path can hold them: a
/// prefix first and nowhere else, a root first or right behind the prefix.
pub fn resolve_components(
    scheme: Scheme,
    components: &[PathComponent],
    ctx: &ResolutionContext,
) -> (r: Result<Vec<PathComponent>, ErrorKind>)
    requires
        is_sequenced(scheme, units(components@)),
    ensures
        result_matches(r, resolved(scheme, units(components@), ctx@)),
        ctx@.well_formed(scheme) ==> (r matches Ok(got) ==> is_absolute(scheme, units(got@))),
{
    let ghost us = units(components@);
    match resolve_root(scheme, components, ctx) {
        Err(kind) => Err(kind),
        Ok((stack, used)) => {
            let rest = vstd::slice::slice_subrange(components, used, components.len());
            proof {
                lemma_rest_relative(scheme, us, ctx@);
                assert(units(rest@) =~= us.skip(used as int));
            }
            let out = reduce(stack, rest);
            proof {
                if ctx@.well_formed(scheme) {
                    lemma_resolved_absolute(scheme, us, ctx@);
                }
            }
            Ok(out)
        },
    }
}

/// Resolves the absolute form of `path`: its components, anchored to an
/// absolute base and freed of `.` and `..`.
///
/// A path that is absolute already is still cleaned. A relative one is
/// taken from the current directory, or from a directory on the drive that
/// it names. Every error carries `path`.
pub fn resolve_path(scheme: Scheme, path: &[u8], ctx: &ResolutionContext) -> (r: Result<
    Vec<PathComponent>,
    Error,
>)
    ensures
        match resolved(scheme, lex(scheme, path@), ctx@) {
            Ok(us) => r matches Ok(got) && units(got@) == us,
            Err(kind) => r matches Err(e) && e.kind == kind && e.path@ == path@,
        },
        ctx@.well_formed(scheme) ==> (r matches Ok(got) ==> is_absolute(scheme, units(got@))),
{
    let components = classify(scheme, path);
    match resolve_components(scheme, components.as_slice(), ctx) {
        Ok(out) => Ok(out),
        Err(kind) => Err(Error { kind, path: copy_bytes(path) }),
    }
}

} // verus!
