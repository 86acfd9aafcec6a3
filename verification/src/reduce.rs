//! Folding the units of a path onto a stack.

use crate::component::{
    all_relative, anchor_len, is_absolute, is_relative, units, PathComponent, Scheme, Unit,
};
use vstd::prelude::*;

verus! {

/// The resolved path built so far, from the root outward.
///
/// Once it is seeded with an absolute base it stays absolute: it begins
/// with the units that establish the root, and no `..` takes them off.
pub type ComponentStack = Vec<PathComponent>;

/// The stack after one unit: a named segment is pushed, `.` changes
/// nothing, and `..` takes the last unit off unless that is a root (or the
/// stack is empty). Prefixes and roots do not occur behind the anchor of a
/// path and change nothing.
pub open spec fn step(stack: Seq<Unit>, u: Unit) -> Seq<Unit> {
    match u {
        Unit::Named(_) => stack.push(u),
        Unit::ParentDir => if stack.len() > 0 && !(stack.last() is Root) {
            stack.drop_last()
        } else {
            stack
        },
        _ => stack,
    }
}

/// The stack after the units of `rest`, taken from left to right.
pub open spec fn fold(stack: Seq<Unit>, rest: Seq<Unit>) -> Seq<Unit>
    decreases rest.len(),
{
    if rest.len() == 0 {
        stack
    } else {
        step(fold(stack, rest.drop_last()), rest.last())
    }
}

/// One unit leaves an absolute path absolute.
pub proof fn lemma_step_absolute(scheme: Scheme, stack: Seq<Unit>, u: Unit)
    requires
        is_absolute(scheme, stack),
    ensures
        is_absolute(scheme, step(stack, u)),
{
}

/// Applies one unit to the stack.
pub fn apply(stack: &mut ComponentStack, unit: &PathComponent)
    requires
        is_relative(unit@),
    ensures
        units(final(stack)@) == step(units(old(stack)@), unit@),
        forall|scheme: Scheme|
            is_absolute(scheme, units(old(stack)@)) ==> #[trigger] is_absolute(
                scheme,
                units(final(stack)@),
            ),
{
    let ghost before = units(stack@);
    match unit {
        PathComponent::NamedSegment(_) => {
            stack.push(unit.clone());
            assert(units(stack@) =~= before.push(unit@));
        },
        PathComponent::ParentDirMarker => {
            let n: usize = stack.len();
            if n > 0 && !stack[n - 1].is_root() {
                stack.pop();
                assert(units(stack@) =~= before.drop_last());
            }
        },
        _ => {},
    }
    assert forall|scheme: Scheme| is_absolute(scheme, before) implies #[trigger] is_absolute(
        scheme,
        units(stack@),
    ) by {
        lemma_step_absolute(scheme, before, unit@);
    }
}

/// Folds `rest` onto `stack`, from left to right.
pub fn reduce(stack: ComponentStack, rest: &[PathComponent]) -> (r: ComponentStack)
    requires
        all_relative(units(rest@)),
    ensures
        units(r@) == fold(units(stack@), units(rest@)),
        forall|scheme: Scheme|
            is_absolute(scheme, units(stack@)) ==> #[trigger] is_absolute(scheme, units(r@)),
        forall|k: int|
            0 <= k < stack@.len() && (#[trigger] units(stack@)[k]) is Root ==> units(r@).len() > k
                && units(r@).take(k + 1) == units(stack@).take(k + 1),
{
    let ghost start = units(stack@);
    let ghost us = units(rest@);
    let mut stack = stack;
    let mut i: usize = 0;
    assert(us.take(0) =~= Seq::<Unit>::empty());
    while i < rest.len()
        invariant
            i <= rest.len(),
            us == units(rest@),
            all_relative(us),
            units(stack@) == fold(start, us.take(i as int)),
        decreases rest.len() - i,
    {
        assert(is_relative(us[i as int]));
        apply(&mut stack, &rest[i]);
        proof {
            assert(us.take(i + 1).drop_last() =~= us.take(i as int));
            assert(us.take(i + 1).last() == us[i as int]);
        }
        i = i + 1;
    }
    proof {
        assert(us.take(rest@.len() as int) =~= us);
        assert forall|scheme: Scheme| is_absolute(scheme, start) implies #[trigger] is_absolute(
            scheme,
            units(stack@),
        ) by {
            lemma_fold_absolute(scheme, start, us);
        }
        assert forall|k: int| 0 <= k < start.len() && (#[trigger] start[k]) is Root implies units(
            stack@,
        ).len() > k && units(stack@).take(k + 1) == start.take(k + 1) by {
            lemma_fold_keeps_root(start, us, k);
        }
    }
    stack
}

/// A root on the stack is a floor: whatever is folded onto the stack, the
/// units up to and including that root stay as they are.
pub proof fn lemma_fold_keeps_root(stack: Seq<Unit>, rest: Seq<Unit>, k: int)
    requires
        0 <= k < stack.len(),
        stack[k] is Root,
    ensures
        fold(stack, rest).len() > k,
        fold(stack, rest).take(k + 1) == stack.take(k + 1),
    decreases rest.len(),
{
    if rest.len() > 0 {
        let before = fold(stack, rest.drop_last());
        lemma_fold_keeps_root(stack, rest.drop_last(), k);
        assert(before[k] == before.take(k + 1)[k]);
        assert(step(before, rest.last()).take(k + 1) =~= before.take(k + 1));
    }
}

/// Parent markers alone never take anything off a stack that ends in a
/// root.
pub proof fn lemma_parent_of_root_is_root(stack: Seq<Unit>, rest: Seq<Unit>)
    requires
        stack.len() > 0,
        stack.last() is Root,
        forall|i: int| 0 <= i < rest.len() ==> (#[trigger] rest[i]) is ParentDir,
    ensures
        fold(stack, rest) == stack,
    decreases rest.len(),
{
    if rest.len() > 0 {
        lemma_parent_of_root_is_root(stack, rest.drop_last());
    }
}

/// Folding onto an absolute path gives an absolute path: the anchor stays,
/// and behind it stand named segments only.
pub proof fn lemma_fold_absolute(scheme: Scheme, stack: Seq<Unit>, rest: Seq<Unit>)
    requires
        is_absolute(scheme, stack),
    ensures
        is_absolute(scheme, fold(stack, rest)),
        fold(stack, rest).take(anchor_len(scheme)) == stack.take(anchor_len(scheme)),
    decreases rest.len(),
{
    lemma_fold_keeps_root(stack, rest, anchor_len(scheme) - 1);
    if rest.len() > 0 {
        let before = fold(stack, rest.drop_last());
        lemma_fold_absolute(scheme, stack, rest.drop_last());
        lemma_fold_keeps_root(stack, rest.drop_last(), anchor_len(scheme) - 1);
        assert(before.take(anchor_len(scheme))[anchor_len(scheme) - 1] == before[anchor_len(scheme)
            - 1]);
    } else {
        assert(stack.take(anchor_len(scheme))[anchor_len(scheme) - 1] == stack[anchor_len(scheme)
            - 1]);
    }
}

/// Folding named segments pushes them all.
pub proof fn lemma_fold_named(stack: Seq<Unit>, rest: Seq<Unit>)
    requires
        forall|i: int| 0 <= i < rest.len() ==> (#[trigger] rest[i]) is Named,
    ensures
        fold(stack, rest) == stack + rest,
    decreases rest.len(),
{
    if rest.len() > 0 {
        lemma_fold_named(stack, rest.drop_last());
        assert(stack + rest =~= (stack + rest.drop_last()).push(rest.last()));
    } else {
        assert(stack + rest =~= stack);
    }
}

} // verus!
