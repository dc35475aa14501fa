//! One run of the program on an element that opens: which selectors match it,
//! and which compound selectors it makes due for the elements that follow.
//!
//! The run reads the element and four sets of places in the program that were
//! kept for its parent. It never looks at the ancestors or at the siblings
//! themselves: what it finds is proved to be what the selectors mean in the
//! whole tree.

use vstd::prelude::*;
use crate::selectors::matching::{
    active, compound_holds, compound_start, emits_at, eval_check, in_tree, is_test, lemma_active,
    lemma_frame, lemma_frame_last, matched, matched_last, matches_upto, matching_locators,
    same_up_to, test_passes, ElementInfo,
};
use crate::selectors::program::Instruction;

verus! {

/// The sets that are kept for an open element (or for the document): for each
/// place in the program, whether the compound selector that begins there is
/// due for the children of the element, for everything inside it, for its next
/// child, and for all its further children.
pub struct DueSets {
    pub child: Vec<bool>,
    pub descendant: Vec<bool>,
    pub next: Vec<bool>,
    pub later: Vec<bool>,
}

/// Whether the compound selector that begins at `pc`, behind `>`, is due for
/// the children of the element that owns the level `n`, which is the last
/// element of the level before: the compound selector before it matches that
/// element.
pub open spec fn child_due(
    program: Seq<Instruction>,
    pc: int,
    levels: Seq<Seq<ElementInfo>>,
    n: int,
) -> bool {
    1 <= pc <= program.len() && program[pc - 1] is Child && n >= 1 && matched_last(
        program,
        compound_start(program, pc - 1),
        levels,
        n - 1,
    )
}

/// Whether the compound selector that begins at `pc`, behind whitespace, is
/// due for everything inside the element that owns the level `n`: the compound
/// selector before it matches that element or an ancestor of it.
pub open spec fn descendant_due(
    program: Seq<Instruction>,
    pc: int,
    levels: Seq<Seq<ElementInfo>>,
    n: int,
) -> bool {
    1 <= pc <= program.len() && program[pc - 1] is Descendant && exists|a: int|
        0 <= a < n && #[trigger] matched_last(program, compound_start(program, pc - 1), levels, a)
}

/// Whether the compound selector that begins at `pc`, behind `+`, is due for
/// the next element of the level `n`: the compound selector before it matches
/// the last element of the level.
pub open spec fn next_due(
    program: Seq<Instruction>,
    pc: int,
    levels: Seq<Seq<ElementInfo>>,
    n: int,
) -> bool {
    1 <= pc <= program.len() && program[pc - 1] is Adjacent && matched_last(
        program,
        compound_start(program, pc - 1),
        levels,
        n,
    )
}

/// Whether the compound selector that begins at `pc`, behind `~`, is due for
/// the further elements of the level `n`: the compound selector before it
/// matches an element of the level.
pub open spec fn later_due(
    program: Seq<Instruction>,
    pc: int,
    levels: Seq<Seq<ElementInfo>>,
    n: int,
) -> bool {
    1 <= pc <= program.len() && program[pc - 1] is Sibling && 0 <= n < levels.len() && exists|
        b: int,
    |
        0 <= b < levels[n].len() && #[trigger] matched(
            program,
            compound_start(program, pc - 1),
            levels,
            n,
            b,
        )
}

/// Whether the sets are those of the element that owns the level `n`: they
/// say of every place in the program whether the compound selector there is
/// due.
pub open spec fn sets_of(
    program: Seq<Instruction>,
    sets: &DueSets,
    levels: Seq<Seq<ElementInfo>>,
    n: int,
) -> bool {
    &&& sets.child@.len() == program.len() + 1
    &&& sets.descendant@.len() == program.len() + 1
    &&& sets.next@.len() == program.len() + 1
    &&& sets.later@.len() == program.len() + 1
    &&& forall|p: int|
        0 <= p <= program.len() ==> (#[trigger] sets.child@[p]) == child_due(program, p, levels, n)
    &&& forall|p: int|
        0 <= p <= program.len() ==> (#[trigger] sets.descendant@[p]) == descendant_due(
            program,
            p,
            levels,
            n,
        )
    &&& forall|p: int|
        0 <= p <= program.len() ==> (#[trigger] sets.next@[p]) == next_due(program, p, levels, n)
    &&& forall|p: int|
        0 <= p <= program.len() ==> (#[trigger] sets.later@[p]) == later_due(program, p, levels, n)
}

/// Whether a compound selector can begin at `pc`: no test stands before it.
pub open spec fn begins_compound(program: Seq<Instruction>, pc: int) -> bool {
    0 <= pc <= program.len() && !is_test(program, pc - 1)
}

/// The tree with one more element at the end of its last level.
pub open spec fn with_element(levels: Seq<Seq<ElementInfo>>, e: ElementInfo) -> Seq<
    Seq<ElementInfo>,
> {
    levels.update(levels.len() - 1, levels[levels.len() - 1].push(e))
}

/// The tree with one more level, which is empty: the last element of the last
/// level has opened.
pub open spec fn with_level(levels: Seq<Seq<ElementInfo>>) -> Seq<Seq<ElementInfo>> {
    levels.push(Seq::empty())
}

/// A compound selector begins at or before the place for which it is asked.
pub proof fn lemma_compound_start_bounds(program: Seq<Instruction>, i: int)
    requires
        0 <= i,
    ensures
        0 <= compound_start(program, i) <= i,
    decreases i,
{
    if i >= 1 && is_test(program, i - 1) {
        lemma_compound_start_bounds(program, i - 1);
    }
}

/// Where tests stand from `q` up to `end`, and a compound selector begins at
/// `q`, the compound selector before `end` begins at `q`.
pub proof fn lemma_compound_start(program: Seq<Instruction>, q: int, end: int)
    requires
        begins_compound(program, q),
        q <= end <= program.len(),
        forall|k: int| q <= k < end ==> is_test(program, k),
    ensures
        compound_start(program, end) == q,
    decreases end - q,
{
    if end > q {
        assert(is_test(program, end - 1));
        lemma_compound_start(program, q, end - 1);
    }
}

/// What was true of the elements of the tree stays true when an element is
/// added at the end of the last level.
pub proof fn lemma_old_places(
    program: Seq<Instruction>,
    q: int,
    levels: Seq<Seq<ElementInfo>>,
    e: ElementInfo,
)
    requires
        levels.len() >= 1,
    ensures
        forall|a: int|
            0 <= a < levels.len() - 1 ==> #[trigger] matched_last(
                program,
                q,
                with_element(levels, e),
                a,
            ) == matched_last(program, q, levels, a),
        forall|b: int|
            0 <= b < levels[levels.len() - 1].len() ==> #[trigger] matched(
                program,
                q,
                with_element(levels, e),
                levels.len() - 1,
                b,
            ) == matched(program, q, levels, levels.len() - 1, b),
{
    let n = levels.len() - 1;
    let after = with_element(levels, e);
    assert forall|a: int| 0 <= a < n implies #[trigger] matched_last(program, q, after, a)
        == matched_last(program, q, levels, a) by {
        lemma_frame_last(program, q, after, levels, n, a);
    }
    assert forall|b: int| 0 <= b < levels[n].len() implies #[trigger] matched(
        program,
        q,
        after,
        n,
        b,
    ) == matched(program, q, levels, n, b) by {
        assert(after[n].take(b + 1) =~= levels[n].take(b + 1));
        lemma_frame(program, q, after, levels, n, b);
    }
}

/// A compound selector is due for a new element if it begins a selector, or was
/// due for the children of the parent, for everything inside the parent, for
/// the next child of the parent or for its further children.
pub proof fn lemma_active_step(
    program: Seq<Instruction>,
    pc: int,
    levels: Seq<Seq<ElementInfo>>,
    e: ElementInfo,
)
    requires
        begins_compound(program, pc),
        levels.len() >= 1,
    ensures
        active(
            program,
            pc,
            with_element(levels, e),
            levels.len() - 1,
            levels[levels.len() - 1].len() as int,
        ) == (pc == 0 || program[pc - 1] is Emit || child_due(
            program,
            pc,
            levels,
            levels.len() - 1,
        ) || descendant_due(program, pc, levels, levels.len() - 1) || next_due(
            program,
            pc,
            levels,
            levels.len() - 1,
        ) || later_due(program, pc, levels, levels.len() - 1)),
{
    let n = levels.len() - 1;
    let k = levels[n].len() as int;
    let after = with_element(levels, e);
    if pc >= 1 {
        let q = compound_start(program, pc - 1);
        lemma_compound_start_bounds(program, pc - 1);
        lemma_old_places(program, q, levels, e);
        lemma_active(program, pc, after, n, k);
        match program[pc - 1] {
            Instruction::Descendant => {
                if exists|a: int| 0 <= a < n && #[trigger] matched_last(program, q, after, a) {
                    let a = choose|a: int|
                        0 <= a < n && #[trigger] matched_last(program, q, after, a);
                    assert(matched_last(program, q, levels, a));
                }
                if descendant_due(program, pc, levels, n) {
                    let a = choose|a: int|
                        0 <= a < n && #[trigger] matched_last(program, q, levels, a);
                    assert(matched_last(program, q, after, a));
                }
            },
            Instruction::Sibling => {
                if exists|b: int| 0 <= b < k && #[trigger] matched(program, q, after, n, b) {
                    let b = choose|b: int| 0 <= b < k
                        && #[trigger] matched(program, q, after, n, b);
                    assert(matched(program, q, levels, n, b));
                }
                if later_due(program, pc, levels, n) {
                    let b = choose|b: int|
                        0 <= b < levels[n].len() && #[trigger] matched(program, q, levels, n, b);
                    assert(matched(program, q, after, n, b));
                }
            },
            Instruction::Adjacent => {
                if k >= 1 {
                    assert(matched(program, q, after, n, k - 1) == matched(
                        program,
                        q,
                        levels,
                        n,
                        k - 1,
                    ));
                }
            },
            _ => {},
        }
    }
}

/// What the sets of the parent are when a new element has been added to its
/// children: the new element takes the place of the child before it, and is
/// one more of the children.
pub proof fn lemma_parent_step(
    program: Seq<Instruction>,
    pc: int,
    levels: Seq<Seq<ElementInfo>>,
    e: ElementInfo,
)
    requires
        levels.len() >= 1,
        1 <= pc <= program.len(),
    ensures
        ({
            let n = levels.len() - 1;
            let after = with_element(levels, e);
            let here = matched(program, compound_start(program, pc - 1), after, n, levels[n].len() as int);
            &&& child_due(program, pc, after, n) == child_due(program, pc, levels, n)
            &&& descendant_due(program, pc, after, n) == descendant_due(program, pc, levels, n)
            &&& next_due(program, pc, after, n) == (program[pc - 1] is Adjacent && here)
            &&& later_due(program, pc, after, n) == (program[pc - 1] is Sibling && (later_due(
                program,
                pc,
                levels,
                n,
            ) || here))
        }),
{
    let n = levels.len() - 1;
    let k = levels[n].len() as int;
    let after = with_element(levels, e);
    let q = compound_start(program, pc - 1);
    lemma_old_places(program, q, levels, e);
    if descendant_due(program, pc, after, n) {
        let a = choose|a: int| 0 <= a < n && #[trigger] matched_last(program, q, after, a);
        assert(matched_last(program, q, levels, a));
    }
    if descendant_due(program, pc, levels, n) {
        let a = choose|a: int| 0 <= a < n && #[trigger] matched_last(program, q, levels, a);
        assert(matched_last(program, q, after, a));
    }
    if later_due(program, pc, after, n) {
        let b = choose|b: int| 0 <= b < after[n].len()
            && #[trigger] matched(program, q, after, n, b);
        if b < k {
            assert(matched(program, q, levels, n, b));
        }
    }
    if later_due(program, pc, levels, n) {
        let b = choose|b: int|
            0 <= b < levels[n].len() && #[trigger] matched(program, q, levels, n, b);
        assert(matched(program, q, after, n, b));
    }
    if program[pc - 1] is Sibling && matched(program, q, after, n, k) {
        assert(later_due(program, pc, after, n));
    }
}

/// What the sets of a new element are when it has opened: it has no children
/// yet, and what was due inside its parent is due inside it.
pub proof fn lemma_own_step(
    program: Seq<Instruction>,
    pc: int,
    levels: Seq<Seq<ElementInfo>>,
    e: ElementInfo,
)
    requires
        levels.len() >= 1,
        1 <= pc <= program.len(),
    ensures
        ({
            let n = levels.len() - 1;
            let after = with_element(levels, e);
            let top = with_level(after);
            let here = matched(program, compound_start(program, pc - 1), after, n, levels[n].len() as int);
            &&& child_due(program, pc, top, n + 1) == (program[pc - 1] is Child && here)
            &&& descendant_due(program, pc, top, n + 1) == (program[pc - 1] is Descendant && (
            descendant_due(program, pc, levels, n) || here))
            &&& !next_due(program, pc, top, n + 1)
            &&& !later_due(program, pc, top, n + 1)
        }),
{
    let n = levels.len() - 1;
    let k = levels[n].len() as int;
    let after = with_element(levels, e);
    let top = with_level(after);
    let q = compound_start(program, pc - 1);
    lemma_old_places(program, q, levels, e);
    assert(top[n].take(k + 1) =~= after[n].take(k + 1));
    lemma_frame(program, q, top, after, n, k);
    assert forall|a: int| 0 <= a < n implies #[trigger] matched_last(program, q, top, a)
        == matched_last(program, q, levels, a) by {
        lemma_frame_last(program, q, top, levels, n, a);
    }
    if descendant_due(program, pc, top, n + 1) {
        let a = choose|a: int| 0 <= a < n + 1 && #[trigger] matched_last(program, q, top, a);
        if a < n {
            assert(matched_last(program, q, levels, a));
        }
    }
    if descendant_due(program, pc, levels, n) {
        let a = choose|a: int| 0 <= a < n && #[trigger] matched_last(program, q, levels, a);
        assert(matched_last(program, q, top, a));
    }
    if program[pc - 1] is Descendant && matched(program, q, after, n, k) {
        assert(matched_last(program, q, top, n));
    }
}

/// What a run gives: the locators of the selectors that match the element, the
/// sets of the element, and the sets of its parent as they are with the
/// element among its children.
pub struct RunOutcome {
    pub matched: Vec<usize>,
    pub own: DueSets,
    pub parent: DueSets,
}

fn copy_of(set: &Vec<bool>) -> (r: Vec<bool>)
    ensures
        r@ == set@,
{
    let mut copy: Vec<bool> = Vec::new();
    let mut i: usize = 0;
    while i < set.len()
        invariant
            i <= set@.len(),
            copy@ == set@.subrange(0, i as int),
        decreases set@.len() - i,
    {
        copy.push(set[i]);
        i = i + 1;
        assert(copy@ =~= set@.subrange(0, i as int));
    }
    assert(set@.subrange(0, i as int) =~= set@);
    copy
}

fn none_of(len: usize) -> (r: Vec<bool>)
    ensures
        r@.len() == len,
        forall|i: int| 0 <= i < len ==> !(#[trigger] r@[i]),
{
    let mut set: Vec<bool> = Vec::new();
    let mut i: usize = 0;
    while i < len
        invariant
            i <= len,
            set@.len() == i,
            forall|j: int| 0 <= j < i ==> !(#[trigger] set@[j]),
        decreases len - i,
    {
        set.push(false);
        i = i + 1;
    }
    set
}

/// The sets of the document before any element was read.
pub fn empty_sets(program: &Vec<Instruction>) -> (r: DueSets)
    requires
        program@.len() < usize::MAX,
    ensures
        sets_of(program@, &r, seq![Seq::<ElementInfo>::empty()], 0),
{
    let len: usize = program.len() + 1;
    DueSets { child: none_of(len), descendant: none_of(len), next: none_of(len), later: none_of(len) }
}

/// Runs the program on the element `e`, which is added to the last level of
/// the tree `levels`; `parent` holds the sets of the element that owns that
/// level.
pub(crate) fn run_program(
    program: &Vec<Instruction>,
    parent: &DueSets,
    e: &ElementInfo,
    Ghost(levels): Ghost<Seq<Seq<ElementInfo>>>,
) -> (r: RunOutcome)
    requires
        levels.len() >= 1,
        program@.len() < usize::MAX,
        sets_of(program@, parent, levels, levels.len() - 1),
    ensures
        r.matched@ == matching_locators(
            program@,
            with_element(levels, *e),
            levels.len() - 1,
            levels[levels.len() - 1].len() as int,
        ),
        sets_of(program@, &r.parent, with_element(levels, *e), levels.len() - 1),
        sets_of(program@, &r.own, with_level(with_element(levels, *e)), levels.len() as int),
{
    let n: usize = program.len();
    let ghost d = levels.len() - 1;
    let ghost k = levels[d].len() as int;
    let ghost after = with_element(levels, *e);
    let ghost top = with_level(after);
    let mut matched_locators: Vec<usize> = Vec::new();
    let mut child: Vec<bool> = none_of(n + 1);
    let mut descendant: Vec<bool> = copy_of(&parent.descendant);
    let mut next: Vec<bool> = none_of(n + 1);
    let mut later: Vec<bool> = copy_of(&parent.later);
    let mut pc: usize = 0;
    let mut done: bool = false;
    while !done
        invariant
            n == program@.len(),
            n < usize::MAX,
            levels.len() >= 1,
            d == levels.len() - 1,
            k == levels[d].len(),
            after == with_element(levels, *e),
            top == with_level(after),
            sets_of(program@, parent, levels, d),
            pc <= n,
            !done ==> begins_compound(program@, pc as int),
            done ==> pc == n,
            matched_locators@ == matches_upto(program@, after, d, k, pc as int),
            child@.len() == n + 1,
            descendant@.len() == n + 1,
            next@.len() == n + 1,
            later@.len() == n + 1,
            forall|p: int|
                0 <= p <= pc ==> (#[trigger] child@[p]) == child_due(program@, p, top, d + 1),
            forall|p: int|
                0 <= p <= pc ==> (#[trigger] descendant@[p]) == descendant_due(
                    program@,
                    p,
                    top,
                    d + 1,
                ),
            forall|p: int| 0 <= p <= pc
                ==> (#[trigger] next@[p]) == next_due(program@, p, after, d),
            forall|p: int| 0 <= p <= pc
                ==> (#[trigger] later@[p]) == later_due(program@, p, after, d),
            forall|p: int| pc < p <= n ==> !(#[trigger] child@[p]),
            forall|p: int| pc < p <= n ==> (#[trigger] descendant@[p]) == parent.descendant@[p],
            forall|p: int| pc < p <= n ==> !(#[trigger] next@[p]),
            forall|p: int| pc < p <= n ==> (#[trigger] later@[p]) == parent.later@[p],
        decreases n - pc + (if done { 0int } else { 1int }),
    {
        proof {
            lemma_active_step(program@, pc as int, levels, *e);
        }
        let due = pc == 0 || matches!(program[pc - 1], Instruction::Emit(_)) || parent.child[pc]
            || parent.descendant[pc] || parent.next[pc] || parent.later[pc];
        assert(due == active(program@, pc as int, after, d, k));
        let mut holds: bool = true;
        let mut i: usize = pc;
        while i < n && matches!(program[i], Instruction::Test { .. })
            invariant
                n == program@.len(),
                pc <= i <= n,
                forall|t: int| pc <= t < i ==> is_test(program@, t),
                compound_holds(program@, pc as int, e) == (holds && compound_holds(
                    program@,
                    i as int,
                    e,
                )),
                matched_locators@ == matches_upto(program@, after, d, k, i as int),
            decreases n - i,
        {
            match &program[i] {
                Instruction::Test { negated, check } => {
                    let passes = eval_check(check, e) != *negated;
                    assert(passes == test_passes(program@, i as int, e));
                    holds = holds && passes;
                },
                _ => {},
            }
            i = i + 1;
        }
        let end: usize = i;
        proof {
            lemma_compound_start(program@, pc as int, end as int);
            assert forall|p: int| pc < p <= end implies !#[trigger] child_due(
                program@,
                p,
                top,
                d + 1,
            ) by {
                assert(is_test(program@, p - 1));
            }
            assert forall|p: int| pc < p <= end implies !#[trigger] next_due(program@, p, after, d) by {
                assert(is_test(program@, p - 1));
            }
            assert forall|p: int| pc < p <= end implies !#[trigger] descendant_due(
                program@,
                p,
                top,
                d + 1,
            ) && !descendant_due(program@, p, levels, d) by {
                assert(is_test(program@, p - 1));
            }
            assert forall|p: int| pc < p <= end implies !#[trigger] later_due(program@, p, after, d)
                && !later_due(program@, p, levels, d) by {
                assert(is_test(program@, p - 1));
            }
            assert forall|p: int| pc < p <= end implies (#[trigger] descendant@[p])
                == descendant_due(program@, p, top, d + 1) by {
                assert(parent.descendant@[p] == descendant_due(program@, p, levels, d));
            }
            assert forall|p: int| pc < p <= end implies (#[trigger] later@[p]) == later_due(
                program@,
                p,
                after,
                d,
            ) by {
                assert(parent.later@[p] == later_due(program@, p, levels, d));
            }
        }
        if end >= n {
            pc = n;
            done = true;
        } else {
            let is_match = due && holds;
            assert(after[d][k] == *e);
            assert(is_match == matched(program@, pc as int, after, d, k));
            let next_pc: usize = end + 1;
            proof {
                assert(parent.descendant@[next_pc as int] == descendant_due(
                    program@,
                    next_pc as int,
                    levels,
                    d,
                ));
                assert(parent.later@[next_pc as int] == later_due(
                    program@,
                    next_pc as int,
                    levels,
                    d,
                ));
                assert(!is_test(program@, end as int));
                lemma_parent_step(program@, next_pc as int, levels, *e);
                lemma_own_step(program@, next_pc as int, levels, *e);
            }
            match &program[end] {
                Instruction::Emit(locator) => {
                    let fresh = matched_locators.len() == 0 || matched_locators[
                        matched_locators.len() - 1] != *locator;
                    if is_match && end > pc && fresh {
                        matched_locators.push(*locator);
                    }
                },
                Instruction::Child => {
                    child.set(next_pc, is_match);
                },
                Instruction::Descendant => {
                    let before = descendant[next_pc];
                    descendant.set(next_pc, before || is_match);
                },
                Instruction::Adjacent => {
                    next.set(next_pc, is_match);
                },
                Instruction::Sibling => {
                    let before = later[next_pc];
                    later.set(next_pc, before || is_match);
                },
                Instruction::Test { .. } => {},
            }
            pc = next_pc;
        }
    }
    let parent_child = copy_of(&parent.child);
    let parent_descendant = copy_of(&parent.descendant);
    let own_next = none_of(n + 1);
    let own_later = none_of(n + 1);
    proof {
        assert forall|p: int| 0 <= p <= n implies (#[trigger] parent_child@[p]) == child_due(
            program@,
            p,
            after,
            d,
        ) by {
            assert(parent.child@[p] == child_due(program@, p, levels, d));
            if p >= 1 {
                lemma_parent_step(program@, p, levels, *e);
            }
        }
        assert forall|p: int| 0 <= p <= n implies (#[trigger] parent_descendant@[p])
            == descendant_due(program@, p, after, d) by {
            assert(parent.descendant@[p] == descendant_due(program@, p, levels, d));
            if p >= 1 {
                lemma_parent_step(program@, p, levels, *e);
            }
        }
        assert forall|p: int| 0 <= p <= n implies (#[trigger] own_next@[p]) == next_due(
            program@,
            p,
            top,
            d + 1,
        ) by {
            if p >= 1 {
                lemma_own_step(program@, p, levels, *e);
            }
        }
        assert forall|p: int| 0 <= p <= n implies (#[trigger] own_later@[p]) == later_due(
            program@,
            p,
            top,
            d + 1,
        ) by {
            if p >= 1 {
                lemma_own_step(program@, p, levels, *e);
            }
        }
    }
    RunOutcome {
        matched: matched_locators,
        own: DueSets { child, descendant, next: own_next, later: own_later },
        parent: DueSets { child: parent_child, descendant: parent_descendant, next, later },
    }
}

} // verus!
