//! What it means for a program to match an element, and the evaluation of the
//! tests of the program on one element.

use vstd::prelude::*;
use vstd::string::StringSliceAdditionalSpecFns;
use crate::html::Namespace;
use crate::html_content::element::{find_attribute_in, find_in, pairs, Attribute};
use crate::selectors::parser::AttributeOperator;
use crate::selectors::program::{Check, Instruction};
use crate::tokenizer::chars::{
    is_whitespace, is_whitespace_byte, lower_seq, lowered, same_bytes, same_ignoring_case,
};

verus! {

/// What the tests of a selector can see of an element.
pub struct ElementInfo {
    /// The name, as the start tag writes it.
    pub name: Vec<u8>,
    /// The namespace.
    pub namespace: Namespace,
    /// The attributes, the first of each name.
    pub attributes: Vec<Attribute>,
    /// The place of the element among the elements of its parent, from 1.
    pub child_index: usize,
    /// The place of the element among the elements of its parent that have
    /// its name, from 1.
    pub type_index: usize,
}

/// Whether `part` stands in `all` at the place `i`.
pub open spec fn occurs_at(all: Seq<u8>, part: Seq<u8>, i: int) -> bool {
    0 <= i && i + part.len() <= all.len() && all.subrange(i, i + part.len()) == part
}

/// Whether `all` begins with `part`.
pub open spec fn starts_with(all: Seq<u8>, part: Seq<u8>) -> bool {
    occurs_at(all, part, 0)
}

/// Whether `all` ends with `part`.
pub open spec fn ends_with(all: Seq<u8>, part: Seq<u8>) -> bool {
    occurs_at(all, part, all.len() - part.len())
}

/// Whether `part` stands somewhere in `all`.
pub open spec fn contains(all: Seq<u8>, part: Seq<u8>) -> bool {
    exists|i: int| occurs_at(all, part, i)
}

/// Whether `word` stands in `list` at the place `i` with whitespace or an end
/// of the list on both sides.
pub open spec fn word_at(list: Seq<u8>, word: Seq<u8>, i: int) -> bool {
    &&& occurs_at(list, word, i)
    &&& (i == 0 || is_whitespace(list[i - 1]))
    &&& (i + word.len() == list.len() || is_whitespace(list[i + word.len()]))
}

/// Whether a byte of `word` is whitespace.
pub open spec fn has_space(word: Seq<u8>) -> bool {
    exists|k: int| 0 <= k < word.len() && is_whitespace(#[trigger] word[k])
}

/// Whether `word` is one of the words of `list`, which whitespace separates.
/// Nothing that is empty or holds whitespace is a word.
pub open spec fn has_word(list: Seq<u8>, word: Seq<u8>) -> bool {
    word.len() > 0 && !has_space(word) && exists|i: int| word_at(list, word, i)
}

/// Whether the value stands to the operand as the operator says.
pub open spec fn operator_holds(operator: AttributeOperator, value: Seq<u8>, operand: Seq<u8>) -> bool {
    match operator {
        AttributeOperator::Exists => true,
        AttributeOperator::Equals => value == operand,
        AttributeOperator::Includes => has_word(value, operand),
        AttributeOperator::DashMatch => value == operand || starts_with(value, operand.push(0x2D)),
        AttributeOperator::Prefix => operand.len() > 0 && starts_with(value, operand),
        AttributeOperator::Suffix => operand.len() > 0 && ends_with(value, operand),
        AttributeOperator::Substring => operand.len() > 0 && contains(value, operand),
    }
}

/// Whether the place `index` among siblings is `a * n + b` for some `n` that is
/// not negative.
pub open spec fn nth_holds(a: i32, b: i32, index: usize) -> bool {
    let d: int = index - b;
    if a == 0 {
        d == 0
    } else if a > 0 {
        d >= 0 && d % (a as int) == 0
    } else {
        d <= 0 && (-d) % (-(a as int)) == 0
    }
}

/// The value of the first attribute of the element with the given name. The
/// case of letters in the name is set aside in HTML elements, and counts in
/// foreign elements.
pub open spec fn attribute_value(e: &ElementInfo, name: Seq<u8>) -> Option<Seq<u8>> {
    match find_in(e.namespace, pairs(e.attributes@), name) {
        Some(i) => Some(pairs(e.attributes@)[i].1),
        None => None,
    }
}

/// Whether the check holds of the element.
///
/// Names of elements and of attributes are told apart by case in foreign
/// content only; values always, unless the selector says `i`.
pub open spec fn check_holds(check: &Check, e: &ElementInfo) -> bool {
    match check {
        Check::Any => true,
        Check::Never => false,
        Check::LocalName(n) => if e.namespace == Namespace::Html {
            lower_seq(e.name@) == lower_seq(n@)
        } else {
            e.name@ == n@
        },
        Check::Id(v) => attribute_value(e, "id".spec_bytes()) == Some(v@),
        Check::Class(v) => match attribute_value(e, "class".spec_bytes()) {
            Some(list) => has_word(list, v@),
            None => false,
        },
        Check::Attribute { name, operator, value, ignore_case } => match attribute_value(e, name@) {
            Some(found) => if *ignore_case {
                operator_holds(*operator, lower_seq(found), lower_seq(value@))
            } else {
                operator_holds(*operator, found, value@)
            },
            None => false,
        },
        Check::Nth { a, b, of_type } => nth_holds(
            *a,
            *b,
            if *of_type {
                e.type_index
            } else {
                e.child_index
            },
        ),
    }
}

/// Whether the instruction at the place `i` is a test.
pub open spec fn is_test(program: Seq<Instruction>, i: int) -> bool {
    0 <= i < program.len() && program[i] is Test
}

/// Whether the test at the place `i` passes on the element.
pub open spec fn test_passes(program: Seq<Instruction>, i: int, e: &ElementInfo) -> bool {
    match program[i] {
        Instruction::Test { negated, check } => check_holds(&check, e) != negated,
        _ => true,
    }
}

/// The place where the compound selector begins whose tests stand before the
/// place `i`.
pub open spec fn compound_start(program: Seq<Instruction>, i: int) -> int
    decreases i,
{
    if i >= 1 && is_test(program, i - 1) {
        compound_start(program, i - 1)
    } else {
        i
    }
}

/// Whether every test from `pc` on to the end of its compound selector passes
/// on the element.
pub open spec fn compound_holds(program: Seq<Instruction>, pc: int, e: &ElementInfo) -> bool
    decreases program.len() - pc,
{
    if is_test(program, pc) {
        test_passes(program, pc, e) && compound_holds(program, pc + 1, e)
    } else {
        true
    }
}

/// Whether the tree has an element at the place `k` of the level `d`.
///
/// A tree lists, level by level, the elements that were read and still count:
/// the level `0` holds the outermost elements, and each further level holds the
/// children, in the order of the document, of the last element of the level
/// before, which is open.
pub open spec fn in_tree(levels: Seq<Seq<ElementInfo>>, d: int, k: int) -> bool {
    0 <= d < levels.len() && 0 <= k < levels[d].len()
}

/// Whether the compound selector that begins at `pc` may match the element at
/// the place `k` of the level `d`: it begins a selector, or the compound
/// selector before it matches the parent (behind `>`), an ancestor (behind
/// whitespace), the sibling just before (behind `+`) or a sibling before
/// (behind `~`).
pub open spec fn active(
    program: Seq<Instruction>,
    pc: int,
    levels: Seq<Seq<ElementInfo>>,
    d: int,
    k: int,
) -> bool
    decreases pc,
{
    if !in_tree(levels, d, k) || pc < 0 || pc > program.len() {
        false
    } else if pc == 0 {
        true
    } else {
        let q = compound_start(program, pc - 1);
        match program[pc - 1] {
            Instruction::Emit(_) => true,
            Instruction::Test { .. } => false,
            Instruction::Child => 0 <= q < pc && d >= 1 && levels[d - 1].len() >= 1 && active(
                program,
                q,
                levels,
                d - 1,
                levels[d - 1].len() - 1,
            ) && compound_holds(program, q, &levels[d - 1][levels[d - 1].len() - 1]),
            Instruction::Descendant => 0 <= q < pc && exists|a: int|
                0 <= a < d && (#[trigger] levels[a]).len() >= 1 && active(
                    program,
                    q,
                    levels,
                    a,
                    levels[a].len() - 1,
                ) && compound_holds(program, q, &levels[a][levels[a].len() - 1]),
            Instruction::Adjacent => 0 <= q < pc && k >= 1 && active(program, q, levels, d, k - 1)
                && compound_holds(program, q, &levels[d][k - 1]),
            Instruction::Sibling => 0 <= q < pc && exists|b: int|
                0 <= b < k && #[trigger] in_tree(levels, d, b) && active(program, q, levels, d, b)
                    && compound_holds(program, q, &levels[d][b]),
        }
    }
}

/// Whether the compound selector that begins at `pc` matches the element at
/// the place `k` of the level `d`.
pub open spec fn matched(
    program: Seq<Instruction>,
    pc: int,
    levels: Seq<Seq<ElementInfo>>,
    d: int,
    k: int,
) -> bool {
    in_tree(levels, d, k) && active(program, pc, levels, d, k) && compound_holds(
        program,
        pc,
        &levels[d][k],
    )
}

/// Whether the compound selector that begins at `pc` matches the last element
/// of the level `d`.
pub open spec fn matched_last(
    program: Seq<Instruction>,
    pc: int,
    levels: Seq<Seq<ElementInfo>>,
    d: int,
) -> bool {
    0 <= d < levels.len() && levels[d].len() >= 1 && matched(
        program,
        pc,
        levels,
        d,
        levels[d].len() - 1,
    )
}

/// What [`active`] says, in the words of [`matched`].
pub proof fn lemma_active(
    program: Seq<Instruction>,
    pc: int,
    levels: Seq<Seq<ElementInfo>>,
    d: int,
    k: int,
)
    requires
        in_tree(levels, d, k),
        1 <= pc <= program.len(),
        0 <= compound_start(program, pc - 1) < pc,
    ensures
        active(program, pc, levels, d, k) == match program[pc - 1] {
            Instruction::Emit(_) => true,
            Instruction::Test { .. } => false,
            Instruction::Child => d >= 1 && matched_last(
                program,
                compound_start(program, pc - 1),
                levels,
                d - 1,
            ),
            Instruction::Descendant => exists|a: int|
                0 <= a < d && #[trigger] matched_last(
                    program,
                    compound_start(program, pc - 1),
                    levels,
                    a,
                ),
            Instruction::Adjacent => k >= 1 && matched(
                program,
                compound_start(program, pc - 1),
                levels,
                d,
                k - 1,
            ),
            Instruction::Sibling => exists|b: int|
                0 <= b < k && #[trigger] matched(
                    program,
                    compound_start(program, pc - 1),
                    levels,
                    d,
                    b,
                ),
        },
{
    let q = compound_start(program, pc - 1);
    match program[pc - 1] {
        Instruction::Descendant => {
            if active(program, pc, levels, d, k) {
                let a = choose|a: int|
                    0 <= a < d && (#[trigger] levels[a]).len() >= 1 && active(
                        program,
                        q,
                        levels,
                        a,
                        levels[a].len() - 1,
                    ) && compound_holds(program, q, &levels[a][levels[a].len() - 1]);
                assert(matched_last(program, q, levels, a));
            }
            if exists|a: int| 0 <= a < d && #[trigger] matched_last(program, q, levels, a) {
                let a = choose|a: int| 0 <= a < d && #[trigger] matched_last(program, q, levels, a);
                assert(levels[a].len() >= 1);
                assert(active(program, q, levels, a, levels[a].len() - 1));
            }
        },
        Instruction::Sibling => {
            if active(program, pc, levels, d, k) {
                let b = choose|b: int|
                    0 <= b < k && #[trigger] in_tree(levels, d, b) && active(
                        program,
                        q,
                        levels,
                        d,
                        b,
                    ) && compound_holds(program, q, &levels[d][b]);
                assert(matched(program, q, levels, d, b));
            }
            if exists|b: int| 0 <= b < k && #[trigger] matched(program, q, levels, d, b) {
                let b = choose|b: int| 0 <= b < k && #[trigger] matched(program, q, levels, d, b);
                assert(in_tree(levels, d, b));
                assert(active(program, q, levels, d, b));
            }
        },
        _ => {},
    }
}

/// Whether the selector that ends at the place `end`, where a locator stands,
/// matches the element at the place `k` of the level `d`.
pub open spec fn emits_at(
    program: Seq<Instruction>,
    end: int,
    levels: Seq<Seq<ElementInfo>>,
    d: int,
    k: int,
) -> bool {
    0 <= end < program.len() && program[end] is Emit && compound_start(program, end) < end
        && matched(program, compound_start(program, end), levels, d, k)
}

/// The locators of the selectors among the first `n` instructions that match
/// the element, in the order of the program, each once where the alternatives
/// of one selector match together.
pub open spec fn matches_upto(
    program: Seq<Instruction>,
    levels: Seq<Seq<ElementInfo>>,
    d: int,
    k: int,
    n: int,
) -> Seq<usize>
    decreases n,
{
    if n <= 0 || n > program.len() {
        Seq::empty()
    } else {
        let rest = matches_upto(program, levels, d, k, n - 1);
        match program[n - 1] {
            Instruction::Emit(locator) => if emits_at(program, n - 1, levels, d, k) && !(rest.len()
                > 0 && rest.last() == locator) {
                rest.push(locator)
            } else {
                rest
            },
            _ => rest,
        }
    }
}

/// The locators of the selectors that match the element at the place `k` of
/// the level `d`, in the order in which the selectors were added to the
/// program.
pub open spec fn matching_locators(
    program: Seq<Instruction>,
    levels: Seq<Seq<ElementInfo>>,
    d: int,
    k: int,
) -> Seq<usize> {
    matches_upto(program, levels, d, k, program.len() as int)
}

/// Whether the two trees are the same as far as the element at the place `k`
/// of the level `d` can tell: they have the same levels above the level `d`,
/// and the same elements up to the place `k` in it.
pub open spec fn same_up_to(
    one: Seq<Seq<ElementInfo>>,
    other: Seq<Seq<ElementInfo>>,
    d: int,
    k: int,
) -> bool {
    &&& in_tree(one, d, k)
    &&& in_tree(other, d, k)
    &&& one[d].take(k + 1) == other[d].take(k + 1)
    &&& forall|a: int| 0 <= a < d ==> #[trigger] one[a] == other[a]
}

/// Whether a selector matches an element depends only on the element, its
/// ancestors and the siblings before them: not on what was read later.
pub proof fn lemma_frame(
    program: Seq<Instruction>,
    pc: int,
    one: Seq<Seq<ElementInfo>>,
    other: Seq<Seq<ElementInfo>>,
    d: int,
    k: int,
)
    requires
        same_up_to(one, other, d, k),
    ensures
        active(program, pc, one, d, k) == active(program, pc, other, d, k),
        matched(program, pc, one, d, k) == matched(program, pc, other, d, k),
    decreases pc,
{
    assert(one[d].take(k + 1)[k] == one[d][k]);
    assert(other[d].take(k + 1)[k] == other[d][k]);
    if 1 <= pc <= program.len() {
        let q = compound_start(program, pc - 1);
        if 0 <= q < pc {
            lemma_active(program, pc, one, d, k);
            lemma_active(program, pc, other, d, k);
            match program[pc - 1] {
                Instruction::Child => {
                    if d >= 1 {
                        assert(one[d - 1] == other[d - 1]);
                        if one[d - 1].len() >= 1 {
                            lemma_frame(program, q, one, other, d - 1, one[d - 1].len() - 1);
                        }
                    }
                },
                Instruction::Descendant => {
                    assert forall|a: int| 0 <= a < d implies #[trigger] matched_last(
                        program,
                        q,
                        one,
                        a,
                    ) == matched_last(program, q, other, a) by {
                        assert(one[a] == other[a]);
                        if one[a].len() >= 1 {
                            lemma_frame(program, q, one, other, a, one[a].len() - 1);
                        }
                    }
                    if exists|a: int| 0 <= a < d && #[trigger] matched_last(program, q, one, a) {
                        let a = choose|a: int|
                            0 <= a < d && #[trigger] matched_last(program, q, one, a);
                        assert(matched_last(program, q, other, a));
                    }
                    if exists|a: int| 0 <= a < d && #[trigger] matched_last(program, q, other, a) {
                        let a = choose|a: int|
                            0 <= a < d && #[trigger] matched_last(program, q, other, a);
                        assert(matched_last(program, q, one, a));
                    }
                },
                Instruction::Adjacent => {
                    if k >= 1 {
                        assert(one[d].take(k) =~= one[d].take(k + 1).take(k));
                        assert(other[d].take(k) =~= other[d].take(k + 1).take(k));
                        lemma_frame(program, q, one, other, d, k - 1);
                    }
                },
                Instruction::Sibling => {
                    assert forall|b: int| 0 <= b < k implies #[trigger] matched(
                        program,
                        q,
                        one,
                        d,
                        b,
                    ) == matched(program, q, other, d, b) by {
                        assert(one[d].take(b + 1) =~= one[d].take(k + 1).take(b + 1));
                        assert(other[d].take(b + 1) =~= other[d].take(k + 1).take(b + 1));
                        lemma_frame(program, q, one, other, d, b);
                    }
                    if exists|b: int| 0 <= b < k && #[trigger] matched(program, q, one, d, b) {
                        let b = choose|b: int|
                            0 <= b < k && #[trigger] matched(program, q, one, d, b);
                        assert(matched(program, q, other, d, b));
                    }
                    if exists|b: int| 0 <= b < k && #[trigger] matched(program, q, other, d, b) {
                        let b = choose|b: int|
                            0 <= b < k && #[trigger] matched(program, q, other, d, b);
                        assert(matched(program, q, one, d, b));
                    }
                },
                _ => {},
            }
        }
    }
}

/// Whether a selector matches the last element of a level above the level `d`
/// depends only on the levels above `d`.
pub proof fn lemma_frame_last(
    program: Seq<Instruction>,
    pc: int,
    one: Seq<Seq<ElementInfo>>,
    other: Seq<Seq<ElementInfo>>,
    d: int,
    a: int,
)
    requires
        0 <= a < d,
        d <= one.len(),
        d <= other.len(),
        forall|x: int| 0 <= x < d ==> #[trigger] one[x] == other[x],
    ensures
        matched_last(program, pc, one, a) == matched_last(program, pc, other, a),
{
    assert(one[a] == other[a]);
    if one[a].len() >= 1 {
        lemma_frame(program, pc, one, other, a, one[a].len() - 1);
    }
}

/// The locators stand in the program in the order of registration: none is
/// followed by a smaller one.
pub open spec fn locators_ordered(program: Seq<Instruction>) -> bool {
    forall|i: int, j: int|
        0 <= i <= j < program.len() ==> match (#[trigger] program[i], #[trigger] program[j]) {
            (Instruction::Emit(a), Instruction::Emit(b)) => a <= b,
            _ => true,
        }
}

/// Whether the locator stands in the program before the place `n`.
pub open spec fn emitted_before(program: Seq<Instruction>, locator: usize, n: int) -> bool {
    exists|i: int| 0 <= i < n && i < program.len()
        && #[trigger] program[i] == Instruction::Emit(locator)
}

/// Where the locators stand in the program in the order of registration, the
/// locators of the selectors that match an element come in that order too, each
/// once: the handlers of an element are called in the order in which their
/// selectors were registered.
pub proof fn lemma_matches_ordered(
    program: Seq<Instruction>,
    levels: Seq<Seq<ElementInfo>>,
    d: int,
    k: int,
    n: int,
)
    requires
        locators_ordered(program),
        0 <= n <= program.len(),
    ensures
        forall|a: int, b: int|
            0 <= a < b < matches_upto(program, levels, d, k, n).len() ==> matches_upto(
                program,
                levels,
                d,
                k,
                n,
            )[a] < matches_upto(program, levels, d, k, n)[b],
        forall|a: int|
            0 <= a < matches_upto(program, levels, d, k, n).len() ==> emitted_before(
                program,
                #[trigger] matches_upto(program, levels, d, k, n)[a],
                n,
            ),
    decreases n,
{
    if n > 0 {
        lemma_matches_ordered(program, levels, d, k, n - 1);
        let rest = matches_upto(program, levels, d, k, n - 1);
        let all = matches_upto(program, levels, d, k, n);
        assert forall|a: int| 0 <= a < rest.len() implies emitted_before(
            program,
            #[trigger] rest[a],
            n,
        ) by {
            assert(emitted_before(program, rest[a], n - 1));
            let i = choose|i: int|
                0 <= i < n - 1 && i < program.len() && #[trigger] program[i] == Instruction::Emit(
                    rest[a],
                );
            assert(program[i] == Instruction::Emit(rest[a]));
        }
        if all.len() > rest.len() {
            let locator = all[rest.len() as int];
            assert(program[n - 1] == Instruction::Emit(locator));
            assert forall|a: int| 0 <= a < rest.len() implies rest[a] < locator by {
                assert(emitted_before(program, rest[a], n - 1));
                let i = choose|i: int|
                    0 <= i < n - 1 && i < program.len() && #[trigger] program[i]
                        == Instruction::Emit(rest[a]);
                assert(match (program[i], program[n - 1]) {
                    (Instruction::Emit(x), Instruction::Emit(y)) => x <= y,
                    _ => true,
                });
                assert(rest[rest.len() - 1] != locator);
                if a < rest.len() - 1 {
                    assert(rest[a] < rest[rest.len() - 1]);
                    assert(emitted_before(program, rest[rest.len() - 1], n - 1));
                    let k = choose|k: int|
                        0 <= k < n - 1 && k < program.len() && #[trigger] program[k]
                            == Instruction::Emit(rest[rest.len() - 1]);
                    assert(match (program[k], program[n - 1]) {
                        (Instruction::Emit(x), Instruction::Emit(y)) => x <= y,
                        _ => true,
                    });
                }
            }
        }
    }
}

fn occurs_in(all: &[u8], part: &[u8], i: usize) -> (r: bool)
    ensures
        r == occurs_at(all@, part@, i as int),
{
    if i <= all.len() && part.len() <= all.len() - i {
        same_bytes(vstd::slice::slice_subrange(all, i, i + part.len()), part)
    } else {
        false
    }
}

fn contains_bytes(all: &[u8], part: &[u8]) -> (r: bool)
    ensures
        r == contains(all@, part@),
{
    let mut i: usize = 0;
    while i < all.len()
        invariant
            i <= all@.len(),
            forall|j: int| 0 <= j < i ==> !occurs_at(all@, part@, j),
        decreases all@.len() - i,
    {
        if occurs_in(all, part, i) {
            return true;
        }
        i = i + 1;
    }
    if occurs_in(all, part, i) {
        return true;
    }
    assert forall|j: int| !occurs_at(all@, part@, j) by {
        if j > i {
            assert(j + part@.len() > all@.len());
        }
    }
    false
}

fn holds_space(word: &[u8]) -> (r: bool)
    ensures
        r == has_space(word@),
{
    let mut k: usize = 0;
    while k < word.len()
        invariant
            k <= word@.len(),
            forall|j: int| 0 <= j < k ==> !is_whitespace(#[trigger] word@[j]),
        decreases word@.len() - k,
    {
        if is_whitespace_byte(word[k]) {
            return true;
        }
        k = k + 1;
    }
    false
}

fn word_in(list: &[u8], word: &[u8], i: usize) -> (r: bool)
    ensures
        r == word_at(list@, word@, i as int),
{
    if !occurs_in(list, word, i) {
        return false;
    }
    let left = i == 0 || is_whitespace_byte(list[i - 1]);
    let right = i + word.len() == list.len() || is_whitespace_byte(list[i + word.len()]);
    left && right
}

fn contains_word(list: &[u8], word: &[u8]) -> (r: bool)
    ensures
        r == has_word(list@, word@),
{
    if word.len() == 0 || holds_space(word) {
        return false;
    }
    let mut i: usize = 0;
    while i < list.len()
        invariant
            i <= list@.len(),
            word@.len() > 0,
            !has_space(word@),
            forall|j: int| 0 <= j < i ==> !word_at(list@, word@, j),
        decreases list@.len() - i,
    {
        if word_in(list, word, i) {
            return true;
        }
        i = i + 1;
    }
    assert forall|j: int| !word_at(list@, word@, j) by {
        if j >= i {
            assert(j + word@.len() > list@.len());
        }
    }
    false
}

fn eval_operator(operator: AttributeOperator, value: &[u8], operand: &[u8]) -> (r: bool)
    ensures
        r == operator_holds(operator, value@, operand@),
{
    match operator {
        AttributeOperator::Exists => true,
        AttributeOperator::Equals => same_bytes(value, operand),
        AttributeOperator::Includes => contains_word(value, operand),
        AttributeOperator::DashMatch => {
            if same_bytes(value, operand) {
                true
            } else {
                let mut with_dash: Vec<u8> = Vec::new();
                let mut k: usize = 0;
                while k < operand.len()
                    invariant
                        k <= operand@.len(),
                        with_dash@ == operand@.subrange(0, k as int),
                    decreases operand@.len() - k,
                {
                    with_dash.push(operand[k]);
                    k = k + 1;
                    assert(with_dash@ =~= operand@.subrange(0, k as int));
                }
                assert(operand@.subrange(0, k as int) =~= operand@);
                with_dash.push(0x2D);
                occurs_in(value, with_dash.as_slice(), 0)
            }
        },
        AttributeOperator::Prefix => operand.len() > 0 && occurs_in(value, operand, 0),
        AttributeOperator::Suffix => operand.len() > 0 && operand.len() <= value.len() && occurs_in(
            value,
            operand,
            value.len() - operand.len(),
        ),
        AttributeOperator::Substring => operand.len() > 0 && contains_bytes(value, operand),
    }
}

fn eval_nth(a: i32, b: i32, index: usize) -> (r: bool)
    ensures
        r == nth_holds(a, b, index),
{
    let d: i128 = index as i128 - b as i128;
    if a == 0 {
        d == 0
    } else if a > 0 {
        d >= 0 && (d as u128) % (a as u128) == 0
    } else {
        d <= 0 && ((0 - d) as u128) % ((0 - a as i128) as u128) == 0
    }
}

/// Evaluates a check on an element.
pub fn eval_check(check: &Check, e: &ElementInfo) -> (r: bool)
    ensures
        r == check_holds(check, e),
{
    match check {
        Check::Any => true,
        Check::Never => false,
        Check::LocalName(n) => {
            if e.namespace == Namespace::Html {
                same_ignoring_case(e.name.as_slice(), n.as_slice())
            } else {
                same_bytes(e.name.as_slice(), n.as_slice())
            }
        },
        Check::Id(v) => {
            match find_attribute_in(e.namespace, &e.attributes, "id".as_bytes()) {
                Some(i) => {
                    assert(pairs(e.attributes@)[i as int].1 == e.attributes@[i as int].value@);
                    same_bytes(e.attributes[i].value.as_slice(), v.as_slice())
                },
                None => false,
            }
        },
        Check::Class(v) => {
            match find_attribute_in(e.namespace, &e.attributes, "class".as_bytes()) {
                Some(i) => {
                    assert(pairs(e.attributes@)[i as int].1 == e.attributes@[i as int].value@);
                    contains_word(e.attributes[i].value.as_slice(), v.as_slice())
                },
                None => false,
            }
        },
        Check::Attribute { name, operator, value, ignore_case } => {
            match find_attribute_in(e.namespace, &e.attributes, name.as_slice()) {
                Some(i) => {
                    assert(pairs(e.attributes@)[i as int].1 == e.attributes@[i as int].value@);
                    let found = &e.attributes[i].value;
                    if *ignore_case {
                        let x = lowered(found.as_slice(), 0, found.len());
                        let y = lowered(value.as_slice(), 0, value.len());
                        assert(found@.subrange(0, found@.len() as int) =~= found@);
                        assert(value@.subrange(0, value@.len() as int) =~= value@);
                        eval_operator(*operator, x.as_slice(), y.as_slice())
                    } else {
                        eval_operator(*operator, found.as_slice(), value.as_slice())
                    }
                },
                None => false,
            }
        },
        Check::Nth { a, b, of_type } => eval_nth(
            *a,
            *b,
            if *of_type {
                e.type_index
            } else {
                e.child_index
            },
        ),
    }
}

} // verus!
