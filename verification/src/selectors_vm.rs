//! The selector matching machine: the program, and the stack of the elements
//! that are open. For each open element the stack keeps what the program needs
//! of it for the elements that follow, and nothing of its attributes.

use vstd::prelude::*;
use crate::errors::MemoryLimitExceededError;
use crate::html::Namespace;
use crate::html_content::element::Attribute;
use crate::memory::MemoryLimiter;
use crate::selectors::matching::{
    emits_at, lemma_frame, lemma_frame_last, matched, matched_last, matches_upto,
    matching_locators, ElementInfo,
};
use crate::selectors::program::{
    program_reads_attributes, program_reads_types, reads_attributes, reads_types, Instruction,
};
use crate::selectors::run::{
    child_due, descendant_due, empty_sets, later_due, next_due, run_program, sets_of,
    with_element, with_level, DueSets,
};
use crate::tokenizer::chars::{copied, lower_seq, same_ignoring_case};

verus! {

/// How many elements of one name a parent has had.
pub struct TypeCount {
    pub name: Vec<u8>,
    pub count: usize,
}

/// What the stack keeps of an open element.
pub struct OpenElement {
    /// The compound selectors that are due for the elements that follow.
    pub sets: DueSets,
    /// For each locator, whether a selector with it matches the element or an
    /// ancestor of it.
    pub inside: Vec<bool>,
    /// How many elements the element has had as children.
    pub children: usize,
    /// How many of them with each name, where the program asks for that.
    pub type_counts: Vec<TypeCount>,
    /// The bytes charged to the memory limiter for the stack up to and with
    /// this element.
    pub charged: usize,
}

/// The bytes charged for an open element beside its sets.
pub const ENTRY_OVERHEAD: usize = 64;

/// The bytes charged for the count of a name beside the name.
pub const TYPE_OVERHEAD: usize = 16;

/// The place of the count for the given name, from `from` on.
pub open spec fn type_place(counts: Seq<TypeCount>, name: Seq<u8>, from: int) -> Option<int>
    decreases counts.len() - from,
{
    if from < 0 || from >= counts.len() {
        None
    } else if lower_seq(counts[from].name@) == lower_seq(name) {
        Some(from)
    } else {
        type_place(counts, name, from + 1)
    }
}

/// One more than `n`, or `n` where that cannot be.
pub open spec fn next_after(n: usize) -> usize {
    if n < usize::MAX {
        (n + 1) as usize
    } else {
        n
    }
}

/// Whether a selector with the locator matches the last element of the level
/// `a`, which is open.
pub open spec fn matches_open(
    program: Seq<Instruction>,
    locator: usize,
    levels: Seq<Seq<ElementInfo>>,
    a: int,
) -> bool {
    0 <= a < levels.len() && levels[a].len() >= 1 && matching_locators(
        program,
        levels,
        a,
        levels[a].len() - 1,
    ).contains(locator)
}

/// Whether a selector with the locator matches the element that owns the level
/// `n` or an ancestor of it.
pub open spec fn inside_due_at(
    program: Seq<Instruction>,
    locator: usize,
    levels: Seq<Seq<ElementInfo>>,
    n: int,
) -> bool {
    exists|a: int| 0 <= a < n && #[trigger] matches_open(program, locator, levels, a)
}

/// Whether a selector with the locator matches an element that is open.
pub open spec fn inside_due(
    program: Seq<Instruction>,
    locator: usize,
    levels: Seq<Seq<ElementInfo>>,
) -> bool {
    inside_due_at(program, locator, levels, levels.len() - 1)
}

/// Whether what the stack keeps of an element is right for the element that
/// owns the level `n` of the tree (for the document, if `n` is `0`).
#[verifier::opaque]
pub open spec fn entry_ok(
    program: Seq<Instruction>,
    locators: usize,
    entry: OpenElement,
    levels: Seq<Seq<ElementInfo>>,
    n: int,
) -> bool {
    &&& sets_of(program, &entry.sets, levels, n)
    &&& entry.inside@.len() == locators
    &&& forall|l: int|
        0 <= l < locators ==> (#[trigger] entry.inside@[l]) == inside_due_at(
            program,
            l as usize,
            levels,
            n,
        )
}

/// What the machine found for a start tag.
pub struct StartTagOutcome {
    /// The locators of the selectors that match the element, in the order in
    /// which the selectors were registered.
    pub matched: Vec<usize>,
    /// What the tests saw of the element.
    pub info: ElementInfo,
}

/// The selector matching machine.
pub struct SelectorMatchingVm {
    program: Vec<Instruction>,
    locators: usize,
    uses_attributes: bool,
    uses_types: bool,
    stack: Vec<OpenElement>,
    levels: Ghost<Seq<Seq<ElementInfo>>>,
}

/// Which selectors match an element does not depend on what was read later.
proof fn lemma_matches_frame(
    program: Seq<Instruction>,
    one: Seq<Seq<ElementInfo>>,
    other: Seq<Seq<ElementInfo>>,
    d: int,
    k: int,
    n: int,
)
    requires
        crate::selectors::matching::same_up_to(one, other, d, k),
    ensures
        matches_upto(program, one, d, k, n) == matches_upto(program, other, d, k, n),
    decreases n,
{
    if n > 0 && n <= program.len() {
        lemma_matches_frame(program, one, other, d, k, n - 1);
        lemma_frame(program, crate::selectors::matching::compound_start(program, n - 1), one, other, d, k);
    }
}

/// What is due for the element that owns the level `n` depends only on the
/// levels up to `n`.
proof fn lemma_dues_frame(
    program: Seq<Instruction>,
    p: int,
    one: Seq<Seq<ElementInfo>>,
    other: Seq<Seq<ElementInfo>>,
    n: int,
)
    requires
        0 <= n < one.len(),
        n < other.len(),
        forall|x: int| 0 <= x <= n ==> #[trigger] one[x] == other[x],
    ensures
        child_due(program, p, one, n) == child_due(program, p, other, n),
        descendant_due(program, p, one, n) == descendant_due(program, p, other, n),
        next_due(program, p, one, n) == next_due(program, p, other, n),
        later_due(program, p, one, n) == later_due(program, p, other, n),
{
    if 1 <= p <= program.len() {
        let q = crate::selectors::matching::compound_start(program, p - 1);
        assert(one[n] == other[n]);
        if n >= 1 {
            lemma_frame_last(program, q, one, other, n, n - 1);
        }
        assert forall|a: int| 0 <= a < n implies #[trigger] matched_last(program, q, one, a)
            == matched_last(program, q, other, a) by {
            lemma_frame_last(program, q, one, other, n, a);
        }
        assert forall|b: int| 0 <= b < one[n].len() implies #[trigger] matched(
            program,
            q,
            one,
            n,
            b,
        ) == matched(program, q, other, n, b) by {
            lemma_frame(program, q, one, other, n, b);
        }
        if descendant_due(program, p, one, n) {
            let a = choose|a: int| 0 <= a < n && #[trigger] matched_last(program, q, one, a);
            assert(matched_last(program, q, other, a));
        }
        if descendant_due(program, p, other, n) {
            let a = choose|a: int| 0 <= a < n && #[trigger] matched_last(program, q, other, a);
            assert(matched_last(program, q, one, a));
        }
        if later_due(program, p, one, n) {
            let b = choose|b: int| 0 <= b < one[n].len()
                && #[trigger] matched(program, q, one, n, b);
            assert(matched(program, q, other, n, b));
        }
        if later_due(program, p, other, n) {
            let b = choose|b: int|
                0 <= b < other[n].len() && #[trigger] matched(program, q, other, n, b);
            assert(matched(program, q, one, n, b));
        }
    }
}

/// Whether a selector matches an open element above the level `n` depends only
/// on the levels above `n`.
proof fn lemma_inside_frame(
    program: Seq<Instruction>,
    locator: usize,
    one: Seq<Seq<ElementInfo>>,
    other: Seq<Seq<ElementInfo>>,
    n: int,
)
    requires
        0 <= n <= one.len(),
        n <= other.len(),
        forall|x: int| 0 <= x < n ==> #[trigger] one[x] == other[x],
    ensures
        inside_due_at(program, locator, one, n) == inside_due_at(program, locator, other, n),
{
    assert forall|a: int| 0 <= a < n implies #[trigger] matches_open(program, locator, one, a)
        == matches_open(program, locator, other, a) by {
        assert(one[a] == other[a]);
        if one[a].len() >= 1 {
            lemma_matches_frame(
                program,
                one,
                other,
                a,
                one[a].len() - 1,
                program.len() as int,
            );
        }
    }
    if inside_due_at(program, locator, one, n) {
        let a = choose|a: int| 0 <= a < n && #[trigger] matches_open(program, locator, one, a);
        assert(matches_open(program, locator, other, a));
    }
    if inside_due_at(program, locator, other, n) {
        let a = choose|a: int| 0 <= a < n && #[trigger] matches_open(program, locator, other, a);
        assert(matches_open(program, locator, one, a));
    }
}

/// What the stack keeps of the element that owns the level `n` is right
/// whatever is read into the levels behind `n`.
proof fn lemma_entry_frame(
    program: Seq<Instruction>,
    locators: usize,
    entry: OpenElement,
    one: Seq<Seq<ElementInfo>>,
    other: Seq<Seq<ElementInfo>>,
    n: int,
)
    requires
        0 <= n < one.len(),
        n < other.len(),
        forall|x: int| 0 <= x <= n ==> #[trigger] one[x] == other[x],
        entry_ok(program, locators, entry, one, n),
    ensures
        entry_ok(program, locators, entry, other, n),
{
    reveal(entry_ok);
    assert forall|p: int| 0 <= p <= program.len() implies child_due(program, p, one, n)
        == child_due(program, p, other, n) && descendant_due(program, p, one, n) == descendant_due(
        program,
        p,
        other,
        n,
    ) && next_due(program, p, one, n) == next_due(program, p, other, n) && later_due(
        program,
        p,
        one,
        n,
    ) == later_due(program, p, other, n) by {
        lemma_dues_frame(program, p, one, other, n);
    }
    assert forall|l: int| 0 <= l < locators implies #[trigger] inside_due_at(
        program,
        l as usize,
        one,
        n,
    ) == inside_due_at(program, l as usize, other, n) by {
        lemma_inside_frame(program, l as usize, one, other, n);
    }
}

fn find_type(counts: &Vec<TypeCount>, name: &[u8]) -> (r: Option<usize>)
    ensures
        match r {
            Some(i) => type_place(counts@, name@, 0) == Some(i as int) && i < counts@.len(),
            None => type_place(counts@, name@, 0) is None,
        },
{
    let mut i: usize = 0;
    while i < counts.len()
        invariant
            i <= counts@.len(),
            type_place(counts@, name@, 0) == type_place(counts@, name@, i as int),
        decreases counts@.len() - i,
    {
        if same_ignoring_case(counts[i].name.as_slice(), name) {
            return Some(i);
        }
        i = i + 1;
    }
    None
}

fn all_false(len: usize) -> (r: Vec<bool>)
    ensures
        r@.len() == len,
        forall|i: int| 0 <= i < len ==> !(#[trigger] r@[i]),
{
    let mut v: Vec<bool> = Vec::new();
    let mut i: usize = 0;
    while i < len
        invariant
            i <= len,
            v@.len() == i,
            forall|j: int| 0 <= j < i ==> !(#[trigger] v@[j]),
        decreases len - i,
    {
        v.push(false);
        i = i + 1;
    }
    v
}

/// Whether the stack is right for the tree: it has an entry for the document
/// and one for each open element, each entry is right for its element, and no
/// entry charges less than the entry below it.
pub open spec fn stack_ok(
    program: Seq<Instruction>,
    locators: usize,
    stack: Seq<OpenElement>,
    levels: Seq<Seq<ElementInfo>>,
) -> bool {
    &&& stack.len() == levels.len()
    &&& levels.len() >= 1
    &&& forall|n: int|
        0 <= n < stack.len() ==> entry_ok(program, locators, #[trigger] stack[n], levels, n)
    &&& forall|a: int, b: int|
        0 <= a <= b < stack.len() ==> (#[trigger] stack[a]).charged <= (#[trigger] stack[b]).charged
}

/// The entries below the place `m` stay right when the tree changes from the
/// level `m` on.
proof fn lemma_stack_frame(
    program: Seq<Instruction>,
    locators: usize,
    stack: Seq<OpenElement>,
    one: Seq<Seq<ElementInfo>>,
    other: Seq<Seq<ElementInfo>>,
    m: int,
)
    requires
        0 <= m <= stack.len(),
        m <= one.len(),
        m <= other.len(),
        forall|x: int| 0 <= x < m ==> #[trigger] one[x] == other[x],
        forall|n: int| 0 <= n < m ==> entry_ok(program, locators, #[trigger] stack[n], one, n),
    ensures
        forall|n: int| 0 <= n < m ==> entry_ok(program, locators, #[trigger] stack[n], other, n),
{
    assert forall|n: int| 0 <= n < m implies entry_ok(
        program,
        locators,
        #[trigger] stack[n],
        other,
        n,
    ) by {
        lemma_entry_frame(program, locators, stack[n], one, other, n);
    }
}

/// The stack with a new innermost entry is right for the tree with one more
/// element in its last level, if the new entry is.
proof fn lemma_new_top(
    program: Seq<Instruction>,
    locators: usize,
    stack: Seq<OpenElement>,
    levels: Seq<Seq<ElementInfo>>,
    e: ElementInfo,
    top: OpenElement,
)
    requires
        stack_ok(program, locators, stack, levels),
        entry_ok(program, locators, top, with_element(levels, e), levels.len() - 1),
        stack.last().charged <= top.charged,
    ensures
        stack_ok(program, locators, stack.drop_last().push(top), with_element(levels, e)),
{
    let after = with_element(levels, e);
    let longer = stack.drop_last().push(top);
    let m = stack.len() - 1;
    lemma_stack_frame(program, locators, stack, levels, after, m);
    assert forall|n: int| 0 <= n < longer.len() implies entry_ok(
        program,
        locators,
        #[trigger] longer[n],
        after,
        n,
    ) by {
        if n < m {
            assert(longer[n] == stack[n]);
        }
    }
    assert forall|a: int, b: int| 0 <= a <= b < longer.len() implies (#[trigger] longer[a]).charged
        <= (#[trigger] longer[b]).charged by {
        if b < m {
            assert(stack[a].charged <= stack[b].charged);
        } else if a < m {
            assert(stack[a].charged <= stack[m].charged);
        }
    }
}

/// The set of an element: that of its parent, with the locators that match the
/// element.
fn inside_for(parent: &Vec<bool>, matched: &Vec<usize>) -> (r: Vec<bool>)
    ensures
        r@.len() == parent@.len(),
        forall|j: int|
            0 <= j < r@.len()
                ==> (#[trigger] r@[j]) == (parent@[j] || matched@.contains(j as usize)),
{
    let mut inside: Vec<bool> = Vec::new();
    let mut l: usize = 0;
    while l < parent.len()
        invariant
            l <= parent@.len(),
            inside@.len() == l,
            forall|j: int| 0 <= j < l ==> (#[trigger] inside@[j]) == parent@[j],
        decreases parent@.len() - l,
    {
        inside.push(parent[l]);
        l = l + 1;
    }
    let mut k: usize = 0;
    while k < matched.len()
        invariant
            k <= matched@.len(),
            inside@.len() == parent@.len(),
            forall|j: int|
                0 <= j < inside@.len() ==> (#[trigger] inside@[j]) == (parent@[j] || exists|t: int|
                    0 <= t < k && matched@[t] == j),
        decreases matched@.len() - k,
    {
        let m = matched[k];
        if m < inside.len() {
            inside.set(m, true);
        }
        k = k + 1;
    }
    proof {
        assert forall|j: int| 0 <= j < inside@.len() implies (#[trigger] inside@[j]) == (parent@[j]
            || matched@.contains(j as usize)) by {
            if matched@.contains(j as usize) {
                let t = choose|t: int| 0 <= t < matched@.len() && matched@[t] == j as usize;
                assert(matched@[t] == j);
            }
        }
    }
    inside
}

/// Whether `b` are the counts `a` with one more element of the given name:
/// the count of the name is one more, or a count of one is added for a name
/// that has none. Nothing is counted unless `uses_types`.
pub open spec fn types_counted(
    a: Seq<TypeCount>,
    b: Seq<TypeCount>,
    name: Seq<u8>,
    uses_types: bool,
) -> bool {
    if !uses_types {
        b == a
    } else {
        match type_place(a, name, 0) {
            Some(i) => b.len() == a.len() && b[i].name == a[i].name && b[i].count == next_after(
                a[i].count,
            ) && forall|j: int| 0 <= j < a.len() && j != i ==> #[trigger] b[j] == a[j],
            None => b.len() == a.len() + 1 && b.take(a.len() as int) == a && b.last().name@
                == name && b.last().count == 1,
        }
    }
}

/// Counts a new child with the given name in what the stack keeps of its
/// parent, and gives the places of the child: among all children, and among
/// those of its name if `uses_types`.
fn count_child(top: &mut OpenElement, name: &[u8], uses_types: bool, place: Option<usize>) -> (r: (
    usize,
    usize,
))
    requires
        uses_types ==> match place {
            Some(i) => type_place(old(top).type_counts@, name@, 0) == Some(i as int) && i < old(
                top,
            ).type_counts@.len(),
            None => type_place(old(top).type_counts@, name@, 0) is None,
        },
    ensures
        final(top).sets == old(top).sets,
        final(top).inside == old(top).inside,
        final(top).charged == old(top).charged,
        final(top).children == next_after(old(top).children),
        types_counted(old(top).type_counts@, final(top).type_counts@, name@, uses_types),
        r.0 == next_after(old(top).children),
        r.1 == if uses_types {
            match type_place(old(top).type_counts@, name@, 0) {
                Some(i) => next_after(old(top).type_counts@[i].count),
                None => 1,
            }
        } else {
            0
        },
{
    let child_index: usize = if top.children < usize::MAX {
        top.children + 1
    } else {
        top.children
    };
    top.children = child_index;
    let type_index: usize = if uses_types {
        match place {
            Some(i) => {
                let mut counted = top.type_counts.remove(i);
                let index: usize = if counted.count < usize::MAX {
                    counted.count + 1
                } else {
                    counted.count
                };
                counted.count = index;
                top.type_counts.insert(i, counted);
                assert forall|j: int| 0 <= j < old(top).type_counts@.len() && j != i implies (
                #[trigger] top.type_counts@[j]) == old(top).type_counts@[j] by {}
                index
            },
            None => {
                top.type_counts.push(TypeCount { name: copied(name, 0, name.len()), count: 1 });
                assert(name@.subrange(0, name@.len() as int) =~= name@);
                assert(top.type_counts@.take(old(top).type_counts@.len() as int) =~= old(
                    top,
                ).type_counts@);
                1
            },
        }
    } else {
        0
    };
    (child_index, type_index)
}

/// What the stack keeps of an entry is right whatever it counts and charges.
proof fn lemma_entry_ok_counts(
    program: Seq<Instruction>,
    locators: usize,
    a: OpenElement,
    b: OpenElement,
    levels: Seq<Seq<ElementInfo>>,
    n: int,
)
    requires
        entry_ok(program, locators, a, levels, n),
        a.sets == b.sets,
        a.inside == b.inside,
    ensures
        entry_ok(program, locators, b, levels, n),
{
    reveal(entry_ok);
}

impl SelectorMatchingVm {
    /// The program.
    pub closed spec fn program(&self) -> Seq<Instruction> {
        self.program@
    }

    /// The number of locators.
    pub closed spec fn locators(&self) -> usize {
        self.locators
    }

    /// The tree of the elements that were read and still count: level by
    /// level, the children so far of the document and of each open element.
    pub closed spec fn levels(&self) -> Seq<Seq<ElementInfo>> {
        self.levels@
    }

    /// How many elements are open.
    pub open spec fn open_count(&self) -> int {
        self.levels().len() - 1
    }

    /// What the stack keeps of the innermost open element (of the document, if
    /// none is open).
    pub open spec fn top(&self) -> OpenElement {
        self.entries().last()
    }

    /// The bytes that are charged to the memory limiter for the stack.
    pub open spec fn charged(&self) -> nat {
        self.top().charged as nat
    }

    /// What the stack keeps, from the entry of the document to that of the
    /// innermost open element.
    pub closed spec fn entries(&self) -> Seq<OpenElement> {
        self.stack@
    }

    /// What a start tag with the given name does to the counts and charges
    /// of the stack: the innermost entry counts one more child, one more of
    /// its name if the program asks for that, and charges for a name that it
    /// counts for the first time; if the element stays open it has an entry
    /// that has counted nothing and charges for itself. The entries below stay
    /// as they are.
    pub open spec fn counted_after(
        before: &Self,
        after: &Self,
        name: Seq<u8>,
        stays_open: bool,
    ) -> bool {
        let a = before.entries();
        let b = after.entries();
        let d = a.len() - 1;
        &&& b.len() == a.len() + if stays_open {
            1int
        } else {
            0int
        }
        &&& b.take(d) == a.take(d)
        &&& b[d].children == next_after(a[d].children)
        &&& types_counted(a[d].type_counts@, b[d].type_counts@, name, reads_types(before.program()))
        &&& b[d].charged == a[d].charged + before.start_tag_cost(name, false)
        &&& stays_open ==> b[d + 1].children == 0 && b[d + 1].type_counts@.len() == 0 && b[d
            + 1].charged == a[d].charged + before.start_tag_cost(name, true)
    }

    /// The machine is consistent: the stack is right for the tree.
    pub closed spec fn wf(&self) -> bool {
        &&& self.program@.len() < usize::MAX
        &&& self.uses_attributes == reads_attributes(self.program@)
        &&& self.uses_types == reads_types(self.program@)
        &&& stack_ok(self.program@, self.locators, self.stack@, self.levels@)
    }

    /// What is known of the innermost entry of a consistent machine.
    pub proof fn lemma_top(&self)
        requires
            self.wf(),
        ensures
            entry_ok(
                self.program(),
                self.locators(),
                self.top(),
                self.levels(),
                self.levels().len() - 1,
            ),
    {
        let d = self.stack@.len() - 1;
        assert(entry_ok(self.program@, self.locators, self.stack@[d], self.levels@, d));
    }

    /// A machine for the program, with no element open. `None` for a program
    /// of more instructions than the machine can count.
    pub fn new(program: Vec<Instruction>, locators: usize) -> (r: Option<SelectorMatchingVm>)
        ensures
            r is Some <==> program@.len() < usize::MAX,
            r matches Some(vm) ==> vm.wf() && vm.program() == program@ && vm.locators() == locators
                && vm.levels() == seq![Seq::<ElementInfo>::empty()] && vm.charged() == 0
                && vm.entries().len() == 1 && vm.entries()[0].children == 0
                && vm.entries()[0].type_counts@.len() == 0,
    {
        if program.len() == usize::MAX {
            return None;
        }
        let uses_attributes = program_reads_attributes(&program);
        let uses_types = program_reads_types(&program);
        let root = OpenElement {
            sets: empty_sets(&program),
            inside: all_false(locators),
            children: 0,
            type_counts: Vec::new(),
            charged: 0,
        };
        proof {
            reveal(entry_ok);
            assert(entry_ok(program@, locators, root, seq![Seq::<ElementInfo>::empty()], 0));
        }
        let mut stack: Vec<OpenElement> = Vec::new();
        stack.push(root);
        let ghost document = seq![Seq::<ElementInfo>::empty()];
        let vm = SelectorMatchingVm {
            program,
            locators,
            uses_attributes,
            uses_types,
            stack,
            levels: Ghost(document),
        };
        Some(vm)
    }

    /// Whether a test of the program reads attributes.
    pub fn uses_attributes(&self) -> (r: bool)
        requires
            self.wf(),
        ensures
            r == reads_attributes(self.program()),
    {
        self.uses_attributes
    }

    /// How many elements are open.
    pub fn depth(&self) -> (r: usize)
        requires
            self.wf(),
        ensures
            r == self.open_count(),
    {
        self.stack.len() - 1
    }

    /// Whether a selector with the locator matches an element that is open.
    pub fn is_inside(&self, locator: usize) -> (r: bool)
        requires
            self.wf(),
        ensures
            r == (locator < self.locators() && inside_due(self.program(), locator, self.levels())),
    {
        proof {
            self.lemma_top();
            reveal(entry_ok);
        }
        let top = &self.stack[self.stack.len() - 1];
        if locator < top.inside.len() {
            top.inside[locator]
        } else {
            false
        }
    }

    /// The bytes that are charged to the memory limiter for the stack.
    pub fn charged_bytes(&self) -> (r: usize)
        requires
            self.wf(),
        ensures
            r == self.charged(),
    {
        self.stack[self.stack.len() - 1].charged
    }

    /// The place among the children of the innermost open element that its
    /// next child has.
    pub open spec fn next_child_index(&self) -> usize {
        next_after(self.top().children)
    }

    /// The place among the children of that name, if the program asks for it.
    pub open spec fn next_type_index(&self, name: Seq<u8>) -> usize {
        if reads_types(self.program()) {
            match type_place(self.top().type_counts@, name, 0) {
                Some(i) => next_after(self.top().type_counts@[i].count),
                None => 1,
            }
        } else {
            0
        }
    }

    /// The bytes that a start tag with the given name charges: for a name that
    /// the parent counts for the first time, and for the element if it stays
    /// open.
    pub open spec fn start_tag_cost(&self, name: Seq<u8>, stays_open: bool) -> int {
        (if reads_types(self.program()) && type_place(self.top().type_counts@, name, 0) is None {
            TYPE_OVERHEAD + name.len()
        } else {
            0
        }) + (if stays_open {
            ENTRY_OVERHEAD + 4 * (self.program().len() + 1) + self.locators()
        } else {
            0
        })
    }

    /// The place of the count of the name in the innermost entry, if the
    /// program asks for counts, and the two parts of what a start tag costs.
    fn price(&self, name: &[u8], stays_open: bool) -> (r: (Option<usize>, u128, u128))
        requires
            self.wf(),
        ensures
            self.uses_types ==> match r.0 {
                Some(i) => type_place(self.top().type_counts@, name@, 0) == Some(i as int) && i
                    < self.top().type_counts@.len(),
                None => type_place(self.top().type_counts@, name@, 0) is None,
            },
            r.1 + r.2 == self.start_tag_cost(name@, stays_open),
            r.1 == self.start_tag_cost(name@, false),
            r.1 <= 0xFFFF_FFFF_FFFF_FFFF_FFFF,
            r.2 <= 0xFFFF_FFFF_FFFF_FFFF_FFFF,
            !stays_open ==> r.2 == 0,
    {
        let top = &self.stack[self.stack.len() - 1];
        let place = if self.uses_types {
            find_type(&top.type_counts, name)
        } else {
            None
        };
        let type_cost: u128 = if self.uses_types && place.is_none() {
            TYPE_OVERHEAD as u128 + name.len() as u128
        } else {
            0
        };
        let entry_cost: u128 = if stays_open {
            ENTRY_OVERHEAD as u128 + 4 * (self.program.len() as u128 + 1) + self.locators as u128
        } else {
            0
        };
        (place, type_cost, entry_cost)
    }

    /// Puts an entry for the last element that was read on the stack: the
    /// element has opened.
    fn push_entry(&mut self, entry: OpenElement)
        requires
            old(self).wf(),
            entry_ok(
                old(self).program(),
                old(self).locators(),
                entry,
                with_level(old(self).levels()),
                old(self).levels().len() as int,
            ),
            old(self).top().charged <= entry.charged,
        ensures
            final(self).wf(),
            final(self).program() == old(self).program(),
            final(self).locators() == old(self).locators(),
            final(self).levels() == with_level(old(self).levels()),
            final(self).top() == entry,
            final(self).entries() == old(self).entries().push(entry),
    {
        let ghost before = self.stack@;
        let ghost levels = self.levels@;
        let ghost top = with_level(levels);
        self.stack.push(entry);
        self.levels = Ghost(top);
        proof {
            lemma_stack_frame(self.program@, self.locators, before, levels, top, before.len() as int);
            assert forall|n: int| 0 <= n < self.stack@.len() implies entry_ok(
                self.program@,
                self.locators,
                #[trigger] self.stack@[n],
                top,
                n,
            ) by {
                if n < before.len() {
                    assert(self.stack@[n] == before[n]);
                }
            }
            assert forall|a: int, b: int| 0 <= a <= b < self.stack@.len() implies (
            #[trigger] self.stack@[a]).charged <= (#[trigger] self.stack@[b]).charged by {
                if b < before.len() {
                    assert(before[a].charged <= before[b].charged);
                } else if a < before.len() {
                    assert(before[a].charged <= before[before.len() - 1].charged);
                }
            }
        }
    }

    /// Takes the innermost `count` entries off the stack.
    fn pop_entries(&mut self, count: usize)
        requires
            old(self).wf(),
            count <= old(self).open_count(),
        ensures
            final(self).wf(),
            final(self).program() == old(self).program(),
            final(self).locators() == old(self).locators(),
            final(self).levels() == old(self).levels().take(old(self).levels().len() - count),
            final(self).top().charged <= old(self).top().charged,
            final(self).entries() == old(self).entries().take(old(self).entries().len() - count),
    {
        let ghost before = self.stack@;
        let ghost levels = self.levels@;
        let len: usize = self.stack.len();
        let mut k: usize = 0;
        while k < count
            invariant
                k <= count < len,
                len == before.len(),
                self.stack@ == before.take(len - k),
                self.program == old(self).program,
                self.locators == old(self).locators,
                self.uses_attributes == old(self).uses_attributes,
                self.uses_types == old(self).uses_types,
                self.levels == old(self).levels,
            decreases count - k,
        {
            let _closed = self.stack.pop();
            k = k + 1;
            assert(self.stack@ =~= before.take(len - k));
        }
        let ghost rest = levels.take(len - count);
        self.levels = Ghost(rest);
        proof {
            lemma_stack_frame(self.program@, self.locators, before, levels, rest, len - count);
            assert forall|n: int| 0 <= n < self.stack@.len() implies entry_ok(
                self.program@,
                self.locators,
                #[trigger] self.stack@[n],
                rest,
                n,
            ) by {
                assert(self.stack@[n] == before[n]);
            }
            assert forall|a: int, b: int| 0 <= a <= b < self.stack@.len() implies (
            #[trigger] self.stack@[a]).charged <= (#[trigger] self.stack@[b]).charged by {
                assert(before[a].charged <= before[b].charged);
            }
            assert(before[len - count - 1].charged <= before[len - 1].charged);
        }
    }

    /// What the stack keeps of the last element that was read, when it opens.
    fn make_entry(&self, sets: DueSets, matched: &Vec<usize>, charged: usize) -> (r: OpenElement)
        requires
            self.wf(),
            self.levels()[self.levels().len() - 1].len() >= 1,
            sets_of(self.program(), &sets, with_level(self.levels()), self.levels().len() as int),
            matched@ == matching_locators(
                self.program(),
                self.levels(),
                self.levels().len() - 1,
                self.levels()[self.levels().len() - 1].len() - 1,
            ),
        ensures
            entry_ok(
                self.program(),
                self.locators(),
                r,
                with_level(self.levels()),
                self.levels().len() as int,
            ),
            r.charged == charged,
            r.children == 0,
            r.type_counts@.len() == 0,
    {
        proof {
            self.lemma_top();
            reveal(entry_ok);
        }
        let parent = &self.stack[self.stack.len() - 1];
        let inside = inside_for(&parent.inside, matched);
        proof {
            let levels = self.levels@;
            let n = levels.len() - 1;
            let top = with_level(levels);
            assert forall|l: int| 0 <= l < self.locators implies (#[trigger] inside@[l])
                == inside_due_at(self.program@, l as usize, top, n + 1) by {
                assert(parent.inside@[l] == inside_due_at(self.program@, l as usize, levels, n));
                lemma_inside_frame(self.program@, l as usize, top, levels, n);
                assert(top[n].take(levels[n].len() as int) =~= levels[n].take(
                    levels[n].len() as int,
                ));
                lemma_matches_frame(
                    self.program@,
                    top,
                    levels,
                    n,
                    levels[n].len() - 1,
                    self.program@.len() as int,
                );
                if inside_due_at(self.program@, l as usize, top, n + 1) {
                    let a = choose|a: int|
                        0 <= a < n + 1
                            && #[trigger] matches_open(self.program@, l as usize, top, a);
                    if a < n {
                        assert(inside_due_at(self.program@, l as usize, top, n));
                    }
                }
                if inside_due_at(self.program@, l as usize, top, n) {
                    let a = choose|a: int|
                        0 <= a < n && #[trigger] matches_open(self.program@, l as usize, top, a);
                    assert(matches_open(self.program@, l as usize, top, a));
                }
                if matched@.contains(l as usize) {
                    assert(matches_open(self.program@, l as usize, top, n));
                }
            }
        }
        OpenElement { sets, inside, children: 0, type_counts: Vec::new(), charged }
    }

    /// Matches the selectors against the element that a start tag opens, and
    /// keeps the element on the stack if it stays open.
    ///
    /// Fails, and changes nothing, if the memory limit does not allow what the
    /// start tag costs.
    pub fn exec_for_start_tag(
        &mut self,
        name: Vec<u8>,
        namespace: Namespace,
        attributes: Vec<Attribute>,
        stays_open: bool,
        limiter: &mut MemoryLimiter,
    ) -> (r: Result<StartTagOutcome, MemoryLimitExceededError>)
        requires
            old(self).wf(),
            old(self).charged() <= old(limiter).usage(),
        ensures
            final(self).wf(),
            final(self).program() == old(self).program(),
            final(self).locators() == old(self).locators(),
            final(limiter).limit() == old(limiter).limit(),
            final(self).charged() <= final(limiter).usage(),
            final(limiter).usage() - final(self).charged()
                == old(limiter).usage() - old(self).charged(),
            r is Err <==> old(limiter).usage() + old(self).start_tag_cost(name@, stays_open) > old(
                limiter,
            ).limit(),
            r is Err ==> final(self).levels() == old(self).levels()
                && final(self).charged() == old(self).charged() && final(self).entries() == old(self).entries(),
            r is Ok ==> Self::counted_after(old(self), final(self), name@, stays_open),
            r matches Ok(m) ==> {
                &&& m.info.name@ == name@
                &&& m.info.attributes == attributes
                &&& m.info.namespace == namespace
                &&& m.info.child_index == old(self).next_child_index()
                &&& m.info.type_index == old(self).next_type_index(name@)
                &&& m.matched@ == matching_locators(
                    old(self).program(),
                    with_element(old(self).levels(), m.info),
                    old(self).levels().len() - 1,
                    old(self).levels()[old(self).levels().len() - 1].len() as int,
                )
                &&& final(self).levels() == if stays_open {
                    with_level(with_element(old(self).levels(), m.info))
                } else {
                    with_element(old(self).levels(), m.info)
                }
                &&& final(self).charged() == old(self).charged() + old(self).start_tag_cost(
                    name@,
                    stays_open,
                )
            },
    {
        let (place, type_cost, entry_cost) = self.price(name.as_slice(), stays_open);
        let cost: u128 = type_cost + entry_cost;
        let limit: usize = limiter.max_allowed();
        if cost > usize::MAX as u128 {
            return Err(MemoryLimitExceededError);
        }
        match limiter.increase_usage(cost as usize) {
            Err(e) => {
                return Err(e);
            },
            Ok(()) => {},
        }
        proof {
            self.lemma_top();
        }
        let ghost levels = self.levels@;
        let ghost old_stack = self.stack@;
        // Count the element among the children of its parent, and run the
        // program on it.
        let mut top = self.stack.pop().unwrap();
        let ghost old_top = top;
        let (child_index, type_index) = count_child(&mut top, name.as_slice(), self.uses_types, place);
        top.charged = top.charged + (type_cost as usize);
        let info = ElementInfo { name, namespace, attributes, child_index, type_index };
        let ghost after = with_element(levels, info);
        proof {
            lemma_entry_ok_counts(self.program@, self.locators, old_top, top, levels, levels.len() - 1);
            reveal(entry_ok);
        }
        let outcome = run_program(&self.program, &top.sets, &info, Ghost(levels));
        let parent_charged = top.charged;
        top.sets = outcome.parent;
        proof {
            assert forall|l: int| 0 <= l < self.locators implies (#[trigger] top.inside@[l])
                == inside_due_at(self.program@, l as usize, after, levels.len() - 1) by {
                lemma_inside_frame(self.program@, l as usize, after, levels, levels.len() - 1);
            }
            assert(entry_ok(self.program@, self.locators, top, after, levels.len() - 1));
            lemma_new_top(self.program@, self.locators, old_stack, levels, info, top);
        }
        let ghost counted = top;
        self.stack.push(top);
        self.levels = Ghost(after);
        let ghost d = old_stack.len() - 1;
        proof {
            assert(self.stack@.take(d) =~= old_stack.take(d));
            assert(self.stack@[d] == counted);
        }
        if stays_open {
            let entry = self.make_entry(
                outcome.own,
                &outcome.matched,
                parent_charged + (entry_cost as usize),
            );
            self.push_entry(entry);
            proof {
                assert(self.stack@.take(d) =~= old_stack.take(d));
                assert(self.stack@[d] == counted);
                assert(self.stack@[d + 1] == entry);
            }
        }
        Ok(StartTagOutcome { matched: outcome.matched, info })
    }

    /// Closes the innermost `count` open elements.
    pub fn exec_for_end_tag(&mut self, count: usize, limiter: &mut MemoryLimiter)
        requires
            old(self).wf(),
            old(self).charged() <= old(limiter).usage(),
            count <= old(self).open_count(),
        ensures
            final(self).wf(),
            final(self).program() == old(self).program(),
            final(self).locators() == old(self).locators(),
            final(limiter).limit() == old(limiter).limit(),
            final(self).levels() == old(self).levels().take(old(self).levels().len() - count),
            final(self).charged() <= old(self).charged(),
            final(self).entries() == old(self).entries().take(old(self).entries().len() - count),
            final(limiter).usage() - final(self).charged()
                == old(limiter).usage() - old(self).charged(),
    {
        let before = self.charged_bytes();
        self.pop_entries(count);
        let after = self.charged_bytes();
        limiter.decrease_usage(before - after);
    }
}

} // verus!
