//! The program that selectors are compiled to: a flat list of instructions in
//! which the tests of a compound selector stand side by side, combinators stand
//! between compound selectors, and every alternative ends with the locator of
//! the handlers to call.

use vstd::prelude::*;
use vstd::string::{StrSliceExecFns, StringSliceAdditionalSpecFns};
use vstd::utf8::encode_utf8;
use crate::encoding::{encoded_text, AsciiCompatibleEncoding, MAX_TEXT_LEN};
use crate::selectors::parser::{
    items_within, test_within, AttributeOperator, Item, Selector, Test,
};
use crate::tokenizer::eager::Span;

verus! {

/// A test on one element, with its names and values in the encoding of the
/// document.
pub enum Check {
    /// Holds of every element.
    Any,
    /// Holds of no element.
    Never,
    /// The element has this name.
    LocalName(Vec<u8>),
    /// The attribute `id` has this value.
    Id(Vec<u8>),
    /// The attribute `class` holds this word.
    Class(Vec<u8>),
    /// The element has the attribute, and its value stands to `value` as the
    /// operator says.
    Attribute { name: Vec<u8>, operator: AttributeOperator, value: Vec<u8>, ignore_case: bool },
    /// The place of the element among its siblings (of its name, if `of_type`)
    /// is `a * n + b` for some `n` that is not negative.
    Nth { a: i32, b: i32, of_type: bool },
}

/// An instruction of the program.
pub enum Instruction {
    /// The check must hold of the element, or must not if `negated`.
    Test { negated: bool, check: Check },
    /// The compound selector before must match an ancestor.
    Descendant,
    /// The compound selector before must match the parent.
    Child,
    /// The compound selector before must match the sibling just before.
    Adjacent,
    /// The compound selector before must match a sibling before.
    Sibling,
    /// The selector before matches: the handlers of this locator are due.
    Emit(usize),
}

/// The bytes, in the given encoding, of the piece of the text of a selector
/// that stands at `span`; none if the piece is longer than [`MAX_TEXT_LEN`].
pub open spec fn piece_bytes(encoding: Seq<char>, text: Seq<char>, span: Span) -> Option<Seq<u8>> {
    let piece = text.subrange(span.start as int, span.end as int);
    if encode_utf8(piece).len() <= MAX_TEXT_LEN {
        Some(encoded_text(encoding, piece).0)
    } else {
        None
    }
}

/// Whether the check is what the test compiles to: the same test over the
/// encoded names and values, or `Never` where a name or value is too long to
/// encode.
pub open spec fn check_compiles(check: Check, test: Test, encoding: Seq<char>, text: Seq<char>) -> bool {
    match test {
        Test::Any => check is Any,
        Test::Nth { a, b, of_type } => check == (Check::Nth { a, b, of_type }),
        Test::LocalName(n) => match piece_bytes(encoding, text, n) {
            Some(bytes) => check matches Check::LocalName(v) && v@ == bytes,
            None => check is Never,
        },
        Test::Id(n) => match piece_bytes(encoding, text, n) {
            Some(bytes) => check matches Check::Id(v) && v@ == bytes,
            None => check is Never,
        },
        Test::Class(n) => match piece_bytes(encoding, text, n) {
            Some(bytes) => check matches Check::Class(v) && v@ == bytes,
            None => check is Never,
        },
        Test::Attribute { name, operator, value, ignore_case } => match (
            piece_bytes(encoding, text, name),
            piece_bytes(encoding, text, value),
        ) {
            (Some(n), Some(v)) => check matches Check::Attribute {
                name: cn,
                operator: co,
                value: cv,
                ignore_case: ci,
            } && cn@ == n && cv@ == v && co == operator && ci == ignore_case,
            _ => check is Never,
        },
    }
}

/// Whether the instruction is what the item compiles to for a selector with
/// the given locator: a test to its check, a combinator to itself, and a comma
/// to the end of an alternative.
pub open spec fn instruction_compiles(
    instruction: Instruction,
    item: Item,
    encoding: Seq<char>,
    text: Seq<char>,
    locator: usize,
) -> bool {
    match item {
        Item::Test { negated, test } => instruction matches Instruction::Test {
            negated: n,
            check,
        } && n == negated && check_compiles(check, test, encoding, text),
        Item::Descendant => instruction is Descendant,
        Item::Child => instruction is Child,
        Item::Adjacent => instruction is Adjacent,
        Item::Sibling => instruction is Sibling,
        Item::Or => instruction == Instruction::Emit(locator),
    }
}

/// Whether `program` is `before` with the selector compiled behind it: one
/// instruction for each item, and the locator at the end.
pub open spec fn program_extended(
    program: Seq<Instruction>,
    before: Seq<Instruction>,
    items: Seq<Item>,
    encoding: Seq<char>,
    text: Seq<char>,
    locator: usize,
) -> bool {
    &&& program.len() == before.len() + items.len() + 1
    &&& program.subrange(0, before.len() as int) == before
    &&& forall|k: int|
        0 <= k < items.len() ==> instruction_compiles(
            #[trigger] program[before.len() + k],
            items[k],
            encoding,
            text,
            locator,
        )
    &&& program[program.len() - 1] == Instruction::Emit(locator)
}

fn encode_piece(encoding: &AsciiCompatibleEncoding, text: &str, span: Span) -> (r: Option<Vec<u8>>)
    requires
        span.within(text@.len() as int),
    ensures
        match (r, piece_bytes(encoding@, text@, span)) {
            (Some(b), Some(bytes)) => b@ == bytes,
            (None, None) => true,
            _ => false,
        },
{
    let piece = text.substring_char(span.start, span.end);
    match encoding.encode(piece) {
        Some((bytes, _)) => Some(bytes),
        None => None,
    }
}

fn compile_test(encoding: &AsciiCompatibleEncoding, text: &str, test: Test) -> (r: Check)
    requires
        test_within(test, text@.len() as int),
    ensures
        check_compiles(r, test, encoding@, text@),
{
    match test {
        Test::Any => Check::Any,
        Test::Nth { a, b, of_type } => Check::Nth { a, b, of_type },
        Test::LocalName(n) => match encode_piece(encoding, text, n) {
            Some(v) => Check::LocalName(v),
            None => Check::Never,
        },
        Test::Id(n) => match encode_piece(encoding, text, n) {
            Some(v) => Check::Id(v),
            None => Check::Never,
        },
        Test::Class(n) => match encode_piece(encoding, text, n) {
            Some(v) => Check::Class(v),
            None => Check::Never,
        },
        Test::Attribute { name, operator, value, ignore_case } => {
            let n = encode_piece(encoding, text, name);
            let v = encode_piece(encoding, text, value);
            match (n, v) {
                (Some(n), Some(v)) => Check::Attribute { name: n, operator, value: v, ignore_case },
                _ => Check::Never,
            }
        },
    }
}

/// Compiles a selector behind the program, for the handlers of the given
/// locator.
pub fn add_selector(
    program: &mut Vec<Instruction>,
    selector: &Selector,
    encoding: &AsciiCompatibleEncoding,
    locator: usize,
)
    ensures
        program_extended(
            final(program)@,
            old(program)@,
            selector.items(),
            encoding@,
            selector.text(),
            locator,
        ),
{
    let items = selector.as_items();
    let text = selector.as_str();
    let ghost before = program@;
    let mut k: usize = 0;
    while k < items.len()
        invariant
            k <= items@.len(),
            items@ == selector.items(),
            text@ == selector.text(),
            items_within(items@, text@.len() as int),
            program@.len() == before.len() + k,
            program@.subrange(0, before.len() as int) == before,
            forall|j: int|
                0 <= j < k ==> instruction_compiles(
                    #[trigger] program@[before.len() + j],
                    items@[j],
                    encoding@,
                    text@,
                    locator,
                ),
        decreases items@.len() - k,
    {
        let ghost so_far = program@;
        let instruction = match items[k] {
            Item::Test { negated, test } => Instruction::Test {
                negated,
                check: compile_test(encoding, text, test),
            },
            Item::Descendant => Instruction::Descendant,
            Item::Child => Instruction::Child,
            Item::Adjacent => Instruction::Adjacent,
            Item::Sibling => Instruction::Sibling,
            Item::Or => Instruction::Emit(locator),
        };
        program.push(instruction);
        assert(program@.subrange(0, before.len() as int) =~= so_far.subrange(
            0,
            before.len() as int,
        ));
        assert forall|j: int| 0 <= j < k + 1 implies instruction_compiles(
            #[trigger] program@[before.len() + j],
            items@[j],
            encoding@,
            text@,
            locator,
        ) by {
            if j < k {
                assert(program@[before.len() + j] == so_far[before.len() + j]);
            }
        }
        k = k + 1;
    }
    let ghost so_far = program@;
    program.push(Instruction::Emit(locator));
    assert(program@.subrange(0, before.len() as int) =~= so_far.subrange(0, before.len() as int));
    assert forall|j: int| 0 <= j < items@.len() implies instruction_compiles(
        #[trigger] program@[before.len() + j],
        items@[j],
        encoding@,
        text@,
        locator,
    ) by {
        assert(program@[before.len() + j] == so_far[before.len() + j]);
    }
}

/// Whether a test of the program reads attributes.
pub open spec fn reads_attributes(program: Seq<Instruction>) -> bool {
    exists|i: int| 0 <= i < program.len() && reads_attributes_at(#[trigger] program[i])
}

/// Whether the instruction is a test that reads attributes.
pub open spec fn reads_attributes_at(instruction: Instruction) -> bool {
    instruction matches Instruction::Test { check, .. } && (check is Id || check is Class
        || check is Attribute)
}

/// Whether a test of the program reads the place of an element among the
/// siblings of its name.
pub open spec fn reads_types(program: Seq<Instruction>) -> bool {
    exists|i: int| 0 <= i < program.len() && reads_types_at(#[trigger] program[i])
}

/// Whether the instruction is a test of the place among siblings of one name.
pub open spec fn reads_types_at(instruction: Instruction) -> bool {
    instruction matches Instruction::Test { check: Check::Nth { of_type, .. }, .. } && of_type
}

/// Finds out whether the program reads attributes.
pub fn program_reads_attributes(program: &Vec<Instruction>) -> (r: bool)
    ensures
        r == reads_attributes(program@),
{
    let mut i: usize = 0;
    while i < program.len()
        invariant
            i <= program@.len(),
            forall|j: int| 0 <= j < i ==> !reads_attributes_at(#[trigger] program@[j]),
        decreases program@.len() - i,
    {
        let found = match &program[i] {
            Instruction::Test { check, .. } => match check {
                Check::Id(_) | Check::Class(_) | Check::Attribute { .. } => true,
                _ => false,
            },
            _ => false,
        };
        if found {
            assert(reads_attributes_at(program@[i as int]));
            return true;
        }
        i = i + 1;
    }
    false
}

/// Finds out whether the program reads places among siblings of one name.
pub fn program_reads_types(program: &Vec<Instruction>) -> (r: bool)
    ensures
        r == reads_types(program@),
{
    let mut i: usize = 0;
    while i < program.len()
        invariant
            i <= program@.len(),
            forall|j: int| 0 <= j < i ==> !reads_types_at(#[trigger] program@[j]),
        decreases program@.len() - i,
    {
        let found = match &program[i] {
            Instruction::Test { check, .. } => match check {
                Check::Nth { of_type, .. } => *of_type,
                _ => false,
            },
            _ => false,
        };
        if found {
            assert(reads_types_at(program@[i as int]));
            return true;
        }
        i = i + 1;
    }
    false
}


/// A selector that is compiled behind a program whose locators are not larger
/// than its own keeps the locators in the order of registration.
pub proof fn lemma_extended_ordered(
    program: Seq<Instruction>,
    before: Seq<Instruction>,
    items: Seq<Item>,
    encoding: Seq<char>,
    text: Seq<char>,
    locator: usize,
)
    requires
        program_extended(program, before, items, encoding, text, locator),
        crate::selectors::matching::locators_ordered(before),
        forall|i: int|
            0 <= i < before.len() ==> (#[trigger] before[i] matches Instruction::Emit(a) ==> a
                <= locator),
    ensures
        crate::selectors::matching::locators_ordered(program),
        forall|i: int|
            0 <= i < program.len() ==> (#[trigger] program[i] matches Instruction::Emit(a) ==> a
                <= locator),
{
    assert forall|i: int| 0 <= i < program.len() implies (#[trigger] program[i] matches Instruction::Emit(
        a,
    ) ==> a <= locator) by {
        if i < before.len() {
            assert(program.subrange(0, before.len() as int)[i] == before[i]);
        } else if i < program.len() - 1 {
            let k = i - before.len();
            assert(instruction_compiles(program[before.len()
                + k], items[k], encoding, text, locator));
        }
    }
    assert forall|i: int, j: int| 0 <= i <= j < program.len() implies match (
        #[trigger] program[i],
        #[trigger] program[j],
    ) {
        (Instruction::Emit(a), Instruction::Emit(b)) => a <= b,
        _ => true,
    } by {
        if j < before.len() {
            assert(program.subrange(0, before.len() as int)[i] == before[i]);
            assert(program.subrange(0, before.len() as int)[j] == before[j]);
            assert(match (before[i], before[j]) {
                (Instruction::Emit(a), Instruction::Emit(b)) => a <= b,
                _ => true,
            });
        } else if j < program.len() - 1 {
            let k = j - before.len();
            assert(instruction_compiles(program[before.len()
                + k], items[k], encoding, text, locator));
        }
    }
}


} // verus!
