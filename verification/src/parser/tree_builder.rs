//! A simulation of the tree builder, as far as the tokenizer depends on it: the
//! stack of the open elements, with their names and namespaces.

use vstd::prelude::*;
use crate::errors::MemoryLimitExceededError;
use crate::html::{
    breaks_out, breaks_out_name, is_integration_point, is_integration_point_name, is_void,
    is_void_name, namespace_in_html, namespace_in_html_for, Namespace,
};
use crate::memory::MemoryLimiter;
use crate::tokenizer::chars::same_bytes;

verus! {

/// An open element on the stack.
pub struct OpenTag {
    /// The name in lower case.
    pub name: Vec<u8>,
    /// The namespace.
    pub namespace: Namespace,
    /// Whether the content of the element is foreign content.
    pub foreign: bool,
    /// The bytes charged to the memory limiter for the stack up to and with
    /// this element.
    pub charged: usize,
}

/// The mathematical value of an [`OpenTag`].
pub struct OpenTagView {
    pub name: Seq<u8>,
    pub namespace: Namespace,
    pub foreign: bool,
    pub charged: usize,
}

impl View for OpenTag {
    type V = OpenTagView;

    open spec fn view(&self) -> OpenTagView {
        OpenTagView {
            name: self.name@,
            namespace: self.namespace,
            foreign: self.foreign,
            charged: self.charged,
        }
    }
}

/// The bytes charged for an open element beside its name.
pub const TAG_OVERHEAD: usize = 32;

/// Whether the innermost open element has foreign content.
pub open spec fn in_foreign_content(open: Seq<OpenTagView>) -> bool {
    open.len() > 0 && open.last().foreign
}

/// The bytes charged for the whole stack.
pub open spec fn charged_for(open: Seq<OpenTagView>) -> int {
    if open.len() > 0 {
        open.last().charged as int
    } else {
        0
    }
}

/// The namespace of an element with the given name, in lower case, that opens
/// inside the open elements. In foreign content an element has the namespace
/// of its parent, unless its start tag is one that ends foreign content: such
/// an element is an HTML element. Elsewhere `svg` and `math` begin foreign
/// content.
pub open spec fn namespace_for(open: Seq<OpenTagView>, name: Seq<u8>) -> Namespace {
    if in_foreign_content(open) && !breaks_out(name) {
        open.last().namespace
    } else {
        namespace_in_html(name)
    }
}

/// Whether content and an end tag can follow the start tag: not in an HTML
/// element without content, and not behind `/>` in foreign content.
pub open spec fn stays_open(namespace: Namespace, name: Seq<u8>, self_closing: bool) -> bool {
    if namespace == Namespace::Html {
        !is_void(name)
    } else {
        !self_closing
    }
}

/// The bytes that a start tag charges: those of its name and the overhead, if
/// the element stays open.
pub open spec fn start_cost(open: Seq<OpenTagView>, name: Seq<u8>, self_closing: bool) -> int {
    if stays_open(namespace_for(open, name), name, self_closing) {
        TAG_OVERHEAD + name.len()
    } else {
        0
    }
}

/// The stack after a start tag with the given name, in lower case.
pub open spec fn open_after_start(open: Seq<OpenTagView>, name: Seq<u8>, self_closing: bool) -> Seq<
    OpenTagView,
> {
    let namespace = namespace_for(open, name);
    if stays_open(namespace, name, self_closing) {
        open.push(
            OpenTagView {
                name,
                namespace,
                foreign: namespace != Namespace::Html && !is_integration_point(namespace, name),
                charged: (charged_for(open) + TAG_OVERHEAD + name.len()) as usize,
            },
        )
    } else {
        open
    }
}

/// How many elements an end tag with the given name, in lower case, closes:
/// the innermost open element of that name and all that are open inside it;
/// none if no element of that name is open.
pub open spec fn closing_depth(open: Seq<OpenTagView>, name: Seq<u8>) -> nat
    decreases open.len(),
{
    if open.len() == 0 {
        0
    } else if open.last().name == name {
        1
    } else {
        let below = closing_depth(open.drop_last(), name);
        if below == 0 {
            0
        } else {
            below + 1
        }
    }
}

pub proof fn lemma_closing_depth_bound(open: Seq<OpenTagView>, name: Seq<u8>)
    ensures
        closing_depth(open, name) <= open.len(),
    decreases open.len(),
{
    if open.len() > 0 && open.last().name != name {
        lemma_closing_depth_bound(open.drop_last(), name);
    }
}

/// The stack after an end tag with the given name, in lower case.
pub open spec fn open_after_end(open: Seq<OpenTagView>, name: Seq<u8>) -> Seq<OpenTagView> {
    open.take(open.len() - closing_depth(open, name))
}

/// The values of the entries of a stack.
pub open spec fn views(open: Seq<OpenTag>) -> Seq<OpenTagView> {
    open.map_values(|t: OpenTag| t@)
}

/// No entry charges less than an entry below it.
pub open spec fn charges_grow(open: Seq<OpenTagView>) -> bool {
    forall|a: int, b: int|
        0 <= a <= b < open.len() ==> (#[trigger] open[a]).charged <= (#[trigger] open[b]).charged
}

/// The stack of the open elements.
pub struct TreeBuilderSimulator {
    open: Vec<OpenTag>,
}

impl View for TreeBuilderSimulator {
    type V = Seq<OpenTagView>;

    closed spec fn view(&self) -> Seq<OpenTagView> {
        views(self.open@)
    }
}

impl TreeBuilderSimulator {
    /// The stack is consistent.
    pub closed spec fn wf(&self) -> bool {
        charges_grow(views(self.open@))
    }

    /// The bytes charged to the memory limiter for the stack.
    pub open spec fn charged(&self) -> int {
        charged_for(self@)
    }

    /// A stack with no element open.
    pub fn new() -> (r: TreeBuilderSimulator)
        ensures
            r.wf(),
            r@ == Seq::<OpenTagView>::empty(),
    {
        let r = TreeBuilderSimulator { open: Vec::new() };
        assert(views(r.open@) =~= Seq::<OpenTagView>::empty());
        r
    }

    /// The bytes charged to the memory limiter for the stack.
    pub fn charged_bytes(&self) -> (r: usize)
        ensures
            r == self.charged(),
    {
        if self.open.len() > 0 {
            self.open[self.open.len() - 1].charged
        } else {
            0
        }
    }

    /// How many elements are open.
    pub fn depth(&self) -> (r: usize)
        ensures
            r == self@.len(),
    {
        self.open.len()
    }

    /// Whether the innermost open element has foreign content.
    pub fn is_in_foreign_content(&self) -> (r: bool)
        ensures
            r == in_foreign_content(self@),
    {
        self.open.len() > 0 && self.open[self.open.len() - 1].foreign
    }

    /// The namespace of an element with the given name that opens now.
    pub fn namespace_of(&self, name: &[u8]) -> (r: Namespace)
        requires
            name@ == crate::tokenizer::chars::lower_seq(name@),
        ensures
            r == namespace_for(self@, name@),
    {
        if self.is_in_foreign_content() && !breaks_out_name(name) {
            self.open[self.open.len() - 1].namespace
        } else {
            namespace_in_html_for(name)
        }
    }

    /// Takes a start tag with the given name, in lower case: the element is put
    /// on the stack if it stays open. Gives the namespace of the element, and
    /// whether it stays open.
    ///
    /// Fails, and changes nothing, if the memory limit does not allow what the
    /// start tag costs.
    pub fn start_tag(&mut self, name: Vec<u8>, self_closing: bool, limiter: &mut MemoryLimiter) -> (r:
        Result<(Namespace, bool), MemoryLimitExceededError>)
        requires
            old(self).wf(),
            name@ == crate::tokenizer::chars::lower_seq(name@),
            old(self).charged() <= old(limiter).usage(),
        ensures
            final(self).wf(),
            final(limiter).limit() == old(limiter).limit(),
            final(self).charged() <= final(limiter).usage(),
            final(limiter).usage() - final(self).charged()
                == old(limiter).usage() - old(self).charged(),
            r is Err <==> old(limiter).usage() + start_cost(old(self)@, name@, self_closing) > old(
                limiter,
            ).limit(),
            r is Err ==> final(self)@ == old(self)@,
            r matches Ok(found) ==> {
                &&& found.0 == namespace_for(old(self)@, name@)
                &&& found.1 == stays_open(found.0, name@, self_closing)
                &&& final(self)@ == open_after_start(old(self)@, name@, self_closing)
            },
    {
        let namespace = self.namespace_of(name.as_slice());
        let stays = if namespace == Namespace::Html {
            !is_void_name(name.as_slice())
        } else {
            !self_closing
        };
        proof {
            limiter.lemma_within_limit();
        }
        if !stays {
            return Ok((namespace, false));
        }
        let limit: usize = limiter.max_allowed();
        let cost: u128 = TAG_OVERHEAD as u128 + name.len() as u128;
        if cost > usize::MAX as u128 {
            return Err(MemoryLimitExceededError);
        }
        match limiter.increase_usage(cost as usize) {
            Err(e) => {
                return Err(e);
            },
            Ok(()) => {},
        }
        let foreign = namespace != Namespace::Html && !is_integration_point_name(
            namespace,
            name.as_slice(),
        );
        let charged: usize = self.charged_bytes() + (cost as usize);
        let ghost before = views(self.open@);
        let entry = OpenTag { name, namespace, foreign, charged };
        self.open.push(entry);
        proof {
            assert(views(self.open@) =~= before.push(entry@));
            assert forall|a: int, b: int| 0 <= a <= b < views(self.open@).len() implies (
            #[trigger] views(self.open@)[a]).charged <= (#[trigger] views(self.open@)[b]).charged by {
                if b < before.len() {
                    assert(before[a].charged <= before[b].charged);
                } else if a < before.len() {
                    assert(before[a].charged <= before[before.len() - 1].charged);
                }
            }
        }
        Ok((namespace, true))
    }

    /// Takes an end tag with the given name, in lower case: closes the elements
    /// that it closes and says how many they are.
    pub fn end_tag(&mut self, name: &[u8], limiter: &mut MemoryLimiter) -> (r: usize)
        requires
            old(self).wf(),
            old(self).charged() <= old(limiter).usage(),
        ensures
            final(self).wf(),
            final(limiter).limit() == old(limiter).limit(),
            r == closing_depth(old(self)@, name@),
            r <= old(self)@.len(),
            final(self)@ == open_after_end(old(self)@, name@),
            final(self).charged() <= old(self).charged(),
            final(limiter).usage() - final(self).charged()
                == old(limiter).usage() - old(self).charged(),
    {
        let len: usize = self.open.len();
        let ghost before = views(self.open@);
        proof {
            lemma_closing_depth_bound(before, name@);
        }
        // Look for the innermost open element of that name.
        let mut i: usize = len;
        let mut found: bool = false;
        assert(before.take(len as int) =~= before);
        while i > 0 && !found
            invariant
                len == self.open@.len(),
                before == views(self.open@),
                i <= len,
                found ==> i > 0 && before[i - 1].name == name@,
                closing_depth(before, name@) == if closing_depth(before.take(i as int), name@)
                    == 0 {
                    0
                } else {
                    closing_depth(before.take(i as int), name@) + (len - i)
                },
            decreases i + (if found { 0int } else { 1int }),
        {
            proof {
                let here = before.take(i as int);
                assert(here.last() == before[i - 1]);
                assert(here.drop_last() =~= before.take(i - 1));
                assert(before[i - 1].name == self.open@[i - 1].name@);
            }
            if same_bytes(self.open[i - 1].name.as_slice(), name) {
                found = true;
            } else {
                i = i - 1;
            }
        }
        if !found {
            assert(before.take(0).len() == 0);
            assert(before.take(len as int) =~= before);
            return 0;
        }
        proof {
            let here = before.take(i as int);
            assert(here.last() == before[i - 1]);
        }
        let count: usize = len - i + 1;
        let charged_before = self.charged_bytes();
        let mut k: usize = 0;
        while k < count
            invariant
                k <= count <= len,
                len == before.len(),
                self.open@.len() == len - k,
                views(self.open@) == before.take(len - k),
            decreases count - k,
        {
            let ghost previous = self.open@;
            let _closed = self.open.pop();
            k = k + 1;
            assert(self.open@ =~= previous.drop_last());
            assert(views(self.open@) =~= views(previous).drop_last());
            assert(views(self.open@) =~= before.take(len - k));
        }
        let charged_after = self.charged_bytes();
        proof {
            let after = views(self.open@);
            assert forall|a: int, b: int| 0 <= a <= b < after.len() implies (#[trigger] after[a]).charged
                <= (#[trigger] after[b]).charged by {
                assert(before[a].charged <= before[b].charged);
            }
            if after.len() > 0 {
                assert(before[after.len() - 1].charged <= before[len - 1].charged);
            }
        }
        limiter.decrease_usage(charged_before - charged_after);
        count
    }

    /// Closes every element that is open, as the end of the document does.
    pub fn close_all(&mut self, limiter: &mut MemoryLimiter)
        requires
            old(self).wf(),
            old(self).charged() <= old(limiter).usage(),
        ensures
            final(self).wf(),
            final(self)@ == Seq::<OpenTagView>::empty(),
            final(limiter).limit() == old(limiter).limit(),
            final(limiter).usage() == old(limiter).usage() - old(self).charged(),
    {
        let charged = self.charged_bytes();
        self.open = Vec::new();
        assert(views(self.open@) =~= Seq::<OpenTagView>::empty());
        limiter.decrease_usage(charged);
    }
}

} // verus!
