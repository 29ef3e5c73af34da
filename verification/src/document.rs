//! The document capability the reconciler works against, and the
//! mathematical model of a head that its contracts are stated over.

use crate::sequences::{lemma_filter_contains, lemma_filter_no_duplicates};
use vstd::prelude::*;

verus! {

/// A handle to an element that a document has created or handed out.
pub type ElementId = usize;

/// What a document records for one element.
pub struct ElementView {
    pub tag: Seq<char>,
    pub attributes: Map<Seq<char>, Seq<char>>,
    pub content: Seq<char>,
}

impl ElementView {
    /// A freshly created element: no attributes, no content.
    pub open spec fn blank(tag: Seq<char>) -> ElementView {
        ElementView { tag, attributes: Map::empty(), content: Seq::empty() }
    }

    /// The value of the attribute `name`, if the element carries it.
    pub open spec fn attribute(self, name: Seq<char>) -> Option<Seq<char>> {
        if self.attributes.dom().contains(name) {
            Some(self.attributes[name])
        } else {
            None
        }
    }
}

/// The model of a document's head.
///
/// `elements` holds every element the document knows, in the order in which
/// they were created; a handle is an index into it. `children` lists the
/// handles of the elements attached to the head, in document order. An element
/// that was created and never appended, or that was removed, is known but is
/// not a child.
pub struct HeadView {
    pub elements: Seq<ElementView>,
    pub children: Seq<int>,
}

impl HeadView {
    /// Whether `e` is the handle of a known element.
    pub open spec fn knows(self, e: int) -> bool {
        0 <= e < self.elements.len()
    }

    /// No element is attached twice, and every child is a known element.
    pub open spec fn wf(self) -> bool {
        &&& self.children.no_duplicates()
        &&& forall|i: int| 0 <= i < self.children.len() ==> self.knows(#[trigger] self.children[i])
    }

    /// The predicate "is an element of kind `tag`".
    pub open spec fn has_tag(self, tag: Seq<char>) -> spec_fn(int) -> bool {
        |e: int| self.elements[e].tag == tag
    }

    /// The predicate "carries the attribute `name` with the value `value`".
    pub open spec fn has_attribute(self, name: Seq<char>, value: Seq<char>) -> spec_fn(int) -> bool {
        |e: int| self.elements[e].attribute(name) == Some(value)
    }

    /// The children of kind `tag`, in document order.
    pub open spec fn tagged(self, tag: Seq<char>) -> Seq<int> {
        self.children.filter(self.has_tag(tag))
    }

    /// The children whose `id` attribute is `id`, in document order.
    pub open spec fn identified(self, id: Seq<char>) -> Seq<int> {
        self.children.filter(self.has_attribute("id"@, id))
    }

    /// The first child whose `id` attribute is `id`.
    pub open spec fn by_id(self, id: Seq<char>) -> Option<int> {
        let found = self.identified(id);
        if found.len() > 0 {
            Some(found[0])
        } else {
            None
        }
    }

    /// The head after a new, detached element of kind `tag` was created. Its
    /// handle is the number of elements known before.
    pub open spec fn create(self, tag: Seq<char>) -> HeadView {
        HeadView { elements: self.elements.push(ElementView::blank(tag)), ..self }
    }

    /// The head after the attribute `name` of `e` was set to `value`.
    pub open spec fn set_attribute(self, e: int, name: Seq<char>, value: Seq<char>) -> HeadView {
        let old = self.elements[e];
        HeadView {
            elements: self.elements.update(
                e,
                ElementView { attributes: old.attributes.insert(name, value), ..old },
            ),
            ..self
        }
    }

    /// The head after the inner content of `e` was replaced by `text`.
    pub open spec fn set_content(self, e: int, text: Seq<char>) -> HeadView {
        HeadView {
            elements: self.elements.update(e, ElementView { content: text, ..self.elements[e] }),
            ..self
        }
    }

    /// The head after `e` became its last child. An element that was already
    /// a child moves to the end.
    pub open spec fn append(self, e: int) -> HeadView {
        HeadView { children: self.children.filter(other_than(e)).push(e), ..self }
    }

    /// The head after `e` was detached from it.
    pub open spec fn remove(self, e: int) -> HeadView {
        HeadView { children: self.children.filter(other_than(e)), ..self }
    }

    /// The head after every child of which `gone` holds was detached from it.
    pub open spec fn without(self, gone: spec_fn(int) -> bool) -> HeadView {
        HeadView { children: self.children.filter(negate(gone)), ..self }
    }
}

/// The children of one kind are children, each once, and they are all the
/// children of that kind.
pub proof fn lemma_tagged(head: HeadView, tag: Seq<char>)
    requires
        head.wf(),
    ensures
        head.tagged(tag).no_duplicates(),
        forall|i: int|
            0 <= i < head.tagged(tag).len() ==> {
                let e = #[trigger] head.tagged(tag)[i];
                head.children.contains(e) && head.knows(e) && head.elements[e].tag == tag
            },
        forall|e: int|
            head.children.contains(e) && head.elements[e].tag == tag ==> head.tagged(tag).contains(e),
{
    let found = head.tagged(tag);
    lemma_filter_no_duplicates(head.children, head.has_tag(tag));
    assert forall|i: int| 0 <= i < found.len() implies {
        let e = #[trigger] found[i];
        head.children.contains(e) && head.knows(e) && head.elements[e].tag == tag
    } by {
        lemma_filter_contains(head.children, head.has_tag(tag), found[i]);
    }
    assert forall|e: int|
        head.children.contains(e) && head.elements[e].tag == tag implies found.contains(e) by {
        lemma_filter_contains(head.children, head.has_tag(tag), e);
    }
}

/// The element found by an identifier is a child that carries it, and where
/// none is found no child carries it.
pub proof fn lemma_by_id(head: HeadView, id: Seq<char>)
    requires
        head.wf(),
    ensures
        match head.by_id(id) {
            Some(e) => head.children.contains(e) && head.knows(e) && head.elements[e].attribute(
                "id"@,
            ) == Some(id),
            None => forall|e: int|
                head.children.contains(e) ==> head.elements[e].attribute("id"@) != Some(id),
        },
{
    let carries = head.has_attribute("id"@, id);
    let found = head.identified(id);
    if found.len() > 0 {
        lemma_filter_contains(head.children, carries, found[0]);
    } else {
        assert forall|e: int| head.children.contains(e) implies head.elements[e].attribute("id"@)
            != Some(id) by {
            lemma_filter_contains(head.children, carries, e);
        }
    }
}

/// Detaching children leaves a well-formed head well-formed, and its children
/// are those of before of which `gone` does not hold.
pub proof fn lemma_without(head: HeadView, gone: spec_fn(int) -> bool)
    requires
        head.wf(),
    ensures
        head.without(gone).wf(),
        forall|e: int|
            head.without(gone).children.contains(e) <==> head.children.contains(e) && !gone(e),
{
    let after = head.without(gone);
    lemma_filter_no_duplicates(head.children, negate(gone));
    assert forall|e: int| after.children.contains(e) <==> head.children.contains(e) && !gone(
        e,
    ) by {
        lemma_filter_contains(head.children, negate(gone), e);
    }
    assert forall|i: int| 0 <= i < after.children.len() implies after.knows(
        #[trigger] after.children[i],
    ) by {
        assert(after.children.contains(after.children[i]));
    }
}

/// The predicate "is not `e`".
pub open spec fn other_than(e: int) -> spec_fn(int) -> bool {
    |c: int| c != e
}

/// The predicate that holds where `p` does not.
pub open spec fn negate(p: spec_fn(int) -> bool) -> spec_fn(int) -> bool {
    |e: int| !p(e)
}

/// The predicate that holds where both `p` and `q` do.
pub open spec fn both(p: spec_fn(int) -> bool, q: spec_fn(int) -> bool) -> spec_fn(int) -> bool {
    |e: int| p(e) && q(e)
}

/// The predicate "is one of `listed`".
pub open spec fn among(listed: Seq<int>) -> spec_fn(int) -> bool {
    |e: int| listed.contains(e)
}

/// Handles as the model counts them.
pub open spec fn handles(ids: Seq<ElementId>) -> Seq<int> {
    ids.map_values(|e: ElementId| e as int)
}

/// The operations of a document that can be refused.
#[derive(Clone, Copy, Debug, PartialEq, Eq, Structural)]
pub enum DomOperation {
    CreateElement,
    SetAttribute,
    AppendChild,
    RemoveChild,
}

/// The one kind of error there is: the document refused an operation.
#[derive(Clone, Copy, Debug, PartialEq, Eq, Structural)]
pub struct DomOperationError {
    pub operation: DomOperation,
}

/// A document is well-formed when its own invariant holds and the head that
/// it shows is well-formed.
pub open spec fn well_formed<D: HeadDocument>(doc: D) -> bool {
    doc.inv() && doc@.wf()
}

/// A document, as far as the reconciler needs one: it creates elements, sets
/// their attributes and content, attaches them to the head and detaches them,
/// and answers queries about the head's children.
///
/// Every operation is total. One that can be refused says exactly when it is,
/// and leaves the document as it was when it is. The contracts hold of
/// well-formed documents, and every operation keeps a document well-formed.
pub trait HeadDocument: Sized {
    /// The head as the contracts see it.
    open spec fn view(&self) -> HeadView {
        arbitrary()
    }

    /// What the implementation keeps true of itself. An implementation that
    /// is verified states it here. Of one that is not, which leaves it at
    /// this default, nothing is promised: no contract of this trait applies
    /// to it.
    open spec fn inv(&self) -> bool {
        false
    }

    /// The names this kind of document accepts for an element.
    open spec fn valid_tag_name(name: Seq<char>) -> bool {
        true
    }

    /// The names this kind of document accepts for an attribute.
    open spec fn valid_attribute_name(name: Seq<char>) -> bool {
        true
    }

    /// Creates a detached element of kind `tag_name`. Refused exactly when the
    /// name is not a valid tag name.
    fn create_element(&mut self, tag_name: &str) -> (r: Result<ElementId, DomOperationError>)
        requires
            old(self).inv(),
            old(self)@.wf(),
        ensures
            final(self).inv(),
            final(self)@.wf(),
            match r {
                Ok(e) => {
                    &&& Self::valid_tag_name(tag_name@)
                    &&& e == old(self)@.elements.len()
                    &&& final(self)@ == old(self)@.create(tag_name@)
                },
                Err(err) => {
                    &&& !Self::valid_tag_name(tag_name@)
                    &&& err == (DomOperationError { operation: DomOperation::CreateElement })
                    &&& final(self)@ == old(self)@
                },
            },
    ;

    /// Sets the attribute `name` of `element` to `value`. Refused exactly when
    /// the handle is unknown or the name is not a valid attribute name.
    fn set_attribute(&mut self, element: ElementId, name: &str, value: &str) -> (r: Result<
        (),
        DomOperationError,
    >)
        requires
            old(self).inv(),
            old(self)@.wf(),
        ensures
            final(self).inv(),
            final(self)@.wf(),
            match r {
                Ok(_) => {
                    &&& old(self)@.knows(element as int)
                    &&& Self::valid_attribute_name(name@)
                    &&& final(self)@ == old(self)@.set_attribute(element as int, name@, value@)
                },
                Err(err) => {
                    &&& !(old(self)@.knows(element as int) && Self::valid_attribute_name(name@))
                    &&& err == (DomOperationError { operation: DomOperation::SetAttribute })
                    &&& final(self)@ == old(self)@
                },
            },
    ;

    /// Replaces the inner content of `element` by `text`. An unknown handle
    /// is ignored.
    fn set_inner_content(&mut self, element: ElementId, text: &str)
        requires
            old(self).inv(),
            old(self)@.wf(),
        ensures
            final(self).inv(),
            final(self)@.wf(),
            final(self)@ == if old(self)@.knows(element as int) {
                old(self)@.set_content(element as int, text@)
            } else {
                old(self)@
            },
    ;

    /// Makes `element` the last child of the head. Refused exactly when the
    /// handle is unknown.
    fn append_child(&mut self, element: ElementId) -> (r: Result<(), DomOperationError>)
        requires
            old(self).inv(),
            old(self)@.wf(),
        ensures
            final(self).inv(),
            final(self)@.wf(),
            match r {
                Ok(_) => {
                    &&& old(self)@.knows(element as int)
                    &&& final(self)@ == old(self)@.append(element as int)
                },
                Err(err) => {
                    &&& !old(self)@.knows(element as int)
                    &&& err == (DomOperationError { operation: DomOperation::AppendChild })
                    &&& final(self)@ == old(self)@
                },
            },
    ;

    /// Detaches `element` from the head. Refused exactly when it is not a
    /// child of the head.
    fn remove_child(&mut self, element: ElementId) -> (r: Result<(), DomOperationError>)
        requires
            old(self).inv(),
            old(self)@.wf(),
        ensures
            final(self).inv(),
            final(self)@.wf(),
            match r {
                Ok(_) => {
                    &&& old(self)@.children.contains(element as int)
                    &&& final(self)@ == old(self)@.remove(element as int)
                },
                Err(err) => {
                    &&& !old(self)@.children.contains(element as int)
                    &&& err == (DomOperationError { operation: DomOperation::RemoveChild })
                    &&& final(self)@ == old(self)@
                },
            },
    ;

    /// The children of kind `tag_name`, in document order.
    fn elements_by_tag_name(&self, tag_name: &str) -> (r: Vec<ElementId>)
        requires
            self.inv(),
            self@.wf(),
        ensures
            handles(r@) == self@.tagged(tag_name@),
    ;

    /// The first child whose `id` attribute is `id`.
    fn element_by_id(&self, id: &str) -> (r: Option<ElementId>)
        requires
            self.inv(),
            self@.wf(),
        ensures
            match r {
                Some(e) => self@.by_id(id@) == Some(e as int),
                None => self@.by_id(id@) is None,
            },
    ;

    /// The value of the attribute `name` of `element`; none for an unknown
    /// handle.
    fn attribute(&self, element: ElementId, name: &str) -> (r: Option<String>)
        requires
            self.inv(),
            self@.wf(),
        ensures
            match r {
                Some(value) => {
                    &&& self@.knows(element as int)
                    &&& self@.elements[element as int].attribute(name@) == Some(value@)
                },
                None => !self@.knows(element as int) || self@.elements[element as int].attribute(
                    name@,
                ) is None,
            },
    ;
}

} // verus!
