//! A document held in memory: enough of one to run the reconciler without a
//! browser.

use crate::document::{
    handles, other_than, well_formed, DomOperation, DomOperationError, ElementId, ElementView,
    HeadDocument, HeadView,
};
use crate::sequences::{
    lemma_filter_all, lemma_filter_contains, lemma_filter_first, lemma_filter_no_duplicates,
    lemma_filter_none, lemma_filter_push, lemma_remove_is_filter,
};
use vstd::prelude::*;

verus! {

/// The attributes an ordered list of pairs stands for: each name with the
/// value of its last pair.
pub open spec fn attribute_map(pairs: Seq<(String, String)>) -> Map<Seq<char>, Seq<char>>
    decreases pairs.len(),
{
    if pairs.len() == 0 {
        Map::empty()
    } else {
        attribute_map(pairs.drop_last()).insert(pairs.last().0@, pairs.last().1@)
    }
}

/// No name occurs in two pairs.
pub open spec fn distinct_names(pairs: Seq<(String, String)>) -> bool {
    forall|i: int, j: int|
        0 <= i < j < pairs.len() ==> (#[trigger] pairs[i]).0@ != (#[trigger] pairs[j]).0@
}

/// A name that no pair has is the name of no attribute.
proof fn lemma_attribute_absent(pairs: Seq<(String, String)>, name: Seq<char>)
    requires
        forall|i: int| 0 <= i < pairs.len() ==> (#[trigger] pairs[i]).0@ != name,
    ensures
        !attribute_map(pairs).dom().contains(name),
    decreases pairs.len(),
{
    if pairs.len() > 0 {
        lemma_attribute_absent(pairs.drop_last(), name);
    }
}

/// Where no name occurs twice, each pair gives its name its value.
proof fn lemma_attribute_present(pairs: Seq<(String, String)>, i: int)
    requires
        distinct_names(pairs),
        0 <= i < pairs.len(),
    ensures
        attribute_map(pairs).dom().contains(pairs[i].0@),
        attribute_map(pairs)[pairs[i].0@] == pairs[i].1@,
    decreases pairs.len(),
{
    if i < pairs.len() - 1 {
        lemma_attribute_present(pairs.drop_last(), i);
    }
}

/// Replacing a pair by one of the same name sets the attribute of that name.
proof fn lemma_attribute_update(pairs: Seq<(String, String)>, i: int, pair: (String, String))
    requires
        distinct_names(pairs),
        0 <= i < pairs.len(),
        pair.0@ == pairs[i].0@,
    ensures
        distinct_names(pairs.update(i, pair)),
        attribute_map(pairs.update(i, pair)) == attribute_map(pairs).insert(pair.0@, pair.1@),
    decreases pairs.len(),
{
    let after = pairs.update(i, pair);
    let rest = pairs.drop_last();
    if i == pairs.len() - 1 {
        assert(after.drop_last() =~= rest);
    } else {
        lemma_attribute_update(rest, i, pair);
        assert(after.drop_last() =~= rest.update(i, pair));
    }
}

/// Adding a pair with a new name sets the attribute of that name.
proof fn lemma_attribute_push(pairs: Seq<(String, String)>, pair: (String, String))
    requires
        distinct_names(pairs),
        forall|i: int| 0 <= i < pairs.len() ==> (#[trigger] pairs[i]).0@ != pair.0@,
    ensures
        distinct_names(pairs.push(pair)),
        attribute_map(pairs.push(pair)) == attribute_map(pairs).insert(pair.0@, pair.1@),
{
    assert(pairs.push(pair).drop_last() =~= pairs);
}

/// One element of a [`MemoryDocument`].
pub struct MemoryElement {
    tag: String,
    attributes: Vec<(String, String)>,
    content: String,
}

impl MemoryElement {
    /// The element as the model sees it.
    pub closed spec fn view(&self) -> ElementView {
        ElementView {
            tag: self.tag@,
            attributes: attribute_map(self.attributes@),
            content: self.content@,
        }
    }

    /// Each attribute is stored once.
    pub closed spec fn wf(&self) -> bool {
        distinct_names(self.attributes@)
    }

    /// Where the attribute `name` is stored, if the element carries it.
    fn find(&self, name: &str) -> (r: Option<usize>)
        ensures
            match r {
                Some(i) => i < self.attributes.len() && self.attributes[i as int].0@ == name@,
                None => forall|i: int|
                    0 <= i < self.attributes.len() ==> (#[trigger] self.attributes[i]).0@ != name@,
            },
    {
        let mut i: usize = 0;
        while i < self.attributes.len()
            invariant
                i <= self.attributes.len(),
                forall|j: int| 0 <= j < i ==> (#[trigger] self.attributes[j]).0@ != name@,
            decreases self.attributes.len() - i,
        {
            if self.attributes[i].0.as_str().eq(name) {
                return Some(i);
            }
            i += 1;
        }
        None
    }

    /// The value of the attribute `name`, if the element carries it.
    fn get(&self, name: &str) -> (r: Option<&String>)
        requires
            self.wf(),
        ensures
            match r {
                Some(value) => self@.attribute(name@) == Some(value@),
                None => self@.attribute(name@) is None,
            },
    {
        match self.find(name) {
            Some(i) => {
                proof {
                    lemma_attribute_present(self.attributes@, i as int);
                }
                Some(&self.attributes[i].1)
            },
            None => {
                proof {
                    lemma_attribute_absent(self.attributes@, name@);
                }
                None
            },
        }
    }
}

/// A document in memory. It accepts every name but the empty one.
pub struct MemoryDocument {
    elements: Vec<MemoryElement>,
    children: Vec<ElementId>,
}

impl MemoryDocument {
    /// A document that knows no element.
    pub fn new() -> (r: MemoryDocument)
        ensures
            well_formed(r),
            r@.elements.len() == 0,
            r@.children.len() == 0,
    {
        MemoryDocument { elements: Vec::new(), children: Vec::new() }
    }

    /// The number of elements the document knows, attached or not.
    pub fn len(&self) -> (r: usize)
        ensures
            r == self@.elements.len(),
    {
        self.elements.len()
    }

    /// The children of the head, in document order.
    pub fn children(&self) -> (r: Vec<ElementId>)
        ensures
            handles(r@) == self@.children,
    {
        self.children.clone()
    }

    /// The kind of `element`; none for an unknown handle.
    pub fn tag_name(&self, element: ElementId) -> (r: Option<String>)
        ensures
            match r {
                Some(name) => self@.knows(element as int) && name@
                    == self@.elements[element as int].tag,
                None => !self@.knows(element as int),
            },
    {
        if element < self.elements.len() {
            Some(self.elements[element].tag.clone())
        } else {
            None
        }
    }

    /// The inner content of `element`; none for an unknown handle.
    pub fn inner_content(&self, element: ElementId) -> (r: Option<String>)
        ensures
            match r {
                Some(text) => self@.knows(element as int) && text@
                    == self@.elements[element as int].content,
                None => !self@.knows(element as int),
            },
    {
        if element < self.elements.len() {
            Some(self.elements[element].content.clone())
        } else {
            None
        }
    }

    /// Where `element` stands among the children, if it is one.
    fn position(&self, element: ElementId) -> (r: Option<usize>)
        ensures
            match r {
                Some(i) => i < self.children.len() && self.children[i as int] == element,
                None => !self@.children.contains(element as int),
            },
    {
        let mut i: usize = 0;
        while i < self.children.len()
            invariant
                i <= self.children.len(),
                forall|j: int| 0 <= j < i ==> self.children[j] != element,
            decreases self.children.len() - i,
        {
            if self.children[i] == element {
                return Some(i);
            }
            i += 1;
        }
        None
    }
}

impl HeadDocument for MemoryDocument {
    closed spec fn view(&self) -> HeadView {
        HeadView {
            elements: self.elements@.map_values(|el: MemoryElement| el@),
            children: handles(self.children@),
        }
    }

    closed spec fn inv(&self) -> bool {
        forall|i: int| 0 <= i < self.elements.len() ==> (#[trigger] self.elements[i]).wf()
    }

    open spec fn valid_tag_name(name: Seq<char>) -> bool {
        name.len() > 0
    }

    open spec fn valid_attribute_name(name: Seq<char>) -> bool {
        name.len() > 0
    }

    fn create_element(&mut self, tag_name: &str) -> (r: Result<ElementId, DomOperationError>) {
        if tag_name.is_empty() {
            return Err(DomOperationError { operation: DomOperation::CreateElement });
        }
        let e = self.elements.len();
        self.elements.push(
            MemoryElement {
                tag: tag_name.to_owned(),
                attributes: Vec::new(),
                content: String::new(),
            },
        );
        assert(self@.elements =~= old(self)@.create(tag_name@).elements);
        Ok(e)
    }

    fn set_attribute(&mut self, element: ElementId, name: &str, value: &str) -> (r: Result<
        (),
        DomOperationError,
    >) {
        if element >= self.elements.len() || name.is_empty() {
            return Err(DomOperationError { operation: DomOperation::SetAttribute });
        }
        let ghost before = self.elements[element as int].attributes@;
        match self.elements[element].find(name) {
            Some(i) => {
                let pair = (name.to_owned(), value.to_owned());
                proof {
                    lemma_attribute_update(before, i as int, pair);
                }
                self.elements[element].attributes[i] = pair;
            },
            None => {
                let pair = (name.to_owned(), value.to_owned());
                proof {
                    lemma_attribute_push(before, pair);
                }
                self.elements[element].attributes.push(pair);
            },
        }
        assert(self@.elements =~= old(self)@.set_attribute(element as int, name@, value@).elements);
        Ok(())
    }

    fn set_inner_content(&mut self, element: ElementId, text: &str) {
        if element < self.elements.len() {
            self.elements[element].content = text.to_owned();
            assert(self@.elements =~= old(self)@.set_content(element as int, text@).elements);
        }
    }

    fn append_child(&mut self, element: ElementId) -> (r: Result<(), DomOperationError>) {
        if element >= self.elements.len() {
            return Err(DomOperationError { operation: DomOperation::AppendChild });
        }
        let ghost other = other_than(element as int);
        match self.position(element) {
            Some(i) => {
                proof {
                    lemma_remove_is_filter(old(self)@.children, i as int);
                }
                self.children.remove(i);
            },
            None => {
                proof {
                    lemma_filter_all(old(self)@.children, other);
                }
            },
        }
        proof {
            lemma_filter_no_duplicates(old(self)@.children, other);
            lemma_filter_contains(old(self)@.children, other, element as int);
        }
        self.children.push(element);
        assert(handles(self.children@) =~= old(self)@.append(element as int).children);
        assert(self@.wf()) by {
            let kept = old(self)@.children.filter(other);
            let now = self@.children;
            assert forall|a: int| 0 <= a < now.len() implies self@.knows(#[trigger] now[a]) by {
                if a < kept.len() {
                    lemma_filter_contains(old(self)@.children, other, kept[a]);
                }
            }
        }
        Ok(())
    }

    fn remove_child(&mut self, element: ElementId) -> (r: Result<(), DomOperationError>) {
        match self.position(element) {
            Some(i) => {
                let ghost other = other_than(element as int);
                proof {
                    lemma_remove_is_filter(old(self)@.children, i as int);
                    lemma_filter_no_duplicates(old(self)@.children, other);
                }
                self.children.remove(i);
                assert(handles(self.children@) =~= old(self)@.children.remove(i as int));
                assert(self@.wf()) by {
                    let now = self@.children;
                    assert forall|a: int| 0 <= a < now.len() implies self@.knows(
                        #[trigger] now[a],
                    ) by {
                        lemma_filter_contains(old(self)@.children, other, now[a]);
                    }
                }
                Ok(())
            },
            None => Err(DomOperationError { operation: DomOperation::RemoveChild }),
        }
    }

    fn elements_by_tag_name(&self, tag_name: &str) -> (r: Vec<ElementId>) {
        let ghost wanted = self@.has_tag(tag_name@);
        let mut found: Vec<ElementId> = Vec::new();
        let mut i: usize = 0;
        proof {
            lemma_filter_none(self@.children.take(0), wanted);
        }
        while i < self.children.len()
            invariant
                self.inv(),
                self@.wf(),
                i <= self.children.len(),
                wanted == self@.has_tag(tag_name@),
                handles(found@) =~= self@.children.take(i as int).filter(wanted),
            decreases self.children.len() - i,
        {
            let child = self.children[i];
            assert(self@.knows(self@.children[i as int]));
            proof {
                lemma_filter_push(self@.children.take(i as int), wanted, child as int);
                assert(self@.children.take(i + 1) =~= self@.children.take(i as int).push(
                    child as int,
                ));
            }
            if self.elements[child].tag.as_str().eq(tag_name) {
                found.push(child);
            }
            i += 1;
        }
        assert(self@.children.take(i as int) =~= self@.children);
        found
    }

    fn element_by_id(&self, id: &str) -> (r: Option<ElementId>) {
        let ghost wanted = self@.has_attribute("id"@, id@);
        let mut i: usize = 0;
        while i < self.children.len()
            invariant
                self.inv(),
                self@.wf(),
                i <= self.children.len(),
                wanted == self@.has_attribute("id"@, id@),
                forall|j: int| 0 <= j < i ==> !wanted(#[trigger] self@.children[j]),
            decreases self.children.len() - i,
        {
            let child = self.children[i];
            assert(self@.knows(self@.children[i as int]));
            let hit = match self.elements[child].get("id") {
                Some(value) => value.as_str().eq(id),
                None => false,
            };
            if hit {
                proof {
                    lemma_filter_first(self@.children, wanted, i as int);
                }
                return Some(child);
            }
            i += 1;
        }
        proof {
            lemma_filter_none(self@.children, wanted);
        }
        None
    }

    fn attribute(&self, element: ElementId, name: &str) -> (r: Option<String>) {
        if element >= self.elements.len() {
            return None;
        }
        match self.elements[element].get(name) {
            Some(value) => Some(value.clone()),
            None => None,
        }
    }
}

} // verus!
