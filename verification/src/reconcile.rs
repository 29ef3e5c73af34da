//! Mounting a tag into a head and unmounting it again.
//!
//! What each does to the head is a function of the tag and of the head before:
//! [`TagView::mount`] and [`TagView::unmount`]. The methods of [`Tag`] carry it
//! out through the operations of a [`HeadDocument`].

use crate::document::{
    among, both, handles, lemma_by_id, lemma_tagged, negate, other_than, well_formed,
    DomOperation, DomOperationError, ElementId, HeadDocument, HeadView,
};
use crate::sequences::{
    lemma_filter_all, lemma_filter_contains, lemma_filter_no_duplicates, lemma_filter_none,
    lemma_filter_pointwise, lemma_filter_push, lemma_filter_twice,
};
use crate::tag::{element_key, pairs_view, text_view, Link, Script, Style, Tag, TagView};
use vstd::prelude::*;

verus! {

/// A head, and whether the work that led to it was carried through.
pub struct Outcome {
    pub head: HeadView,
    pub result: Result<(), DomOperationError>,
}

/// The error of a refused operation.
pub open spec fn refused(operation: DomOperation) -> Result<(), DomOperationError> {
    Err(DomOperationError { operation })
}

/// Sets the attributes of `e` one after the other, and stops at the first that
/// the document refuses; those before it stay set.
pub open spec fn set_attributes<D: HeadDocument>(
    head: HeadView,
    e: int,
    attrs: Seq<(Seq<char>, Seq<char>)>,
) -> Outcome
    decreases attrs.len(),
{
    if attrs.len() == 0 {
        Outcome { head, result: Ok(()) }
    } else if !(head.knows(e) && D::valid_attribute_name(attrs[0].0)) {
        Outcome { head, result: refused(DomOperation::SetAttribute) }
    } else {
        set_attributes::<D>(head.set_attribute(e, attrs[0].0, attrs[0].1), e, attrs.skip(1))
    }
}

/// Creates an element of kind `tag`, gives it the content and the attributes,
/// and appends it to the head. Where the document refuses a step, the
/// element stays detached and the head's children are as before.
pub open spec fn create_and_mount<D: HeadDocument>(
    head: HeadView,
    tag: Seq<char>,
    body: Option<Seq<char>>,
    attrs: Seq<(Seq<char>, Seq<char>)>,
) -> Outcome {
    if !D::valid_tag_name(tag) {
        Outcome { head, result: refused(DomOperation::CreateElement) }
    } else {
        let e = head.elements.len() as int;
        let created = head.create(tag);
        let filled = match body {
            Some(text) => created.set_content(e, text),
            None => created,
        };
        let dressed = set_attributes::<D>(filled, e, attrs);
        match dressed.result {
            Ok(_) => Outcome { head: dressed.head.append(e), result: Ok(()) },
            Err(_) => dressed,
        }
    }
}

/// Gives the content and the attributes to the first of `found`; where
/// `found` is empty, to a new element of kind `tag`.
pub open spec fn get_and_update<D: HeadDocument>(
    head: HeadView,
    tag: Seq<char>,
    found: Seq<int>,
    body: Option<Seq<char>>,
    attrs: Seq<(Seq<char>, Seq<char>)>,
) -> Outcome {
    if found.len() == 0 {
        create_and_mount::<D>(head, tag, body, attrs)
    } else {
        let filled = match body {
            Some(text) => head.set_content(found[0], text),
            None => head,
        };
        set_attributes::<D>(filled, found[0], attrs)
    }
}

/// Mounts a tag of a kind that the head holds once.
///
/// Where the head has no child of kind `tag`, one is created with `body` and
/// `attrs`. Where it has some, all but the first are detached, and the first
/// is given `body` and `update`.
pub open spec fn mount_unique<D: HeadDocument>(
    head: HeadView,
    tag: Seq<char>,
    body: Option<Seq<char>>,
    attrs: Seq<(Seq<char>, Seq<char>)>,
    update: Seq<(Seq<char>, Seq<char>)>,
) -> Outcome {
    let found = head.tagged(tag);
    if found.len() == 0 {
        create_and_mount::<D>(head, tag, body, attrs)
    } else {
        get_and_update::<D>(head.without(among(found.skip(1))), tag, found, body, update)
    }
}

impl TagView {
    /// What mounting the tag makes of `head`, and whether the document
    /// carried every step through.
    ///
    /// - A title and a base are held once. What a title declares is the content
    ///   of its element; what a base declares is the `href` attribute of its
    ///   element.
    /// - A meta tag takes the first meta element of the head for its own,
    ///   whatever its name: it asks for no second one, and it gives the one
    ///   that is there its content and leaves it its name. Two meta tags with
    ///   different names therefore share one element.
    /// - A style, a link and a script are found by the identifier made of
    ///   their id. A style that is there gets the new body; a link gets its
    ///   three attributes again; a script gets the new body, where there is
    ///   one, and keeps the attributes that it has. A new element gets the
    ///   identifier as its `id` attribute, set last, so that no attribute of a
    ///   script can take its place.
    pub open spec fn mount<D: HeadDocument>(self, head: HeadView) -> Outcome {
        match self {
            TagView::Title(content) => mount_unique::<D>(
                head,
                self.tag_name(),
                Some(content),
                Seq::empty(),
                Seq::empty(),
            ),
            TagView::Base(href) => mount_unique::<D>(
                head,
                self.tag_name(),
                None,
                seq![("href"@, href)],
                seq![("href"@, href)],
            ),
            TagView::Meta(name, content) => mount_unique::<D>(
                head,
                self.tag_name(),
                None,
                seq![("name"@, name), ("content"@, content)],
                seq![("content"@, content)],
            ),
            TagView::Style(style) => {
                let key = element_key(style.id);
                match head.by_id(key) {
                    Some(e) => Outcome { head: head.set_content(e, style.body), result: Ok(()) },
                    None => create_and_mount::<D>(
                        head,
                        self.tag_name(),
                        Some(style.body),
                        seq![("id"@, key)],
                    ),
                }
            },
            TagView::Link(link) => {
                let key = element_key(link.id);
                let attrs = seq![("id"@, key), ("rel"@, link.rel), ("href"@, link.href)];
                match head.by_id(key) {
                    Some(e) => set_attributes::<D>(head, e, attrs),
                    None => create_and_mount::<D>(head, self.tag_name(), None, attrs),
                }
            },
            TagView::Script(script) => {
                let key = element_key(script.id);
                match head.by_id(key) {
                    Some(e) => Outcome {
                        head: match script.body {
                            Some(text) => head.set_content(e, text),
                            None => head,
                        },
                        result: Ok(()),
                    },
                    None => create_and_mount::<D>(
                        head,
                        self.tag_name(),
                        script.body,
                        script.attrs.push(("id"@, key)),
                    ),
                }
            },
        }
    }

    /// What unmounting the tag makes of `head`.
    ///
    /// Every title leaves with a title, and every base with a base, not only
    /// the one that the tag had mounted; with a meta tag, every meta element
    /// of its name; with a style, a link and a script, the first element with
    /// their identifier.
    pub open spec fn unmount(self, head: HeadView) -> HeadView {
        match self {
            TagView::Title(_) | TagView::Base(_) => head.without(head.has_tag(self.tag_name())),
            TagView::Meta(name, _) => head.without(
                both(head.has_tag(self.tag_name()), head.has_attribute("name"@, name)),
            ),
            TagView::Style(style) => unmount_identified(head, element_key(style.id)),
            TagView::Link(link) => unmount_identified(head, element_key(link.id)),
            TagView::Script(script) => unmount_identified(head, element_key(script.id)),
        }
    }
}

/// Detaches the first child whose `id` attribute is `key`, if there is one.
pub open spec fn unmount_identified(head: HeadView, key: Seq<char>) -> HeadView {
    match head.by_id(key) {
        Some(e) => head.remove(e),
        None => head,
    }
}

/// Setting attributes of `e` touches nothing but the attributes of `e`.
pub proof fn lemma_set_attributes_frame<D: HeadDocument>(
    head: HeadView,
    e: int,
    attrs: Seq<(Seq<char>, Seq<char>)>,
)
    ensures
        ({
            let after = set_attributes::<D>(head, e, attrs).head;
            &&& after.children == head.children
            &&& after.elements.len() == head.elements.len()
            &&& forall|i: int|
                0 <= i < head.elements.len() && i != e ==> after.elements[i] == head.elements[i]
            &&& head.knows(e) ==> after.elements[e].tag == head.elements[e].tag
                && after.elements[e].content == head.elements[e].content
        }),
    decreases attrs.len(),
{
    if attrs.len() > 0 && head.knows(e) && D::valid_attribute_name(attrs[0].0) {
        lemma_set_attributes_frame::<D>(
            head.set_attribute(e, attrs[0].0, attrs[0].1),
            e,
            attrs.skip(1),
        );
    }
}

/// The list behind an optional reference; none stands for the empty list.
pub open spec fn optional_pairs(attrs: Option<&Vec<(&str, &str)>>) -> Seq<(Seq<char>, Seq<char>)> {
    match attrs {
        Some(list) => pairs_view(list@),
        None => Seq::empty(),
    }
}

/// Detaches the elements of `listed` from the position `from` on.
fn remove_each<D: HeadDocument>(doc: &mut D, listed: &Vec<ElementId>, from: usize) -> (r: Result<
    (),
    DomOperationError,
>)
    requires
        well_formed(*old(doc)),
        from <= listed.len(),
        handles(listed@).no_duplicates(),
        forall|i: int|
            0 <= i < listed.len() ==> old(doc)@.children.contains(#[trigger] handles(listed@)[i]),
    ensures
        well_formed(*final(doc)),
        r == Ok::<(), DomOperationError>(()),
        final(doc)@ == old(doc)@.without(among(handles(listed@).skip(from as int))),
{
    let ghost all = handles(listed@);
    let ghost start = doc@;
    let mut i: usize = from;
    proof {
        lemma_filter_all(start.children, negate(among(all.subrange(from as int, i as int))));
    }
    while i < listed.len()
        invariant
            well_formed(*doc),
            from <= i <= listed.len(),
            all == handles(listed@),
            all.no_duplicates(),
            forall|k: int| 0 <= k < all.len() ==> start.children.contains(#[trigger] all[k]),
            doc@ == start.without(among(all.subrange(from as int, i as int))),
        decreases listed.len() - i,
    {
        let target = listed[i];
        let ghost done = all.subrange(from as int, i as int);
        let ghost next = all.subrange(from as int, i + 1);
        proof {
            assert(all[i as int] == target as int);
            lemma_filter_contains(start.children, negate(among(done)), target as int);
            lemma_filter_twice(start.children, negate(among(done)), other_than(target as int));
            assert forall|k: int| 0 <= k < start.children.len() implies (negate(among(done))(
                #[trigger] start.children[k],
            ) && start.children[k] != target as int) == negate(among(next))(start.children[k]) by {
                let c = start.children[k];
                if c == target as int {
                    assert(next[done.len() as int] == c);
                }
            }
            lemma_filter_pointwise(
                start.children,
                |x: int| negate(among(done))(x) && other_than(target as int)(x),
                negate(among(next)),
            );
        }
        doc.remove_child(target)?;
        i += 1;
    }
    Ok(())
}

/// The attributes of `attrs`, followed by the `id` attribute.
fn with_id<'b>(attrs: &Vec<(&'b str, &'b str)>, id: &'b str) -> (r: Vec<(&'b str, &'b str)>)
    ensures
        pairs_view(r@) == pairs_view(attrs@).push(("id"@, id@)),
{
    let mut all: Vec<(&'b str, &'b str)> = Vec::new();
    let mut i: usize = 0;
    while i < attrs.len()
        invariant
            i <= attrs.len(),
            pairs_view(all@) =~= pairs_view(attrs@).take(i as int),
        decreases attrs.len() - i,
    {
        let (name, value) = attrs[i];
        all.push((name, value));
        assert(pairs_view(attrs@).take(i + 1) =~= pairs_view(attrs@).take(i as int).push(
            (name@, value@),
        ));
        i += 1;
    }
    let ghost copied = all@;
    all.push(("id", id));
    assert(pairs_view(all@) =~= pairs_view(copied).push(("id"@, id@)));
    all
}

impl<'a> Tag<'a> {
    /// Brings the head to hold the element that the tag declares.
    ///
    /// A title, a base and a meta element are held once: where the head has
    /// none, one is created; where it has some, all but the first are
    /// detached and the first is updated. A style, a link and a script
    /// element are found by their identifier: the one that is there is
    /// updated, else one is created. A script that is already there keeps
    /// its attributes.
    ///
    /// The result is an error exactly when the document refused a step; what
    /// was done before that step stays done.
    pub fn mount<D: HeadDocument>(&self, doc: &mut D) -> (r: Result<(), DomOperationError>)
        requires
            well_formed(*old(doc)),
        ensures
            well_formed(*final(doc)),
            final(doc)@ == self@.mount::<D>(old(doc)@).head,
            r == self@.mount::<D>(old(doc)@).result,
    {
        match self {
            Tag::Title(body) => self.mount_unique(Some(*body), None, None, doc),
            Tag::Base(href) => {
                let attrs: Vec<(&str, &str)> = vec![("href", *href)];
                assert(pairs_view(attrs@) =~= seq![("href"@, href@)]);
                self.mount_unique(None, Some(&attrs), Some(&attrs), doc)
            },
            Tag::Meta(name, content) => {
                let attrs: Vec<(&str, &str)> = vec![("name", *name), ("content", *content)];
                let update: Vec<(&str, &str)> = vec![("content", *content)];
                assert(pairs_view(attrs@) =~= seq![("name"@, name@), ("content"@, content@)]);
                assert(pairs_view(update@) =~= seq![("content"@, content@)]);
                self.mount_unique(None, Some(&attrs), Some(&update), doc)
            },
            Tag::Style(style) => {
                let id = self.get_id(style.id);
                proof {
                    lemma_by_id(doc@, id@);
                }
                match doc.element_by_id(id.as_str()) {
                    Some(el) => {
                        doc.set_inner_content(el, style.body);
                        Ok(())
                    },
                    None => {
                        let attrs: Vec<(&str, &str)> = vec![("id", id.as_str())];
                        assert(pairs_view(attrs@) =~= seq![("id"@, id@)]);
                        self.create_and_mount(Some(style.body), Some(&attrs), doc)
                    },
                }
            },
            Tag::Link(link) => {
                let id = self.get_id(link.id);
                let attrs: Vec<(&str, &str)> = vec![
                    ("id", id.as_str()),
                    ("rel", link.rel),
                    ("href", link.href),
                ];
                assert(pairs_view(attrs@) =~= seq![
                    ("id"@, id@),
                    ("rel"@, link.rel@),
                    ("href"@, link.href@),
                ]);
                match doc.element_by_id(id.as_str()) {
                    Some(el) => self.set_attrs(doc, el, &attrs),
                    None => self.create_and_mount(None, Some(&attrs), doc),
                }
            },
            Tag::Script(script) => {
                let id = self.get_id(script.id);
                proof {
                    lemma_by_id(doc@, id@);
                }
                match doc.element_by_id(id.as_str()) {
                    Some(el) => {
                        // The attributes of an element that is there stay as
                        // they are; only the body is brought up to date.
                        if let Some(body) = script.body {
                            doc.set_inner_content(el, body);
                        }
                        Ok(())
                    },
                    None => {
                        let attrs = with_id(&script.attrs, id.as_str());
                        self.create_and_mount(script.body, Some(&attrs), doc)
                    },
                }
            },
        }
    }

    /// Takes the element that the tag declares out of the head.
    ///
    /// For a title and a base, every element of the kind leaves; for a meta
    /// element, every meta element with the tag's name; for a style, a link
    /// and a script, the first element with the tag's identifier, if there is
    /// one. No document refuses any of this.
    pub fn unmount<D: HeadDocument>(&self, doc: &mut D) -> (r: Result<(), DomOperationError>)
        requires
            well_formed(*old(doc)),
        ensures
            well_formed(*final(doc)),
            final(doc)@ == self@.unmount(old(doc)@),
            r == Ok::<(), DomOperationError>(()),
    {
        match self {
            Tag::Title(_) | Tag::Base(_) => {
                let tag_name = self.to_string();
                let found = doc.elements_by_tag_name(tag_name.as_str());
                proof {
                    let head = doc@;
                    let kind = head.has_tag(self@.tag_name());
                    lemma_tagged(head, self@.tag_name());
                    assert(handles(found@).skip(0) =~= handles(found@));
                    assert forall|k: int| 0 <= k < head.children.len() implies negate(
                        among(handles(found@)),
                    )(#[trigger] head.children[k]) == negate(kind)(head.children[k]) by {
                        lemma_filter_contains(head.children, kind, head.children[k]);
                    }
                    lemma_filter_pointwise(
                        head.children,
                        negate(among(handles(found@))),
                        negate(kind),
                    );
                }
                remove_each(doc, &found, 0)
            },
            Tag::Meta(name, _) => {
                let tag_name = self.to_string();
                let found = doc.elements_by_tag_name(tag_name.as_str());
                let ghost head = doc@;
                let ghost kind = head.has_tag(self@.tag_name());
                let ghost named = head.has_attribute("name"@, name@);
                let mut listed: Vec<ElementId> = Vec::new();
                let mut i: usize = 0;
                proof {
                    lemma_tagged(head, self@.tag_name());
                    lemma_filter_none(handles(found@).take(0), named);
                }
                while i < found.len()
                    invariant
                        well_formed(*doc),
                        doc@ == head,
                        i <= found.len(),
                        named == head.has_attribute("name"@, name@),
                        forall|k: int|
                            0 <= k < found.len() ==> head.knows(#[trigger] handles(found@)[k]),
                        handles(listed@) =~= handles(found@).take(i as int).filter(named),
                    decreases found.len() - i,
                {
                    let el = found[i];
                    assert(handles(found@)[i as int] == el as int);
                    proof {
                        lemma_filter_push(
                            handles(found@).take(i as int),
                            named,
                            el as int,
                        );
                        assert(handles(found@).take(i + 1) =~= handles(found@).take(
                            i as int,
                        ).push(el as int));
                    }
                    let hit = match doc.attribute(el, "name") {
                        Some(value) => value.as_str().eq(*name),
                        None => false,
                    };
                    if hit {
                        listed.push(el);
                    }
                    i += 1;
                }
                proof {
                    let all = handles(found@);
                    assert(all.take(i as int) =~= all);
                    lemma_filter_no_duplicates(all, named);
                    assert forall|k: int| 0 <= k < listed.len() implies head.children.contains(
                        #[trigger] handles(listed@)[k],
                    ) by {
                        let e = handles(listed@)[k];
                        lemma_filter_contains(all, named, e);
                        lemma_filter_contains(head.children, kind, e);
                    }
                    assert(handles(listed@).skip(0) =~= handles(listed@));
                    assert forall|k: int| 0 <= k < head.children.len() implies negate(
                        among(handles(listed@)),
                    )(#[trigger] head.children[k]) == negate(both(kind, named))(
                        head.children[k],
                    ) by {
                        let e = head.children[k];
                        lemma_filter_contains(all, named, e);
                        lemma_filter_contains(head.children, kind, e);
                    }
                    lemma_filter_pointwise(
                        head.children,
                        negate(among(handles(listed@))),
                        negate(both(kind, named)),
                    );
                }
                remove_each(doc, &listed, 0)
            },
            Tag::Style(Style { id, .. })
            | Tag::Link(Link { id, .. })
            | Tag::Script(Script { id, .. }) => {
                let id = self.get_id(id);
                proof {
                    lemma_by_id(doc@, id@);
                }
                if let Some(el) = doc.element_by_id(id.as_str()) {
                    doc.remove_child(el)?;
                }
                Ok(())
            },
        }
    }

    fn mount_unique<D: HeadDocument>(
        &self,
        body: Option<&str>,
        attrs: Option<&Vec<(&str, &str)>>,
        update: Option<&Vec<(&str, &str)>>,
        doc: &mut D,
    ) -> (r: Result<(), DomOperationError>)
        requires
            well_formed(*old(doc)),
        ensures
            well_formed(*final(doc)),
            final(doc)@ == mount_unique::<D>(
                old(doc)@,
                self@.tag_name(),
                text_view(body),
                optional_pairs(attrs),
                optional_pairs(update),
            ).head,
            r == mount_unique::<D>(
                old(doc)@,
                self@.tag_name(),
                text_view(body),
                optional_pairs(attrs),
                optional_pairs(update),
            ).result,
    {
        let tag_name = self.to_string();
        let found = doc.elements_by_tag_name(tag_name.as_str());
        if found.len() == 0 {
            self.create_and_mount(body, attrs, doc)
        } else {
            proof {
                lemma_tagged(doc@, self@.tag_name());
            }
            // Elements of this kind that came from elsewhere leave first.
            remove_each(doc, &found, 1)?;
            self.get_and_update(body, update, &found, doc)
        }
    }

    fn set_attrs<D: HeadDocument>(
        &self,
        doc: &mut D,
        el: ElementId,
        attrs: &Vec<(&str, &str)>,
    ) -> (r: Result<(), DomOperationError>)
        requires
            well_formed(*old(doc)),
        ensures
            well_formed(*final(doc)),
            final(doc)@ == set_attributes::<D>(old(doc)@, el as int, pairs_view(attrs@)).head,
            r == set_attributes::<D>(old(doc)@, el as int, pairs_view(attrs@)).result,
    {
        let ghost all = pairs_view(attrs@);
        let ghost whole = set_attributes::<D>(doc@, el as int, all);
        let mut i: usize = 0;
        assert(all.skip(0) =~= all);
        while i < attrs.len()
            invariant
                well_formed(*doc),
                i <= attrs.len(),
                all == pairs_view(attrs@),
                whole == set_attributes::<D>(old(doc)@, el as int, all),
                set_attributes::<D>(doc@, el as int, all.skip(i as int)) == whole,
            decreases attrs.len() - i,
        {
            let (name, value) = attrs[i];
            assert(all.skip(i as int).skip(1) =~= all.skip(i + 1));
            match doc.set_attribute(el, name, value) {
                Ok(_) => (),
                Err(err) => return Err(err),
            }
            i += 1;
        }
        Ok(())
    }

    fn create_and_mount<D: HeadDocument>(
        &self,
        body: Option<&str>,
        attrs: Option<&Vec<(&str, &str)>>,
        doc: &mut D,
    ) -> (r: Result<(), DomOperationError>)
        requires
            well_formed(*old(doc)),
        ensures
            well_formed(*final(doc)),
            final(doc)@ == create_and_mount::<D>(
                old(doc)@,
                self@.tag_name(),
                text_view(body),
                optional_pairs(attrs),
            ).head,
            r == create_and_mount::<D>(
                old(doc)@,
                self@.tag_name(),
                text_view(body),
                optional_pairs(attrs),
            ).result,
    {
        let name = self.to_string();
        let el = doc.create_element(name.as_str())?;
        if let Some(body) = body {
            doc.set_inner_content(el, body);
        }
        proof {
            lemma_set_attributes_frame::<D>(doc@, el as int, optional_pairs(attrs));
        }
        if let Some(attrs) = attrs {
            self.set_attrs(doc, el, attrs)?;
        }
        doc.append_child(el)?;
        Ok(())
    }

    fn get_and_update<D: HeadDocument>(
        &self,
        body: Option<&str>,
        attrs: Option<&Vec<(&str, &str)>>,
        collection: &Vec<ElementId>,
        doc: &mut D,
    ) -> (r: Result<(), DomOperationError>)
        requires
            well_formed(*old(doc)),
            collection.len() > 0 ==> old(doc)@.knows(collection[0] as int),
        ensures
            well_formed(*final(doc)),
            final(doc)@ == get_and_update::<D>(
                old(doc)@,
                self@.tag_name(),
                handles(collection@),
                text_view(body),
                optional_pairs(attrs),
            ).head,
            r == get_and_update::<D>(
                old(doc)@,
                self@.tag_name(),
                handles(collection@),
                text_view(body),
                optional_pairs(attrs),
            ).result,
    {
        if collection.len() == 0 {
            return self.create_and_mount(body, attrs, doc);
        }
        let el = collection[0];
        if let Some(body) = body {
            doc.set_inner_content(el, body);
        }
        match attrs {
            Some(attrs) => self.set_attrs(doc, el, attrs),
            None => Ok(()),
        }
    }
}

} // verus!
