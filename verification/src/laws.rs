//! What mounting and unmounting guarantee, proved of every head, every
//! document and every tag.

use crate::document::{
    among, both, lemma_by_id, lemma_tagged, lemma_without, negate, other_than, DomOperation,
    DomOperationError, HeadDocument, HeadView,
};
use crate::head_manager::{mounted, unmounted};
use crate::reconcile::{
    create_and_mount, lemma_set_attributes_frame, mount_unique, refused, set_attributes,
};
use crate::sequences::{
    lemma_filter_all, lemma_filter_commutes, lemma_filter_contains, lemma_filter_no_duplicates,
    lemma_filter_none, lemma_filter_pointwise, lemma_filter_push, lemma_filter_single,
    lemma_filter_twice, lemma_remove_is_filter,
};
use crate::tag::{element_key, lemma_element_key_injective, LinkView, StyleView, TagView};
use vstd::prelude::*;

verus! {

/// Attributes after the pairs of `attrs` were set in order.
pub open spec fn applied(
    attributes: Map<Seq<char>, Seq<char>>,
    attrs: Seq<(Seq<char>, Seq<char>)>,
) -> Map<Seq<char>, Seq<char>>
    decreases attrs.len(),
{
    if attrs.len() == 0 {
        attributes
    } else {
        applied(attributes.insert(attrs[0].0, attrs[0].1), attrs.skip(1))
    }
}

/// Where every attribute of `attrs` was set, the element has its old
/// attributes with those of `attrs` laid over them, and nothing else changed.
pub proof fn lemma_set_attributes_ok<D: HeadDocument>(
    head: HeadView,
    e: int,
    attrs: Seq<(Seq<char>, Seq<char>)>,
)
    requires
        head.knows(e),
        set_attributes::<D>(head, e, attrs).result is Ok,
    ensures
        set_attributes::<D>(head, e, attrs).head.elements[e].attributes == applied(
            head.elements[e].attributes,
            attrs,
        ),
    decreases attrs.len(),
{
    if attrs.len() > 0 {
        lemma_set_attributes_ok::<D>(
            head.set_attribute(e, attrs[0].0, attrs[0].1),
            e,
            attrs.skip(1),
        );
    }
}

/// What creating and mounting an element makes of a head: the elements known
/// before are as they were; where every step was carried through, the new
/// element is the last child, of the kind, with the content and the
/// attributes asked for; where one was refused, the children are as before.
pub proof fn lemma_create_and_mount<D: HeadDocument>(
    head: HeadView,
    tag: Seq<char>,
    body: Option<Seq<char>>,
    attrs: Seq<(Seq<char>, Seq<char>)>,
)
    requires
        head.wf(),
    ensures
        ({
            let after = create_and_mount::<D>(head, tag, body, attrs);
            let e = head.elements.len() as int;
            &&& after.head.wf()
            &&& after.head.elements.len() >= head.elements.len()
            &&& forall|i: int|
                0 <= i < head.elements.len() ==> after.head.elements[i] == head.elements[i]
            &&& after.result is Err ==> after.head.children == head.children
            &&& after.result is Ok ==> {
                &&& after.head.children == head.children.push(e)
                &&& after.head.elements.len() == e + 1
                &&& after.head.elements[e].tag == tag
                &&& after.head.elements[e].content == match body {
                    Some(text) => text,
                    None => Seq::empty(),
                }
                &&& after.head.elements[e].attributes == applied(Map::empty(), attrs)
            }
        }),
{
    if D::valid_tag_name(tag) {
        let e = head.elements.len() as int;
        let created = head.create(tag);
        let filled = match body {
            Some(text) => created.set_content(e, text),
            None => created,
        };
        let dressed = set_attributes::<D>(filled, e, attrs);
        lemma_set_attributes_frame::<D>(filled, e, attrs);
        if dressed.result is Ok {
            lemma_set_attributes_ok::<D>(filled, e, attrs);
            lemma_filter_all(head.children, other_than(e));
        }
    }
}

/// A tag of a kind that the head holds once, once mounted, is the only child
/// of its kind: the first that was there before, or, where none was, a new
/// one. It has the content asked for, the other elements are as they were,
/// and the other children stay where they were.
pub proof fn lemma_mount_unique<D: HeadDocument>(
    head: HeadView,
    tag: Seq<char>,
    body: Option<Seq<char>>,
    attrs: Seq<(Seq<char>, Seq<char>)>,
    update: Seq<(Seq<char>, Seq<char>)>,
)
    requires
        head.wf(),
        mount_unique::<D>(head, tag, body, attrs, update).result is Ok,
    ensures
        ({
            let after = mount_unique::<D>(head, tag, body, attrs, update).head;
            let found = head.tagged(tag);
            let e = if found.len() > 0 {
                found[0]
            } else {
                head.elements.len() as int
            };
            &&& after.wf()
            &&& after.knows(e)
            &&& after.tagged(tag) == seq![e]
            &&& after.elements[e].tag == tag
            &&& body matches Some(text) ==> after.elements[e].content == text
            &&& after.elements[e].attributes == if found.len() > 0 {
                applied(head.elements[e].attributes, update)
            } else {
                applied(Map::empty(), attrs)
            }
            &&& after.children == if found.len() > 0 {
                head.without(among(found.skip(1))).children
            } else {
                head.children.push(e)
            }
            &&& forall|i: int|
                0 <= i < head.elements.len() && i != e ==> after.elements[i] == head.elements[i]
        }),
{
    let after = mount_unique::<D>(head, tag, body, attrs, update).head;
    let found = head.tagged(tag);
    lemma_tagged(head, tag);
    if found.len() == 0 {
        let e = head.elements.len() as int;
        lemma_create_and_mount::<D>(head, tag, body, attrs);
        lemma_filter_pointwise(head.children, after.has_tag(tag), head.has_tag(tag));
        lemma_filter_push(head.children, after.has_tag(tag), e);
    } else {
        let first = found[0];
        let extras = among(found.skip(1));
        let kept = head.without(extras);
        lemma_without(head, extras);
        let filled = match body {
            Some(text) => kept.set_content(first, text),
            None => kept,
        };
        lemma_set_attributes_frame::<D>(filled, first, update);
        lemma_set_attributes_ok::<D>(filled, first, update);
        // The kinds of the elements are as before.
        lemma_filter_pointwise(kept.children, after.has_tag(tag), head.has_tag(tag));
        lemma_filter_twice(head.children, negate(extras), head.has_tag(tag));
        let only = |x: int| negate(extras)(x) && head.has_tag(tag)(x);
        assert forall|i: int| 0 <= i < head.children.len() && only(
            #[trigger] head.children[i],
        ) implies head.children[i] == first by {
            let c = head.children[i];
            assert(found.contains(c));
            let k = choose|k: int| 0 <= k < found.len() && found[k] == c;
            if k > 0 {
                assert(found.skip(1)[k - 1] == c);
            }
        }
        lemma_filter_single(head.children, only, first);
    }
}

/// Laying one more pair over attributes is inserting it last.
pub proof fn lemma_applied_push(
    attributes: Map<Seq<char>, Seq<char>>,
    attrs: Seq<(Seq<char>, Seq<char>)>,
    pair: (Seq<char>, Seq<char>),
)
    ensures
        applied(attributes, attrs.push(pair)) == applied(attributes, attrs).insert(pair.0, pair.1),
    decreases attrs.len(),
{
    if attrs.len() == 0 {
        assert(attrs.push(pair).skip(1) =~= Seq::empty());
        assert(applied(attributes.insert(pair.0, pair.1), Seq::empty()) == attributes.insert(
            pair.0,
            pair.1,
        ));
    } else {
        assert(attrs.push(pair).skip(1) =~= attrs.skip(1).push(pair));
        lemma_applied_push(attributes.insert(attrs[0].0, attrs[0].1), attrs.skip(1), pair);
    }
}

/// The attributes that mounting a tag found by its identifier gives to a new
/// element; none for a tag of a kind that the head holds once.
pub open spec fn identified_attrs(tag: TagView) -> Seq<(Seq<char>, Seq<char>)> {
    match tag {
        TagView::Style(style) => seq![("id"@, element_key(style.id))],
        TagView::Link(link) => seq![
            ("id"@, element_key(link.id)),
            ("rel"@, link.rel),
            ("href"@, link.href),
        ],
        TagView::Script(script) => script.attrs.push(("id"@, element_key(script.id))),
        _ => Seq::empty(),
    }
}

/// The identifier by which a tag is found; the empty one for a tag of a kind
/// that the head holds once.
pub open spec fn key_of(tag: TagView) -> Seq<char> {
    match tag {
        TagView::Style(style) => element_key(style.id),
        TagView::Link(link) => element_key(link.id),
        TagView::Script(script) => element_key(script.id),
        _ => Seq::empty(),
    }
}

/// Whether the tag is of a kind that is found by its identifier.
pub open spec fn is_identified(tag: TagView) -> bool {
    tag is Style || tag is Link || tag is Script
}

/// The attributes that mounting a tag gives to a new element end in its
/// identifier.
pub proof fn lemma_identified_attrs(tag: TagView, attributes: Map<Seq<char>, Seq<char>>)
    requires
        is_identified(tag),
    ensures
        applied(attributes, identified_attrs(tag)).dom().contains("id"@),
        applied(attributes, identified_attrs(tag))["id"@] == key_of(tag),
{
    reveal_strlit("id");
    reveal_strlit("rel");
    reveal_strlit("href");
    match tag {
        TagView::Style(style) => {
            reveal_with_fuel(applied, 2);
        },
        TagView::Link(link) => {
            reveal_with_fuel(applied, 4);
            assert("id"@.len() == 2 && "rel"@.len() == 3 && "href"@.len() == 4);
        },
        TagView::Script(script) => {
            lemma_applied_push(attributes, script.attrs, ("id"@, element_key(script.id)));
        },
        _ => {},
    }
}

/// The content that the element of a style, a link or a script has once the
/// tag is mounted.
pub open spec fn mounted_content(tag: TagView, head: HeadView) -> Seq<char> {
    let before = match head.by_id(key_of(tag)) {
        Some(found) => head.elements[found].content,
        None => Seq::empty(),
    };
    match tag {
        TagView::Style(style) => style.body,
        TagView::Script(script) => match script.body {
            Some(text) => text,
            None => before,
        },
        _ => before,
    }
}

/// The attributes that the element of a style, a link or a script has once
/// the tag is mounted: an element that was there keeps its own, and those of
/// a link are laid over them.
pub open spec fn mounted_attributes(tag: TagView, head: HeadView) -> Map<Seq<char>, Seq<char>> {
    match head.by_id(key_of(tag)) {
        Some(found) => if tag is Link {
            applied(head.elements[found].attributes, identified_attrs(tag))
        } else {
            head.elements[found].attributes
        },
        None => applied(Map::empty(), identified_attrs(tag)),
    }
}

/// A style, a link or a script, once mounted, is found by its identifier:
/// it is the element that was found before, or, where none was, a new one at
/// the end of the head. The other elements are as they were, and so are the
/// children that were there.
pub proof fn lemma_mount_identified<D: HeadDocument>(tag: TagView, head: HeadView)
    requires
        head.wf(),
        is_identified(tag),
        tag.mount::<D>(head).result is Ok,
    ensures
        ({
            let after = tag.mount::<D>(head).head;
            let e = match head.by_id(key_of(tag)) {
                Some(found) => found,
                None => head.elements.len() as int,
            };
            &&& after.wf()
            &&& after.knows(e)
            &&& after.by_id(key_of(tag)) == Some(e)
            &&& after.children == match head.by_id(key_of(tag)) {
                Some(_) => head.children,
                None => head.children.push(e),
            }
            &&& after.elements.len() == match head.by_id(key_of(tag)) {
                Some(_) => head.elements.len(),
                None => head.elements.len() + 1,
            }
            &&& forall|i: int|
                0 <= i < head.elements.len() && i != e ==> after.elements[i] == head.elements[i]
            &&& forall|id: Seq<char>|
                id != key_of(tag) ==> #[trigger] after.identified(id) == head.identified(id)
            &&& after.identified(key_of(tag)) == match head.by_id(key_of(tag)) {
                Some(_) => head.identified(key_of(tag)),
                None => seq![e],
            }
            &&& after.elements[e].attribute("id"@) == Some(key_of(tag))
            &&& after.elements[e].content == mounted_content(tag, head)
            &&& after.elements[e].attributes == mounted_attributes(tag, head)
        }),
{
    let key = key_of(tag);
    let after = tag.mount::<D>(head).head;
    let carries = head.has_attribute("id"@, key);
    lemma_by_id(head, key);
    match head.by_id(key) {
        Some(e) => {
            match tag {
                TagView::Link(link) => {
                    let attrs = identified_attrs(tag);
                    lemma_set_attributes_frame::<D>(head, e, attrs);
                    lemma_set_attributes_ok::<D>(head, e, attrs);
                    lemma_identified_attrs(tag, head.elements[e].attributes);
                },
                _ => {},
            }
            assert forall|id: Seq<char>| #[trigger] after.identified(id) == head.identified(id) by {
                lemma_filter_pointwise(
                    head.children,
                    after.has_attribute("id"@, id),
                    head.has_attribute("id"@, id),
                );
            }
        },
        None => {
            let e = head.elements.len() as int;
            let body = match tag {
                TagView::Style(style) => Some(style.body),
                TagView::Script(script) => script.body,
                _ => None,
            };
            let attrs = identified_attrs(tag);
            assert(tag.mount::<D>(head) == create_and_mount::<D>(
                head,
                tag.tag_name(),
                body,
                attrs,
            ));
            lemma_create_and_mount::<D>(head, tag.tag_name(), body, attrs);
            lemma_identified_attrs(tag, Map::empty());
            assert forall|id: Seq<char>|
                #[trigger] after.identified(id) == if id == key {
                    seq![e]
                } else {
                    head.identified(id)
                } by {
                lemma_filter_pointwise(
                    head.children,
                    after.has_attribute("id"@, id),
                    head.has_attribute("id"@, id),
                );
                lemma_filter_push(head.children, after.has_attribute("id"@, id), e);
                if id == key {
                    assert forall|i: int| 0 <= i < head.children.len() implies !carries(
                        #[trigger] head.children[i],
                    ) by {
                        assert(head.children.contains(head.children[i]));
                    }
                    lemma_filter_none(head.children, carries);
                }
            }
        },
    }
}

/// Whether the document accepts the name of every pair.
pub open spec fn all_valid<D: HeadDocument>(attrs: Seq<(Seq<char>, Seq<char>)>) -> bool {
    forall|i: int| 0 <= i < attrs.len() ==> D::valid_attribute_name(#[trigger] attrs[i].0)
}

/// Setting attributes of a known element is carried through exactly when the
/// document accepts every name; the one error there is says that an
/// attribute was refused.
pub proof fn lemma_set_attributes_result<D: HeadDocument>(
    head: HeadView,
    e: int,
    attrs: Seq<(Seq<char>, Seq<char>)>,
)
    requires
        head.knows(e),
    ensures
        set_attributes::<D>(head, e, attrs).result == if all_valid::<D>(attrs) {
            Ok::<(), DomOperationError>(())
        } else {
            refused(DomOperation::SetAttribute)
        },
    decreases attrs.len(),
{
    if attrs.len() > 0 {
        if D::valid_attribute_name(attrs[0].0) {
            let next = head.set_attribute(e, attrs[0].0, attrs[0].1);
            lemma_set_attributes_result::<D>(next, e, attrs.skip(1));
            if all_valid::<D>(attrs.skip(1)) {
                assert forall|i: int| 0 <= i < attrs.len() implies D::valid_attribute_name(
                    #[trigger] attrs[i].0,
                ) by {
                    if i > 0 {
                        assert(attrs.skip(1)[i - 1] == attrs[i]);
                    }
                }
            }
        }
    }
}

/// What mounting gives to the element of a title, a base or a meta tag: the
/// content, the attributes of a new element, and the attributes of an
/// element that is there.
pub open spec fn held_once(tag: TagView) -> (
    Option<Seq<char>>,
    Seq<(Seq<char>, Seq<char>)>,
    Seq<(Seq<char>, Seq<char>)>,
) {
    match tag {
        TagView::Title(content) => (Some(content), Seq::empty(), Seq::empty()),
        TagView::Base(href) => (None, seq![("href"@, href)], seq![("href"@, href)]),
        TagView::Meta(name, content) => (
            None,
            seq![("name"@, name), ("content"@, content)],
            seq![("content"@, content)],
        ),
        _ => (None, Seq::empty(), Seq::empty()),
    }
}

/// Whether mounting `tag` into `head` is carried through: the document has to
/// accept the kind of an element that is to be created, and the name of every
/// attribute that is to be set.
pub open spec fn mount_succeeds<D: HeadDocument>(tag: TagView, head: HeadView) -> bool {
    let kind = tag.tag_name();
    match tag {
        TagView::Title(_) => head.tagged(kind).len() > 0 || D::valid_tag_name(kind),
        TagView::Base(_) => D::valid_attribute_name("href"@) && (head.tagged(kind).len() > 0
            || D::valid_tag_name(kind)),
        TagView::Meta(_, _) => D::valid_attribute_name("content"@) && (head.tagged(kind).len() > 0
            || (D::valid_tag_name(kind) && D::valid_attribute_name("name"@))),
        TagView::Style(_) => head.by_id(key_of(tag)) is Some || (D::valid_tag_name(kind)
            && D::valid_attribute_name("id"@)),
        TagView::Link(_) => all_valid::<D>(identified_attrs(tag)) && (head.by_id(key_of(tag))
            is Some || D::valid_tag_name(kind)),
        TagView::Script(_) => head.by_id(key_of(tag)) is Some || (D::valid_tag_name(kind)
            && all_valid::<D>(identified_attrs(tag))),
    }
}

/// Mounting is carried through exactly when [`mount_succeeds`] says so. Where
/// it is not, the error names the creation of the element, where one was to
/// be created and the document does not accept its kind, and else the
/// setting of an attribute.
pub proof fn lemma_mount_result<D: HeadDocument>(tag: TagView, head: HeadView)
    requires
        head.wf(),
    ensures
        tag.mount::<D>(head).result == if mount_succeeds::<D>(tag, head) {
            Ok::<(), DomOperationError>(())
        } else if creates(tag, head) && !D::valid_tag_name(tag.tag_name()) {
            refused(DomOperation::CreateElement)
        } else {
            refused(DomOperation::SetAttribute)
        },
{
    let kind = tag.tag_name();
    let fresh = head.elements.len() as int;
    lemma_tagged(head, kind);
    lemma_by_id(head, key_of(tag));
    match tag {
        TagView::Title(content) => {
            if head.tagged(kind).len() == 0 && D::valid_tag_name(kind) {
                let filled = head.create(kind).set_content(fresh, content);
                lemma_set_attributes_result::<D>(filled, fresh, Seq::empty());
            }
        },
        TagView::Base(_) | TagView::Meta(_, _) => {
            let (_, attrs, update) = held_once(tag);
            if head.tagged(kind).len() > 0 {
                let first = head.tagged(kind)[0];
                let kept = head.without(among(head.tagged(kind).skip(1)));
                lemma_set_attributes_result::<D>(kept, first, update);
            } else if D::valid_tag_name(kind) {
                lemma_set_attributes_result::<D>(head.create(kind), fresh, attrs);
            }
        },
        TagView::Style(style) => {
            let attrs = identified_attrs(tag);
            if head.by_id(key_of(tag)) is None && D::valid_tag_name(kind) {
                let filled = head.create(kind).set_content(fresh, style.body);
                lemma_set_attributes_result::<D>(filled, fresh, attrs);
            }
        },
        TagView::Link(_) => {
            let attrs = identified_attrs(tag);
            match head.by_id(key_of(tag)) {
                Some(e) => {
                    lemma_set_attributes_result::<D>(head, e, attrs);
                },
                None => {
                    if D::valid_tag_name(kind) {
                        lemma_set_attributes_result::<D>(head.create(kind), fresh, attrs);
                    }
                },
            }
        },
        TagView::Script(script) => {
            let attrs = identified_attrs(tag);
            if head.by_id(key_of(tag)) is None && D::valid_tag_name(kind) {
                let created = head.create(kind);
                let filled = match script.body {
                    Some(text) => created.set_content(fresh, text),
                    None => created,
                };
                lemma_set_attributes_result::<D>(filled, fresh, attrs);
            }
        },
    }
}

/// Whether mounting `tag` into `head` creates an element.
pub open spec fn creates(tag: TagView, head: HeadView) -> bool {
    if is_identified(tag) {
        head.by_id(key_of(tag)) is None
    } else {
        head.tagged(tag.tag_name()).len() == 0
    }
}

/// Idempotence: a tag that was mounted can be mounted again, and the second
/// time changes nothing.
pub proof fn law_mount_idempotent<D: HeadDocument>(tag: TagView, head: HeadView)
    requires
        head.wf(),
        tag.mount::<D>(head).result is Ok,
    ensures
        tag.mount::<D>(tag.mount::<D>(head).head) == tag.mount::<D>(head),
{
    let once = tag.mount::<D>(head).head;
    let twice = tag.mount::<D>(once);
    let kind = tag.tag_name();
    lemma_mount_result::<D>(tag, head);
    if is_identified(tag) {
        lemma_mount_identified::<D>(tag, head);
        let e = once.by_id(key_of(tag))->0;
        match tag {
            TagView::Link(_) => {
                let attrs = identified_attrs(tag);
                let before = match head.by_id(key_of(tag)) {
                    Some(found) => head.elements[found].attributes,
                    None => Map::empty(),
                };
                lemma_set_attributes_result::<D>(once, e, attrs);
                lemma_set_attributes_frame::<D>(once, e, attrs);
                lemma_set_attributes_ok::<D>(once, e, attrs);
                assert(applied(applied(before, attrs), attrs) =~= applied(before, attrs)) by {
                    reveal_with_fuel(applied, 4);
                }
                assert(twice.head.elements =~= once.elements);
            },
            _ => {
                assert(twice.head.elements =~= once.elements);
            },
        }
    } else {
        let (body, attrs, update) = held_once(tag);
        lemma_mount_unique::<D>(head, kind, body, attrs, update);
        let e = once.tagged(kind)[0];
        let extras = among(once.tagged(kind).skip(1));
        lemma_filter_all(once.children, negate(extras));
        lemma_set_attributes_result::<D>(once, e, update);
        lemma_set_attributes_frame::<D>(once, e, update);
        lemma_set_attributes_ok::<D>(once, e, update);
        assert(applied(once.elements[e].attributes, update) =~= once.elements[e].attributes) by {
            reveal_with_fuel(applied, 3);
        }
        assert(twice.head.elements =~= once.elements);
    }
}

/// A title that is mounted over another replaces it: whatever the head
/// held before the first, after the second it holds one title element, the
/// same one as after the first, and it reads as the second declares.
pub proof fn law_title_replaced<D: HeadDocument>(
    head: HeadView,
    first: Seq<char>,
    second: Seq<char>,
)
    requires
        head.wf(),
        TagView::Title(first).mount::<D>(head).result is Ok,
    ensures
        ({
            let once = TagView::Title(first).mount::<D>(head).head;
            let twice = TagView::Title(second).mount::<D>(once);
            &&& twice.result is Ok
            &&& twice.head.tagged("title"@).len() == 1
            &&& twice.head.tagged("title"@) == once.tagged("title"@)
            &&& twice.head.elements[twice.head.tagged("title"@)[0]].content == second
            &&& twice.head.children == once.children
        }),
{
    let once = TagView::Title(first).mount::<D>(head).head;
    lemma_mount_unique::<D>(head, "title"@, Some(first), Seq::empty(), Seq::empty());
    lemma_mount_result::<D>(TagView::Title(second), once);
    lemma_mount_unique::<D>(once, "title"@, Some(second), Seq::empty(), Seq::empty());
    lemma_filter_all(once.children, negate(among(once.tagged("title"@).skip(1))));
}

/// A title that is mounted twice in a row is in the head once, reads as
/// declared, and the second mount changed nothing.
pub proof fn law_title_mounted_twice<D: HeadDocument>(head: HeadView, content: Seq<char>)
    requires
        head.wf(),
        TagView::Title(content).mount::<D>(head).result is Ok,
    ensures
        ({
            let once = TagView::Title(content).mount::<D>(head);
            let twice = TagView::Title(content).mount::<D>(once.head);
            &&& twice == once
            &&& twice.head.tagged("title"@).len() == 1
            &&& twice.head.elements[twice.head.tagged("title"@)[0]].content == content
        }),
{
    law_mount_idempotent::<D>(TagView::Title(content), head);
    law_title_replaced::<D>(head, content, content);
}

/// Detaching an element that does not carry an identifier leaves the
/// elements found by that identifier as they were.
pub proof fn lemma_remove_keeps_identified(head: HeadView, e: int, id: Seq<char>)
    requires
        head.elements[e].attribute("id"@) != Some(id),
    ensures
        head.remove(e).identified(id) == head.identified(id),
{
    let carries = head.has_attribute("id"@, id);
    lemma_filter_twice(head.children, other_than(e), carries);
    lemma_filter_pointwise(
        head.children,
        |x: int| other_than(e)(x) && carries(x),
        carries,
    );
}

/// The attributes of a link, laid over any others, read as the link
/// declares.
pub proof fn lemma_link_attributes(attributes: Map<Seq<char>, Seq<char>>, link: LinkView)
    ensures
        ({
            let laid = applied(attributes, identified_attrs(TagView::Link(link)));
            &&& laid.contains_pair("id"@, element_key(link.id))
            &&& laid.contains_pair("rel"@, link.rel)
            &&& laid.contains_pair("href"@, link.href)
            &&& forall|name: Seq<char>|
                name != "id"@ && name != "rel"@ && name != "href"@ ==> (laid.dom().contains(name)
                    <==> attributes.dom().contains(name)) && laid[name] == attributes[name]
        }),
{
    reveal_strlit("id");
    reveal_strlit("rel");
    reveal_strlit("href");
    reveal_with_fuel(applied, 4);
    assert("id"@.len() == 2 && "rel"@.len() == 3 && "href"@.len() == 4);
}

/// Two links with different ids do not get in each other's way: once both
/// are mounted, each is found by its own identifier, in an element of its own
/// that reads as the link declares; and unmounting the first leaves the
/// element of the second in the head, untouched.
pub proof fn law_links_isolated<D: HeadDocument>(head: HeadView, x: LinkView, y: LinkView)
    requires
        head.wf(),
        x.id != y.id,
        TagView::Link(x).mount::<D>(head).result is Ok,
        TagView::Link(y).mount::<D>(TagView::Link(x).mount::<D>(head).head).result is Ok,
    ensures
        ({
            let one = TagView::Link(x).mount::<D>(head).head;
            let two = TagView::Link(y).mount::<D>(one).head;
            let left = TagView::Link(x).unmount(two);
            let ex = two.by_id(element_key(x.id));
            let ey = two.by_id(element_key(y.id));
            &&& ex is Some
            &&& ey is Some
            &&& ex != ey
            &&& two.elements[ex->0].attributes.contains_pair("rel"@, x.rel)
            &&& two.elements[ex->0].attributes.contains_pair("href"@, x.href)
            &&& two.elements[ey->0].attributes.contains_pair("rel"@, y.rel)
            &&& two.elements[ey->0].attributes.contains_pair("href"@, y.href)
            &&& left.by_id(element_key(y.id)) == ey
            &&& left.children.contains(ey->0)
            &&& !left.children.contains(ex->0)
            &&& left.elements == two.elements
        }),
{
    let kx = element_key(x.id);
    let ky = element_key(y.id);
    lemma_element_key_injective(x.id, y.id);
    let one = TagView::Link(x).mount::<D>(head).head;
    let two = TagView::Link(y).mount::<D>(one).head;
    lemma_mount_identified::<D>(TagView::Link(x), head);
    lemma_mount_identified::<D>(TagView::Link(y), one);
    let ex = one.by_id(kx)->0;
    let ey = two.by_id(ky)->0;
    lemma_by_id(two, kx);
    lemma_by_id(two, ky);
    lemma_link_attributes(
        match head.by_id(kx) {
            Some(found) => head.elements[found].attributes,
            None => Map::empty(),
        },
        x,
    );
    lemma_link_attributes(
        match one.by_id(ky) {
            Some(found) => one.elements[found].attributes,
            None => Map::empty(),
        },
        y,
    );
    lemma_remove_keeps_identified(two, ex, ky);
    lemma_filter_contains(two.children, other_than(ex), ey);
    lemma_filter_contains(two.children, other_than(ex), ex);
}

/// A style that is mounted over one with the same id takes its place in the
/// same element: no element is created, the children are as they were, and
/// the element reads as the second style declares.
pub proof fn law_style_updated_in_place<D: HeadDocument>(
    head: HeadView,
    first: StyleView,
    second: StyleView,
)
    requires
        head.wf(),
        first.id == second.id,
        TagView::Style(first).mount::<D>(head).result is Ok,
    ensures
        ({
            let once = TagView::Style(first).mount::<D>(head).head;
            let twice = TagView::Style(second).mount::<D>(once);
            let key = element_key(first.id);
            &&& twice.result is Ok
            &&& once.by_id(key) is Some
            &&& twice.head.by_id(key) == once.by_id(key)
            &&& twice.head.identified(key) == once.identified(key)
            &&& twice.head.elements[once.by_id(key)->0].content == second.body
            &&& twice.head.children == once.children
            &&& twice.head.elements.len() == once.elements.len()
        }),
{
    let once = TagView::Style(first).mount::<D>(head).head;
    let key = element_key(first.id);
    lemma_mount_identified::<D>(TagView::Style(first), head);
    lemma_mount_result::<D>(TagView::Style(second), once);
    lemma_mount_identified::<D>(TagView::Style(second), once);
    let twice = TagView::Style(second).mount::<D>(once).head;
    lemma_filter_pointwise(
        once.children,
        twice.has_attribute("id"@, key),
        once.has_attribute("id"@, key),
    );
}

/// Unmounting touches no element; it only detaches children, and it leaves a
/// well-formed head well-formed.
pub proof fn lemma_unmount(tag: TagView, head: HeadView)
    requires
        head.wf(),
    ensures
        tag.unmount(head).wf(),
        tag.unmount(head).elements == head.elements,
        forall|e: int| tag.unmount(head).children.contains(e) ==> head.children.contains(e),
{
    if is_identified(tag) {
        lemma_by_id(head, key_of(tag));
        match head.by_id(key_of(tag)) {
            Some(e) => {
                lemma_without(head, among(seq![e]));
                assert forall|i: int| 0 <= i < head.children.len() implies other_than(e)(
                    #[trigger] head.children[i],
                ) == negate(among(seq![e]))(head.children[i]) by {
                    if head.children[i] == e {
                        assert(seq![e][0] == e);
                    }
                }
                lemma_filter_pointwise(head.children, other_than(e), negate(among(seq![e])));
            },
            None => {},
        }
    } else {
        match tag {
            TagView::Meta(name, _) => {
                lemma_without(
                    head,
                    both(head.has_tag(tag.tag_name()), head.has_attribute("name"@, name)),
                );
            },
            _ => {
                lemma_without(head, head.has_tag(tag.tag_name()));
            },
        }
    }
}

/// The condition under which a title and a meta element can be mounted and
/// unmounted without a trace: the head has no title element, and no meta
/// element but, at most, one of another name that already reads as the tag
/// would have it read, or that the document would refuse to change.
pub open spec fn leaves_no_trace<D: HeadDocument>(
    head: HeadView,
    name: Seq<char>,
    content: Seq<char>,
) -> bool {
    let metas = head.tagged("meta"@);
    &&& head.tagged("title"@).len() == 0
    &&& metas.len() <= 1
    &&& metas.len() == 1 ==> {
        let meta = head.elements[metas[0]];
        &&& meta.attribute("name"@) != Some(name)
        &&& meta.attribute("content"@) == Some(content) || !D::valid_attribute_name("content"@)
    }
}

/// Round trip: a title and a meta element that are mounted and then
/// unmounted leave the head as it was, child for child and element for
/// element, whether or not the document carried every step through.
pub proof fn law_title_and_meta_round_trip<D: HeadDocument>(
    head: HeadView,
    title: Seq<char>,
    name: Seq<char>,
    content: Seq<char>,
)
    requires
        head.wf(),
        leaves_no_trace::<D>(head, name, content),
    ensures
        ({
            let tags = seq![TagView::Title(title), TagView::Meta(name, content)];
            let back = unmounted(mounted::<D>(head, tags), tags);
            &&& back.children == head.children
            &&& forall|i: int|
                0 <= i < head.elements.len() ==> back.elements[i] == head.elements[i]
        }),
{
    reveal_strlit("title");
    reveal_strlit("meta");
    reveal_strlit("name");
    reveal_strlit("content");
    assert("title"@.len() == 5 && "meta"@.len() == 4 && "name"@.len() == 4 && "content"@.len()
        == 7);
    let the_title = TagView::Title(title);
    let the_meta = TagView::Meta(name, content);
    let tags = seq![the_title, the_meta];
    // What the four steps are.
    let one = the_title.mount::<D>(head).head;
    let two = the_meta.mount::<D>(one).head;
    let three = the_title.unmount(two);
    let four = the_meta.unmount(three);
    assert(mounted::<D>(head, tags) == two && unmounted(two, tags) == four) by {
        reveal_with_fuel(mounted, 3);
        reveal_with_fuel(unmounted, 3);
    }
    let titles = head.has_tag("title"@);
    let metas = head.has_tag("meta"@);
    lemma_tagged(head, "title"@);
    lemma_tagged(head, "meta"@);
    // The title: a new element at the end of the head, or nothing.
    lemma_create_and_mount::<D>(head, "title"@, Some(title), Seq::empty());
    let e1 = head.elements.len() as int;
    // The meta element: the one that is there stays as it is; where there is
    // none, a new element at the end of the head, or nothing.
    lemma_filter_pointwise(head.children, one.has_tag("meta"@), metas);
    lemma_filter_push(head.children, one.has_tag("meta"@), e1);
    let e2 = one.elements.len() as int;
    if head.tagged("meta"@).len() == 0 {
        let attrs = seq![("name"@, name), ("content"@, content)];
        lemma_create_and_mount::<D>(one, "meta"@, None, attrs);
        assert(applied(Map::empty(), attrs).contains_pair("name"@, name)) by {
            reveal_with_fuel(applied, 3);
        }
    } else {
        let meta = head.tagged("meta"@)[0];
        let update = seq![("content"@, content)];
        lemma_filter_all(one.children, negate(among(one.tagged("meta"@).skip(1))));
        lemma_set_attributes_result::<D>(one, meta, update);
        lemma_set_attributes_frame::<D>(one, meta, update);
        if D::valid_attribute_name("content"@) {
            lemma_set_attributes_ok::<D>(one, meta, update);
            assert(applied(one.elements[meta].attributes, update) =~= one.elements[
                meta
            ].attributes) by {
                reveal_with_fuel(applied, 2);
            }
        }
    }
    // Unmounting the title takes the new title element out, and no other.
    let gone_titles = negate(two.has_tag("title"@));
    lemma_unmount(the_title, two);
    assert forall|i: int| 0 <= i < head.children.len() implies gone_titles(
        #[trigger] head.children[i],
    ) by {
        let c = head.children[i];
        if titles(c) {
            assert(head.tagged("title"@).contains(c));
        }
    }
    lemma_filter_all(head.children, gone_titles);
    lemma_filter_push(head.children, gone_titles, e1);
    lemma_filter_push(head.children, gone_titles, e2);
    lemma_filter_push(head.children.push(e1), gone_titles, e2);
    // Unmounting the meta element takes the new meta element out, and no other.
    let gone_metas = negate(
        both(three.has_tag("meta"@), three.has_attribute("name"@, name)),
    );
    assert forall|i: int| 0 <= i < head.children.len() implies gone_metas(
        #[trigger] head.children[i],
    ) by {
        let c = head.children[i];
        if metas(c) {
            assert(head.tagged("meta"@).contains(c));
        }
    }
    lemma_filter_all(head.children, gone_metas);
    lemma_filter_push(head.children, gone_metas, e2);
}

/// The invariant of a mounted tag. After a title, a base or a meta tag was
/// mounted, the head has one element of the kind, and it reads as the tag
/// declares. After a style, a link or a script was mounted, an element is
/// found by its identifier and reads as the tag declares; it is the only one
/// with the identifier unless there were several before, which all stay.
pub proof fn law_mounted_once<D: HeadDocument>(tag: TagView, head: HeadView)
    requires
        head.wf(),
        tag.mount::<D>(head).result is Ok,
    ensures
        ({
            let after = tag.mount::<D>(head).head;
            let of_kind = after.tagged(tag.tag_name());
            let key = key_of(tag);
            let found = after.by_id(key);
            &&& after.wf()
            &&& !is_identified(tag) ==> of_kind.len() == 1 && after.knows(of_kind[0])
            &&& is_identified(tag) ==> {
                &&& found is Some
                &&& after.knows(found->0)
                &&& after.identified(key).len() == if head.identified(key).len() == 0 {
                    1
                } else {
                    head.identified(key).len()
                }
            }
            &&& match tag {
                TagView::Title(content) => after.elements[of_kind[0]].content == content,
                TagView::Base(href) => after.elements[of_kind[0]].attribute("href"@) == Some(
                    href,
                ),
                TagView::Meta(name, content) => {
                    &&& after.elements[of_kind[0]].attribute("content"@) == Some(content)
                    &&& head.tagged(tag.tag_name()).len() == 0 ==> after.elements[of_kind[0]].attribute(
                        "name"@,
                    ) == Some(name)
                },
                TagView::Style(style) => after.elements[found->0].content == style.body,
                TagView::Link(link) => {
                    &&& after.elements[found->0].attributes.contains_pair("rel"@, link.rel)
                    &&& after.elements[found->0].attributes.contains_pair("href"@, link.href)
                },
                TagView::Script(script) => script.body matches Some(text)
                    ==> after.elements[found->0].content == text,
            }
        }),
{
    let after = tag.mount::<D>(head).head;
    if is_identified(tag) {
        lemma_mount_identified::<D>(tag, head);
        if let TagView::Link(link) = tag {
            lemma_link_attributes(
                match head.by_id(key_of(tag)) {
                    Some(e) => head.elements[e].attributes,
                    None => Map::empty(),
                },
                link,
            );
        }
    } else {
        let (body, attrs, update) = held_once(tag);
        lemma_mount_unique::<D>(head, tag.tag_name(), body, attrs, update);
        reveal_strlit("name");
        reveal_strlit("content");
        assert("name"@.len() == 4 && "content"@.len() == 7);
        let e = after.tagged(tag.tag_name())[0];
        assert(tag matches TagView::Meta(name, content) ==> applied(
            Map::empty(),
            attrs,
        ).contains_pair("name"@, name) && applied(Map::empty(), attrs).contains_pair(
            "content"@,
            content,
        ) && applied(head.elements[e].attributes, update).contains_pair("content"@, content)) by {
            reveal_with_fuel(applied, 3);
        }
        assert(tag matches TagView::Base(href) ==> applied(Map::empty(), attrs).contains_pair(
            "href"@,
            href,
        ) && applied(head.elements[e].attributes, update).contains_pair("href"@, href)) by {
            reveal_with_fuel(applied, 2);
        }
    }
}

/// What unmounting leaves behind: no element of the kind, for a title and a
/// base; no meta element of the name, for a meta tag; for a style, a link and
/// a script, the elements with the identifier but the first. No element
/// changes, and no other child leaves.
pub proof fn law_unmounted_gone(tag: TagView, head: HeadView)
    requires
        head.wf(),
    ensures
        ({
            let after = tag.unmount(head);
            let kind = tag.tag_name();
            &&& after.wf()
            &&& after.elements == head.elements
            &&& match tag {
                TagView::Title(_) | TagView::Base(_) => {
                    &&& after.tagged(kind).len() == 0
                    &&& forall|e: int|
                        after.children.contains(e) <==> head.children.contains(e)
                            && head.elements[e].tag != kind
                },
                TagView::Meta(name, _) => forall|e: int|
                    after.children.contains(e) <==> head.children.contains(e) && !(
                    head.elements[e].tag == kind && head.elements[e].attribute("name"@) == Some(
                        name,
                    )),
                _ => {
                    &&& after.identified(key_of(tag)) == if head.identified(key_of(tag)).len() > 0 {
                        head.identified(key_of(tag)).skip(1)
                    } else {
                        head.identified(key_of(tag))
                    }
                    &&& forall|e: int|
                        after.children.contains(e) <==> head.children.contains(e) && head.by_id(
                            key_of(tag),
                        ) != Some(e)
                },
            }
        }),
{
    let after = tag.unmount(head);
    let kind = tag.tag_name();
    let key = key_of(tag);
    lemma_unmount(tag, head);
    if is_identified(tag) {
        lemma_by_id(head, key);
        let carries = head.has_attribute("id"@, key);
        match head.by_id(key) {
            Some(first) => {
                let all = head.identified(key);
                lemma_filter_commutes(head.children, other_than(first), carries);
                lemma_filter_no_duplicates(head.children, carries);
                lemma_remove_is_filter(all, 0);
                lemma_filter_pointwise(all, |x: int| x != all[0], other_than(first));
                assert forall|e: int|
                    after.children.contains(e) <==> head.children.contains(e) && Some(first)
                        != Some(e) by {
                    lemma_filter_contains(head.children, other_than(first), e);
                }
            },
            None => {},
        }
    } else {
        match tag {
            TagView::Meta(name, _) => {
                lemma_without(head, both(head.has_tag(kind), head.has_attribute("name"@, name)));
            },
            _ => {
                lemma_without(head, head.has_tag(kind));
                lemma_filter_none(after.children, after.has_tag(kind));
            },
        }
    }
}

} // verus!
