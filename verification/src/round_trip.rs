//! A list of tags that is mounted and then unmounted leaves no trace in a head
//! that held none of what the tags look for.

use crate::document::{lemma_by_id, lemma_tagged, HeadDocument, HeadView};
use crate::head_manager::{mounted, unmounted};
use crate::document::{among, both, negate, other_than};
use crate::laws::{
    applied, held_once, identified_attrs, is_identified, key_of, lemma_create_and_mount,
    lemma_identified_attrs,
};
use crate::reconcile::{create_and_mount, lemma_set_attributes_frame, set_attributes};
use crate::sequences::{
    lemma_filter_all, lemma_filter_commutes, lemma_filter_contains, lemma_filter_keeps_prefix,
    lemma_filter_no_duplicates, lemma_filter_pointwise, lemma_filter_push,
};
use crate::tag::TagView;
use vstd::prelude::*;

verus! {

/// Whether the element `e` of `head` is one that unmounting `tag` takes out
/// of the head: an element of the kind, for a title and a base; a meta
/// element of the name, for a meta tag; an element with the identifier, for
/// a style, a link and a script.
pub open spec fn claims(tag: TagView, head: HeadView, e: int) -> bool {
    let element = head.elements[e];
    match tag {
        TagView::Title(_) | TagView::Base(_) => element.tag == tag.tag_name(),
        TagView::Meta(name, _) => element.tag == tag.tag_name() && element.attribute("name"@)
            == Some(name),
        _ => element.attribute("id"@) == Some(key_of(tag)),
    }
}

/// Whether `head` holds nothing that mounting `tag` would find: no element of
/// the kind, for a title, a base and a meta tag; no element with the
/// identifier, for a style, a link and a script.
pub open spec fn untouched(tag: TagView, head: HeadView) -> bool {
    if is_identified(tag) {
        head.by_id(key_of(tag)) is None
    } else {
        head.tagged(tag.tag_name()).len() == 0
    }
}

/// Whether `head` holds nothing that mounting any tag of `tags` would find.
pub open spec fn all_untouched(tags: Seq<TagView>, head: HeadView) -> bool {
    forall|j: int| 0 <= j < tags.len() ==> untouched(#[trigger] tags[j], head)
}

/// Two heads whose elements agree in what tags go by: kind, identifier and
/// name.
pub open spec fn same_marks(one: HeadView, other: HeadView) -> bool {
    &&& one.elements.len() == other.elements.len()
    &&& forall|i: int|
        0 <= i < one.elements.len() ==> {
            &&& (#[trigger] one.elements[i]).tag == other.elements[i].tag
            &&& one.elements[i].attribute("id"@) == other.elements[i].attribute("id"@)
            &&& one.elements[i].attribute("name"@) == other.elements[i].attribute("name"@)
        }
}

/// What holds of a head while the tags of `tags` are mounted into `head`, and
/// while they are unmounted again, those before the position `from` being
/// unmounted already: the children of `head` come first, unchanged; behind
/// them come new elements only, each claimed by a tag that is not unmounted
/// yet; and no identifier of a tag is carried by two children.
pub open spec fn traced(head: HeadView, tags: Seq<TagView>, from: int, now: HeadView) -> bool {
    let old_children = head.children.len() as int;
    let old_elements = head.elements.len() as int;
    &&& now.wf()
    &&& now.elements.len() >= old_elements
    &&& forall|i: int| 0 <= i < old_elements ==> #[trigger] now.elements[i] == head.elements[i]
    &&& now.children.len() >= old_children
    &&& now.children.take(old_children) == head.children
    &&& forall|c: int| #[trigger]
        now.children.skip(old_children).contains(c) ==> c >= old_elements && exists|j: int|
            from <= j < tags.len() && #[trigger] claims(tags[j], now, c)
    &&& forall|j: int|
        0 <= j < tags.len() && is_identified(#[trigger] tags[j]) ==> now.identified(
            key_of(tags[j]),
        ).len() <= 1
}

/// The names of the attributes that tags set, and the kinds of the elements
/// that they stand for, are all different.
pub proof fn lemma_names_differ()
    ensures
        "id"@ != "rel"@,
        "id"@ != "href"@,
        "id"@ != "name"@,
        "id"@ != "content"@,
        "name"@ != "rel"@,
        "name"@ != "href"@,
        "name"@ != "content"@,
        "meta"@ != "title"@,
        "meta"@ != "base"@,
        "meta"@ != "style"@,
        "meta"@ != "link"@,
        "meta"@ != "script"@,
        "title"@ != "base"@,
        "title"@ != "style"@,
        "title"@ != "link"@,
        "title"@ != "script"@,
        "base"@ != "style"@,
        "base"@ != "link"@,
        "base"@ != "script"@,
{
    reveal_strlit("id");
    reveal_strlit("rel");
    reveal_strlit("href");
    reveal_strlit("name");
    reveal_strlit("content");
    reveal_strlit("meta");
    reveal_strlit("title");
    reveal_strlit("base");
    reveal_strlit("style");
    reveal_strlit("link");
    reveal_strlit("script");
    assert("id"@.len() == 2 && "rel"@.len() == 3 && "content"@.len() == 7);
    assert("name"@[0] == 'n' && "href"@[0] == 'h');
    assert("meta"@[0] == 'm' && "base"@[0] == 'b' && "link"@[0] == 'l');
    assert("title"@[0] == 't' && "style"@[0] == 's' && "script"@.len() == 6);
}

/// No tag claims a child that was in the head from the start.
pub proof fn lemma_old_children_unclaimed(
    head: HeadView,
    tags: Seq<TagView>,
    from: int,
    now: HeadView,
    j: int,
    i: int,
)
    requires
        head.wf(),
        traced(head, tags, from, now),
        0 <= j < tags.len(),
        untouched(tags[j], head),
        0 <= i < head.children.len(),
    ensures
        now.children[i] == head.children[i],
        now.elements[now.children[i]] == head.elements[head.children[i]],
        !claims(tags[j], now, now.children[i]),
{
    let c = head.children[i];
    assert(head.children.contains(c));
    lemma_tagged(head, tags[j].tag_name());
    lemma_by_id(head, key_of(tags[j]));
}

/// Detaching children keeps the trace, where no child from the start is
/// detached, the elements keep their marks, and every new child that stays
/// is claimed by a tag from the position `next` on.
pub proof fn lemma_filtered_keeps_trace(
    head: HeadView,
    tags: Seq<TagView>,
    from: int,
    next: int,
    now: HeadView,
    after: HeadView,
    keep: spec_fn(int) -> bool,
)
    requires
        head.wf(),
        traced(head, tags, from, now),
        same_marks(now, after),
        forall|i: int|
            0 <= i < head.elements.len() ==> #[trigger] after.elements[i] == now.elements[i],
        after.children == now.children.filter(keep),
        forall|i: int| 0 <= i < head.children.len() ==> keep(#[trigger] now.children[i]),
        forall|c: int| #[trigger]
            now.children.skip(head.children.len() as int).contains(c) && keep(c) ==> exists|
                j: int,
            |
                next <= j < tags.len() && #[trigger] claims(tags[j], now, c),
    ensures
        traced(head, tags, next, after),
{
    let n = head.children.len() as int;
    lemma_filter_keeps_prefix(now.children, n, keep);
    lemma_filter_no_duplicates(now.children, keep);
    assert forall|i: int| 0 <= i < after.children.len() implies after.knows(
        #[trigger] after.children[i],
    ) by {
        lemma_filter_contains(now.children, keep, after.children[i]);
    }
    assert forall|c: int| #[trigger] after.children.skip(n).contains(c) implies c
        >= head.elements.len() && exists|j: int|
        next <= j < tags.len() && #[trigger] claims(tags[j], after, c) by {
        lemma_filter_contains(now.children.skip(n), keep, c);
        let j = choose|j: int| next <= j < tags.len() && #[trigger] claims(tags[j], now, c);
        assert(claims(tags[j], after, c));
    }
    assert forall|j: int| 0 <= j < tags.len() && is_identified(#[trigger] tags[j]) implies
        after.identified(key_of(tags[j])).len() <= 1 by {
        let key = key_of(tags[j]);
        let carries = now.has_attribute("id"@, key);
        lemma_filter_pointwise(after.children, after.has_attribute("id"@, key), carries);
        lemma_filter_commutes(now.children, keep, carries);
        now.children.filter(carries).lemma_filter_len(keep);
    }
}

/// The predicate that holds of every element.
pub open spec fn everything() -> spec_fn(int) -> bool {
    |c: int| true
}

/// A child that a tag with nothing of its own in the head from the start
/// claims is a new one.
pub proof fn lemma_claimed_is_new(
    head: HeadView,
    tags: Seq<TagView>,
    from: int,
    now: HeadView,
    j: int,
    c: int,
)
    requires
        head.wf(),
        traced(head, tags, from, now),
        0 <= j < tags.len(),
        untouched(tags[j], head),
        now.children.contains(c),
        claims(tags[j], now, c),
    ensures
        now.children.skip(head.children.len() as int).contains(c),
        c >= head.elements.len(),
{
    let n = head.children.len() as int;
    let i = choose|i: int| 0 <= i < now.children.len() && now.children[i] == c;
    if i < n {
        lemma_old_children_unclaimed(head, tags, from, now, j, i);
    }
    assert(now.children.skip(n)[i - n] == c);
    assert(now.children.skip(n).contains(c));
}

/// Changing new elements keeps the trace, where the elements keep their
/// marks.
pub proof fn lemma_changed_keeps_trace(
    head: HeadView,
    tags: Seq<TagView>,
    from: int,
    now: HeadView,
    after: HeadView,
)
    requires
        head.wf(),
        traced(head, tags, from, now),
        same_marks(now, after),
        forall|i: int|
            0 <= i < head.elements.len() ==> #[trigger] after.elements[i] == now.elements[i],
        after.children == now.children,
    ensures
        traced(head, tags, from, after),
{
    lemma_filter_all(now.children, everything());
    lemma_filtered_keeps_trace(head, tags, from, from, now, after, everything());
}

/// Creating an element and appending it keeps the trace, where the tag at
/// `j` claims the new element, and the new element carries no identifier of a
/// tag that a child carries already.
pub proof fn lemma_created_keeps_trace<D: HeadDocument>(
    head: HeadView,
    tags: Seq<TagView>,
    now: HeadView,
    kind: Seq<char>,
    body: Option<Seq<char>>,
    attrs: Seq<(Seq<char>, Seq<char>)>,
    j: int,
)
    requires
        head.wf(),
        traced(head, tags, 0, now),
        0 <= j < tags.len(),
        ({
            let after = create_and_mount::<D>(now, kind, body, attrs);
            let e = now.elements.len() as int;
            after.result is Ok ==> {
                &&& claims(tags[j], after.head, e)
                &&& forall|i: int|
                    0 <= i < tags.len() && is_identified(#[trigger] tags[i])
                        && after.head.elements[e].attribute("id"@) == Some(key_of(tags[i]))
                        ==> now.identified(key_of(tags[i])).len() == 0
            }
        }),
    ensures
        traced(head, tags, 0, create_and_mount::<D>(now, kind, body, attrs).head),
{
    let created = create_and_mount::<D>(now, kind, body, attrs);
    let after = created.head;
    let e = now.elements.len() as int;
    let n = head.children.len() as int;
    lemma_create_and_mount::<D>(now, kind, body, attrs);
    if created.result is Ok {
        assert(after.children.take(n) =~= now.children.take(n));
    }
    assert forall|c: int| #[trigger] after.children.skip(n).contains(c) implies c
        >= head.elements.len() && exists|i: int|
        0 <= i < tags.len() && #[trigger] claims(tags[i], after, c) by {
        if !(created.result is Ok && c == e) {
            assert(now.children.skip(n).contains(c)) by {
                if created.result is Ok {
                    let k = choose|k: int|
                        0 <= k < after.children.skip(n).len() && after.children.skip(n)[k] == c;
                    assert(now.children.skip(n)[k] == c);
                }
            }
            let i = choose|i: int| 0 <= i < tags.len() && #[trigger] claims(tags[i], now, c);
            assert(claims(tags[i], after, c));
        }
    }
    assert forall|i: int| 0 <= i < tags.len() && is_identified(#[trigger] tags[i]) implies
        after.identified(key_of(tags[i])).len() <= 1 by {
        let key = key_of(tags[i]);
        let carries = now.has_attribute("id"@, key);
        lemma_filter_pointwise(now.children, after.has_attribute("id"@, key), carries);
        lemma_filter_push(now.children, after.has_attribute("id"@, key), e);
    }
    assert forall|i: int| 0 <= i < head.elements.len() implies #[trigger] after.elements[i]
        == head.elements[i] by {
        assert(now.elements[i] == head.elements[i]);
    }
}

/// Whether attributes are set or refused, those that an element ends up with
/// are its own with some of the first pairs laid over them.
pub proof fn lemma_set_attributes_prefix<D: HeadDocument>(
    head: HeadView,
    e: int,
    attrs: Seq<(Seq<char>, Seq<char>)>,
) -> (k: int)
    requires
        head.knows(e),
    ensures
        0 <= k <= attrs.len(),
        set_attributes::<D>(head, e, attrs).head.elements[e].attributes == applied(
            head.elements[e].attributes,
            attrs.take(k),
        ),
    decreases attrs.len(),
{
    if attrs.len() > 0 && D::valid_attribute_name(attrs[0].0) {
        let next = head.set_attribute(e, attrs[0].0, attrs[0].1);
        let k = lemma_set_attributes_prefix::<D>(next, e, attrs.skip(1));
        assert(attrs.take(k + 1).skip(1) =~= attrs.skip(1).take(k));
        k + 1
    } else {
        0
    }
}

/// An attribute that no pair changes is left as it was: each pair either
/// has another name or holds the value that is there already.
pub proof fn lemma_applied_keeps(
    attributes: Map<Seq<char>, Seq<char>>,
    attrs: Seq<(Seq<char>, Seq<char>)>,
    name: Seq<char>,
)
    requires
        forall|i: int|
            0 <= i < attrs.len() && (#[trigger] attrs[i]).0 == name ==> attributes.contains_pair(
                name,
                attrs[i].1,
            ),
    ensures
        applied(attributes, attrs).dom().contains(name) <==> attributes.dom().contains(name),
        applied(attributes, attrs)[name] == attributes[name],
    decreases attrs.len(),
{
    if attrs.len() > 0 {
        let next = attributes.insert(attrs[0].0, attrs[0].1);
        lemma_applied_keeps(next, attrs.skip(1), name);
    }
}

/// Mounting one of the tags keeps the trace.
pub proof fn lemma_mount_keeps_trace<D: HeadDocument>(
    head: HeadView,
    tags: Seq<TagView>,
    now: HeadView,
    j: int,
)
    requires
        head.wf(),
        all_untouched(tags, head),
        traced(head, tags, 0, now),
        0 <= j < tags.len(),
    ensures
        traced(head, tags, 0, tags[j].mount::<D>(now).head),
{
    let tag = tags[j];
    let kind = tag.tag_name();
    let key = key_of(tag);
    let after = tag.mount::<D>(now).head;
    lemma_names_differ();
    lemma_by_id(now, key);
    lemma_tagged(now, kind);
    if is_identified(tag) {
        match now.by_id(key) {
            Some(e) => {
                lemma_claimed_is_new(head, tags, 0, now, j, e);
                match tag {
                    TagView::Link(_) => {
                        let attrs = identified_attrs(tag);
                        let k = lemma_set_attributes_prefix::<D>(now, e, attrs);
                        lemma_set_attributes_frame::<D>(now, e, attrs);
                        lemma_applied_keeps(now.elements[e].attributes, attrs.take(k), "id"@);
                        lemma_applied_keeps(now.elements[e].attributes, attrs.take(k), "name"@);
                    },
                    _ => {},
                }
                lemma_changed_keeps_trace(head, tags, 0, now, after);
            },
            None => {
                let body = match tag {
                    TagView::Style(style) => Some(style.body),
                    TagView::Script(script) => script.body,
                    _ => None,
                };
                let attrs = identified_attrs(tag);
                lemma_create_and_mount::<D>(now, kind, body, attrs);
                lemma_identified_attrs(tag, Map::empty());
                lemma_created_keeps_trace::<D>(head, tags, now, kind, body, attrs, j);
            },
        }
    } else {
        let found = now.tagged(kind);
        let (body, attrs, update) = held_once(tag);
        if found.len() == 0 {
            lemma_create_and_mount::<D>(now, kind, body, attrs);
            assert(applied(Map::empty(), attrs).dom().contains("name"@) ==> tag is Meta) by {
                reveal_with_fuel(applied, 3);
            }
            assert(tag matches TagView::Meta(name, _) ==> applied(
                Map::empty(),
                attrs,
            ).contains_pair("name"@, name)) by {
                reveal_with_fuel(applied, 3);
            }
            assert(!applied(Map::empty(), attrs).dom().contains("id"@)) by {
                reveal_with_fuel(applied, 3);
            }
            lemma_created_keeps_trace::<D>(head, tags, now, kind, body, attrs, j);
        } else {
            let first = found[0];
            let extras = among(found.skip(1));
            let kept = now.without(extras);
            // The elements of the kind that came from elsewhere are new ones.
            assert forall|i: int| 0 <= i < head.children.len() implies negate(extras)(
                #[trigger] now.children[i],
            ) by {
                lemma_old_children_unclaimed(head, tags, 0, now, j, i);
                let c = now.children[i];
                if found.skip(1).contains(c) {
                    lemma_tagged(head, kind);
                    assert(head.children.contains(c));
                }
            }
            lemma_filtered_keeps_trace(head, tags, 0, 0, now, kept, negate(extras));
            // The first of them is a new one too, and it keeps its marks.
            assert(first >= head.elements.len()) by {
                let i = choose|i: int| 0 <= i < now.children.len() && now.children[i] == first;
                if i < head.children.len() {
                    lemma_old_children_unclaimed(head, tags, 0, now, j, i);
                    lemma_tagged(head, kind);
                    assert(head.children.contains(first));
                }
                assert(now.children.skip(head.children.len() as int)[i - head.children.len()]
                    == first);
                assert(now.children.skip(head.children.len() as int).contains(first));
            }
            let filled = match body {
                Some(text) => kept.set_content(first, text),
                None => kept,
            };
            let k = lemma_set_attributes_prefix::<D>(filled, first, update);
            lemma_set_attributes_frame::<D>(filled, first, update);
            assert(forall|i: int|
                0 <= i < update.take(k).len() ==> (#[trigger] update.take(k)[i]).0 == "content"@
                    || update.take(k)[i].0 == "href"@);
            lemma_applied_keeps(filled.elements[first].attributes, update.take(k), "id"@);
            lemma_applied_keeps(filled.elements[first].attributes, update.take(k), "name"@);
            lemma_changed_keeps_trace(head, tags, 0, kept, after);
        }
    }
}

/// Unmounting the tag at `from` keeps the trace, and leaves behind no child
/// that only this tag claims.
pub proof fn lemma_unmount_keeps_trace(
    head: HeadView,
    tags: Seq<TagView>,
    from: int,
    now: HeadView,
)
    requires
        head.wf(),
        all_untouched(tags, head),
        traced(head, tags, from, now),
        0 <= from < tags.len(),
    ensures
        traced(head, tags, from + 1, tags[from].unmount(now)),
{
    let tag = tags[from];
    let kind = tag.tag_name();
    let key = key_of(tag);
    let after = tag.unmount(now);
    let n = head.children.len() as int;
    lemma_by_id(now, key);
    let keep = if is_identified(tag) {
        match now.by_id(key) {
            Some(e) => other_than(e),
            None => everything(),
        }
    } else {
        match tag {
            TagView::Meta(name, _) => negate(
                both(now.has_tag(kind), now.has_attribute("name"@, name)),
            ),
            _ => negate(now.has_tag(kind)),
        }
    };
    if is_identified(tag) && now.by_id(key) is None {
        lemma_filter_all(now.children, everything());
    }
    assert forall|i: int| 0 <= i < n implies keep(#[trigger] now.children[i]) by {
        lemma_old_children_unclaimed(head, tags, from, now, from, i);
    }
    assert forall|c: int| #[trigger] now.children.skip(n).contains(c) && keep(c) implies exists|
        j: int,
    |
        from + 1 <= j < tags.len() && #[trigger] claims(tags[j], now, c) by {
        let j = choose|j: int| from <= j < tags.len() && #[trigger] claims(tags[j], now, c);
        if j == from && is_identified(tag) {
            lemma_filter_contains(now.children, now.has_attribute("id"@, key), c);
        }
    }
    lemma_filtered_keeps_trace(head, tags, from, from + 1, now, after, keep);
}

/// The head after the first `k` of the tags were mounted carries their trace.
pub proof fn lemma_mounted_traced<D: HeadDocument>(head: HeadView, tags: Seq<TagView>, k: int)
    requires
        head.wf(),
        all_untouched(tags, head),
        0 <= k <= tags.len(),
    ensures
        traced(head, tags, 0, mounted::<D>(head, tags.take(k))),
    decreases k,
{
    let n = head.children.len() as int;
    if k == 0 {
        assert(head.children.take(n) =~= head.children);
    } else {
        lemma_mounted_traced::<D>(head, tags, k - 1);
        assert(tags.take(k).drop_last() =~= tags.take(k - 1));
        lemma_mount_keeps_trace::<D>(head, tags, mounted::<D>(head, tags.take(k - 1)), k - 1);
    }
}

/// The head after the first `k` of the tags were unmounted again carries the
/// trace of the others.
pub proof fn lemma_unmounted_traced(head: HeadView, tags: Seq<TagView>, all: HeadView, k: int)
    requires
        head.wf(),
        all_untouched(tags, head),
        traced(head, tags, 0, all),
        0 <= k <= tags.len(),
    ensures
        traced(head, tags, k, unmounted(all, tags.take(k))),
    decreases k,
{
    if k > 0 {
        lemma_unmounted_traced(head, tags, all, k - 1);
        assert(tags.take(k).drop_last() =~= tags.take(k - 1));
        lemma_unmount_keeps_trace(head, tags, k - 1, unmounted(all, tags.take(k - 1)));
    }
}

/// Round trip: in a head that holds nothing of what the tags look for, tags
/// that are mounted and then unmounted leave the children as they were, and
/// every element that was known as it was, whether or not the document
/// carried every step through.
pub proof fn law_round_trip<D: HeadDocument>(head: HeadView, tags: Seq<TagView>)
    requires
        head.wf(),
        all_untouched(tags, head),
    ensures
        ({
            let back = unmounted(mounted::<D>(head, tags), tags);
            &&& back.wf()
            &&& back.children == head.children
            &&& back.elements.len() >= head.elements.len()
            &&& forall|i: int|
                0 <= i < head.elements.len() ==> #[trigger] back.elements[i] == head.elements[i]
        }),
{
    let all = mounted::<D>(head, tags);
    let back = unmounted(all, tags);
    let n = head.children.len() as int;
    assert(tags.take(tags.len() as int) =~= tags);
    lemma_mounted_traced::<D>(head, tags, tags.len() as int);
    lemma_unmounted_traced(head, tags, all, tags.len() as int);
    if back.children.len() > n {
        assert(back.children.skip(n)[0] == back.children[n]);
        assert(back.children.skip(n).contains(back.children[n]));
    }
}

} // verus!
