//! Keeps a whole list of tags mounted for as long as its owner lives.

use crate::document::{well_formed, DomOperationError, HeadDocument, HeadView};
use crate::tag::{Tag, TagView};
use vstd::prelude::*;

verus! {

/// A list of tags as the contracts see it.
pub open spec fn tags_view(tags: Seq<Tag>) -> Seq<TagView> {
    tags.map_values(|tag: Tag| tag@)
}

/// The head after every tag of `tags` was mounted, one after the other. A tag
/// that the document refuses does not keep those after it from being mounted.
pub open spec fn mounted<D: HeadDocument>(head: HeadView, tags: Seq<TagView>) -> HeadView
    decreases tags.len(),
{
    if tags.len() == 0 {
        head
    } else {
        tags.last().mount::<D>(mounted::<D>(head, tags.drop_last())).head
    }
}

/// What mounting each tag of `tags` ends in, one after the other.
pub open spec fn mount_results<D: HeadDocument>(head: HeadView, tags: Seq<TagView>) -> Seq<
    Result<(), DomOperationError>,
> {
    Seq::new(tags.len(), |i: int| tags[i].mount::<D>(mounted::<D>(head, tags.take(i))).result)
}

/// The head after every tag of `tags` was unmounted, one after the other.
pub open spec fn unmounted(head: HeadView, tags: Seq<TagView>) -> HeadView
    decreases tags.len(),
{
    if tags.len() == 0 {
        head
    } else {
        tags.last().unmount(unmounted(head, tags.drop_last()))
    }
}

/// The head after what an earlier activation mounted was unmounted.
pub open spec fn released(head: HeadView, mounted: Option<Seq<TagView>>) -> HeadView {
    match mounted {
        Some(tags) => unmounted(head, tags),
        None => head,
    }
}

/// Mounts every tag of `tags`, in order, and reports for each how it ended.
pub fn mount_all<D: HeadDocument>(tags: &Vec<Tag>, doc: &mut D) -> (r: Vec<
    Result<(), DomOperationError>,
>)
    requires
        well_formed(*old(doc)),
    ensures
        well_formed(*final(doc)),
        final(doc)@ == mounted::<D>(old(doc)@, tags_view(tags@)),
        r@ == mount_results::<D>(old(doc)@, tags_view(tags@)),
{
    let ghost all = tags_view(tags@);
    let mut results: Vec<Result<(), DomOperationError>> = Vec::new();
    let mut i: usize = 0;
    while i < tags.len()
        invariant
            well_formed(*doc),
            i <= tags.len(),
            all == tags_view(tags@),
            doc@ == mounted::<D>(old(doc)@, all.take(i as int)),
            results.len() == i,
            forall|k: int|
                0 <= k < i ==> results[k] == all[k].mount::<D>(
                    mounted::<D>(old(doc)@, all.take(k)),
                ).result,
        decreases tags.len() - i,
    {
        assert(all.take(i + 1).drop_last() =~= all.take(i as int));
        let result = tags[i].mount(doc);
        results.push(result);
        i += 1;
    }
    assert(all.take(i as int) =~= all);
    results
}

/// Unmounts every tag of `tags`, in order, and reports for each how it ended:
/// well, since no document refuses to let an element go.
pub fn unmount_all<D: HeadDocument>(tags: &Vec<Tag>, doc: &mut D) -> (r: Vec<
    Result<(), DomOperationError>,
>)
    requires
        well_formed(*old(doc)),
    ensures
        well_formed(*final(doc)),
        final(doc)@ == unmounted(old(doc)@, tags_view(tags@)),
        r.len() == tags.len(),
        forall|i: int| 0 <= i < r.len() ==> r[i] == Ok::<(), DomOperationError>(()),
{
    let ghost all = tags_view(tags@);
    let mut results: Vec<Result<(), DomOperationError>> = Vec::new();
    let mut i: usize = 0;
    while i < tags.len()
        invariant
            well_formed(*doc),
            i <= tags.len(),
            all == tags_view(tags@),
            doc@ == unmounted(old(doc)@, all.take(i as int)),
            results.len() == i,
            forall|k: int| 0 <= k < i ==> results[k] == Ok::<(), DomOperationError>(()),
        decreases tags.len() - i,
    {
        assert(all.take(i + 1).drop_last() =~= all.take(i as int));
        let result = tags[i].unmount(doc);
        results.push(result);
        i += 1;
    }
    assert(all.take(i as int) =~= all);
    results
}

/// How one activation went: what unmounting the tags of the activation before
/// ended in, and what mounting the new ones ended in, tag by tag.
pub struct Activation {
    pub unmounted: Vec<Result<(), DomOperationError>>,
    pub mounted: Vec<Result<(), DomOperationError>>,
}

/// Keeps a list of tags mounted.
///
/// Each activation first unmounts what the one before had mounted, then
/// mounts the new list. The teardown unmounts what is mounted; after it
/// nothing is, and a second teardown does nothing.
///
/// This is the discipline of [`crate::hooks::EffectCleanupHook`] with the
/// document at hand: a cleanup that the hook stores cannot hold on to a
/// document that the caller lends for one call only, so the manager keeps
/// the tags and is handed the document each time. Used for one run of an
/// effect, a manager is what that run leaves behind: activated in the run,
/// torn down by its cleanup.
pub struct HeadManager<'a> {
    mounted: Option<Vec<Tag<'a>>>,
}

impl<'a> View for HeadManager<'a> {
    type V = Option<Seq<TagView>>;

    closed spec fn view(&self) -> Option<Seq<TagView>> {
        match self.mounted {
            Some(tags) => Some(tags_view(tags@)),
            None => None,
        }
    }
}

impl<'a> HeadManager<'a> {
    /// A manager that has mounted nothing.
    pub fn new() -> (r: Self)
        ensures
            r@ is None,
    {
        HeadManager { mounted: None }
    }

    /// The tags that are mounted, if any are.
    pub fn mounted(&self) -> (r: Option<&Vec<Tag<'a>>>)
        ensures
            match r {
                Some(tags) => self@ == Some(tags_view(tags@)),
                None => self@ is None,
            },
    {
        match &self.mounted {
            Some(tags) => Some(tags),
            None => None,
        }
    }

    /// Unmounts the tags of the activation before, then mounts `tags`, which
    /// the manager keeps to unmount them later.
    pub fn activate<D: HeadDocument>(&mut self, tags: Vec<Tag<'a>>, doc: &mut D) -> (r: Activation)
        requires
            well_formed(*old(doc)),
        ensures
            well_formed(*final(doc)),
            final(self)@ == Some(tags_view(tags@)),
            final(doc)@ == mounted::<D>(released(old(doc)@, old(self)@), tags_view(tags@)),
            r.mounted@ == mount_results::<D>(released(old(doc)@, old(self)@), tags_view(tags@)),
            old(self)@ matches Some(previous) ==> r.unmounted.len() == previous.len(),
            old(self)@ is None ==> r.unmounted.len() == 0,
            forall|i: int|
                0 <= i < r.unmounted.len() ==> r.unmounted[i] == Ok::<(), DomOperationError>(()),
    {
        let unmounted = self.teardown(doc);
        let mounted = mount_all(&tags, doc);
        self.mounted = Some(tags);
        Activation { unmounted, mounted }
    }

    /// Unmounts what is mounted. Afterwards nothing is.
    pub fn teardown<D: HeadDocument>(&mut self, doc: &mut D) -> (r: Vec<
        Result<(), DomOperationError>,
    >)
        requires
            well_formed(*old(doc)),
        ensures
            well_formed(*final(doc)),
            final(self)@ is None,
            final(doc)@ == released(old(doc)@, old(self)@),
            old(self)@ matches Some(previous) ==> r.len() == previous.len(),
            old(self)@ is None ==> r.len() == 0,
            forall|i: int| 0 <= i < r.len() ==> r[i] == Ok::<(), DomOperationError>(()),
    {
        match self.mounted.take() {
            Some(tags) => unmount_all(&tags, doc),
            None => Vec::new(),
        }
    }
}

} // verus!
