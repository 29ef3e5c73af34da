use dioxus_head::document::{DomOperation, DomOperationError, HeadDocument};
use dioxus_head::head_manager::{mount_all, unmount_all, HeadManager};
use dioxus_head::memory::MemoryDocument;
use dioxus_head::tag::{Link, Script, Style, Tag};

fn refused_attribute() -> Result<(), DomOperationError> {
    Err(DomOperationError { operation: DomOperation::SetAttribute })
}

#[test]
fn a_title_and_a_meta_mounted_and_unmounted_leave_the_head_as_it_was() {
    let mut doc = MemoryDocument::new();
    let link = doc.create_element("link").unwrap();
    doc.set_attribute(link, "rel", "icon").unwrap();
    doc.append_child(link).unwrap();
    let before = doc.children();
    let mut manager = HeadManager::new();
    let report = manager.activate(
        vec![Tag::Title("Home"), Tag::Meta("description", "desc")],
        &mut doc,
    );
    assert_eq!(report.unmounted, vec![]);
    assert_eq!(report.mounted, vec![Ok(()), Ok(())]);
    assert_eq!(doc.children(), vec![link, 1, 2]);
    assert_eq!(doc.inner_content(1), Some(String::from("Home")));
    assert_eq!(doc.attribute(2, "name"), Some(String::from("description")));
    assert_eq!(doc.attribute(2, "content"), Some(String::from("desc")));
    assert_eq!(manager.teardown(&mut doc), vec![Ok(()), Ok(())]);
    assert_eq!(doc.children(), before);
    assert_eq!(doc.tag_name(link), Some(String::from("link")));
    assert_eq!(doc.attribute(link, "rel"), Some(String::from("icon")));
    assert_eq!(doc.elements_by_tag_name("title"), Vec::<usize>::new());
    assert_eq!(doc.elements_by_tag_name("meta"), Vec::<usize>::new());
}

#[test]
fn the_round_trip_from_an_empty_head_ends_in_an_empty_head() {
    let mut doc = MemoryDocument::new();
    let tags = vec![Tag::Title("Home"), Tag::Meta("description", "desc")];
    assert_eq!(mount_all(&tags, &mut doc), vec![Ok(()), Ok(())]);
    assert_eq!(doc.children(), vec![0, 1]);
    assert_eq!(unmount_all(&tags, &mut doc), vec![Ok(()), Ok(())]);
    assert_eq!(doc.children(), Vec::<usize>::new());
}

#[test]
fn a_second_teardown_does_nothing() {
    let mut doc = MemoryDocument::new();
    let mut manager = HeadManager::new();
    manager.activate(vec![Tag::Title("Home")], &mut doc);
    assert_eq!(manager.teardown(&mut doc), vec![Ok(())]);
    Tag::Title("Someone else's").mount(&mut doc).unwrap();
    assert_eq!(manager.teardown(&mut doc), vec![]);
    assert_eq!(doc.elements_by_tag_name("title").len(), 1);
}

#[test]
fn a_teardown_before_any_activation_does_nothing() {
    let mut doc = MemoryDocument::new();
    Tag::Title("Someone else's").mount(&mut doc).unwrap();
    let mut manager = HeadManager::new();
    assert_eq!(manager.teardown(&mut doc), vec![]);
    assert_eq!(doc.children(), vec![0]);
}

#[test]
fn an_activation_unmounts_the_list_before_it_mounts_the_new_one() {
    let mut doc = MemoryDocument::new();
    let mut manager = HeadManager::new();
    manager.activate(
        vec![
            Tag::Style(Style { id: "a", body: "a{}" }),
            Tag::Link(Link { id: "b", rel: "icon", href: "b.ico" }),
        ],
        &mut doc,
    );
    assert_eq!(doc.children(), vec![0, 1]);
    let report = manager.activate(
        vec![
            Tag::Link(Link { id: "b", rel: "icon", href: "c.ico" }),
            Tag::Title("Home"),
        ],
        &mut doc,
    );
    assert_eq!(report.unmounted, vec![Ok(()), Ok(())]);
    assert_eq!(report.mounted, vec![Ok(()), Ok(())]);
    assert_eq!(doc.children(), vec![2, 3]);
    assert_eq!(doc.element_by_id("dioxus-head-tag--a"), None);
    assert_eq!(doc.element_by_id("dioxus-head-tag--b"), Some(2));
    assert_eq!(doc.attribute(2, "href"), Some(String::from("c.ico")));
    assert_eq!(doc.attribute(1, "href"), Some(String::from("b.ico")));
    assert_eq!(manager.teardown(&mut doc), vec![Ok(()), Ok(())]);
    assert_eq!(doc.children(), Vec::<usize>::new());
}

#[test]
fn a_tag_that_fails_does_not_keep_the_others_from_being_mounted() {
    let mut doc = MemoryDocument::new();
    let tags = vec![
        Tag::Title("Home"),
        Tag::Script(Script { id: "bad", attrs: vec![("", "x")], body: None }),
        Tag::Meta("description", "desc"),
    ];
    assert_eq!(mount_all(&tags, &mut doc), vec![Ok(()), refused_attribute(), Ok(())]);
    assert_eq!(doc.children(), vec![0, 2]);
    assert_eq!(doc.tag_name(1), Some(String::from("script")));
    assert_eq!(doc.attribute(2, "content"), Some(String::from("desc")));
    assert_eq!(unmount_all(&tags, &mut doc), vec![Ok(()), Ok(()), Ok(())]);
    assert_eq!(doc.children(), Vec::<usize>::new());
}

#[test]
fn an_empty_list_changes_nothing() {
    let mut doc = MemoryDocument::new();
    Tag::Title("Home").mount(&mut doc).unwrap();
    let tags: Vec<Tag> = vec![];
    assert_eq!(mount_all(&tags, &mut doc), vec![]);
    assert_eq!(unmount_all(&tags, &mut doc), vec![]);
    let mut manager = HeadManager::new();
    let report = manager.activate(vec![], &mut doc);
    assert_eq!(report.mounted, vec![]);
    assert_eq!(report.unmounted, vec![]);
    assert_eq!(manager.teardown(&mut doc), vec![]);
    assert_eq!(doc.children(), vec![0]);
}

#[test]
fn two_meta_tags_share_one_element_and_the_first_name_takes_it_away() {
    let mut doc = MemoryDocument::new();
    let tags = vec![Tag::Meta("description", "desc"), Tag::Meta("keywords", "a,b")];
    assert_eq!(mount_all(&tags, &mut doc), vec![Ok(()), Ok(())]);
    assert_eq!(doc.children(), vec![0]);
    assert_eq!(doc.attribute(0, "name"), Some(String::from("description")));
    assert_eq!(doc.attribute(0, "content"), Some(String::from("a,b")));
    assert_eq!(unmount_all(&tags, &mut doc), vec![Ok(()), Ok(())]);
    assert_eq!(doc.children(), Vec::<usize>::new());
}

#[test]
fn the_manager_tells_what_is_mounted() {
    let mut doc = MemoryDocument::new();
    let mut manager = HeadManager::new();
    assert!(manager.mounted().is_none());
    manager.activate(vec![Tag::Title("Home"), Tag::Base("/")], &mut doc);
    assert!(manager.mounted() == Some(&vec![Tag::Title("Home"), Tag::Base("/")]));
    manager.activate(vec![], &mut doc);
    assert!(manager.mounted() == Some(&vec![]));
    manager.teardown(&mut doc);
    assert!(manager.mounted().is_none());
}
