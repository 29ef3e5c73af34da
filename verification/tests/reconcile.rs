use dioxus_head::document::{DomOperation, DomOperationError, HeadDocument};
use dioxus_head::memory::MemoryDocument;
use dioxus_head::tag::{Link, Script, Style, Tag};

fn text(el: usize, doc: &MemoryDocument) -> String {
    doc.inner_content(el).unwrap()
}

fn attr(el: usize, name: &str, doc: &MemoryDocument) -> Option<String> {
    doc.attribute(el, name)
}

fn some(value: &str) -> Option<String> {
    Some(String::from(value))
}

fn stray(kind: &str, content: &str, doc: &mut MemoryDocument) -> usize {
    let el = doc.create_element(kind).unwrap();
    doc.set_inner_content(el, content);
    doc.append_child(el).unwrap();
    el
}

#[test]
fn mounting_a_title_creates_it() {
    let mut doc = MemoryDocument::new();
    assert_eq!(Tag::Title("Home").mount(&mut doc), Ok(()));
    let titles = doc.elements_by_tag_name("title");
    assert_eq!(titles, vec![0]);
    assert_eq!(doc.children(), vec![0]);
    assert_eq!(text(0, &doc), "Home");
    assert_eq!(doc.tag_name(0), some("title"));
}

#[test]
fn mounting_the_same_title_twice_leaves_one_title() {
    let mut doc = MemoryDocument::new();
    let tag = Tag::Title("Home");
    assert_eq!(tag.mount(&mut doc), Ok(()));
    assert_eq!(tag.mount(&mut doc), Ok(()));
    let titles = doc.elements_by_tag_name("title");
    assert_eq!(titles.len(), 1);
    assert_eq!(text(titles[0], &doc), "Home");
    assert_eq!(doc.len(), 1);
    assert_eq!(doc.children(), vec![0]);
}

#[test]
fn a_second_title_replaces_the_first_even_among_stray_titles() {
    let mut doc = MemoryDocument::new();
    let first = stray("title", "Stray one", &mut doc);
    let other = stray("meta", "", &mut doc);
    let second = stray("title", "Stray two", &mut doc);
    assert_eq!(Tag::Title("Home").mount(&mut doc), Ok(()));
    assert_eq!(doc.elements_by_tag_name("title"), vec![first]);
    assert_eq!(text(first, &doc), "Home");
    assert_eq!(Tag::Title("About").mount(&mut doc), Ok(()));
    assert_eq!(doc.elements_by_tag_name("title"), vec![first]);
    assert_eq!(text(first, &doc), "About");
    assert_eq!(doc.children(), vec![first, other]);
    assert_eq!(text(second, &doc), "Stray two");
    assert_eq!(doc.len(), 3);
}

#[test]
fn a_single_title_that_is_there_is_updated_in_place() {
    let mut doc = MemoryDocument::new();
    let before = stray("link", "", &mut doc);
    let title = stray("title", "Old", &mut doc);
    let after = stray("style", "", &mut doc);
    assert_eq!(Tag::Title("New").mount(&mut doc), Ok(()));
    assert_eq!(doc.children(), vec![before, title, after]);
    assert_eq!(text(title, &doc), "New");
    assert_eq!(doc.len(), 3);
}

#[test]
fn a_base_carries_its_href_as_an_attribute_and_is_held_once() {
    let mut doc = MemoryDocument::new();
    assert_eq!(Tag::Base("/app").mount(&mut doc), Ok(()));
    assert_eq!(doc.elements_by_tag_name("base"), vec![0]);
    assert_eq!(doc.tag_name(0), some("base"));
    assert_eq!(attr(0, "href", &doc), some("/app"));
    assert_eq!(text(0, &doc), "");
    let second = stray("base", "", &mut doc);
    doc.set_attribute(second, "href", "/stray").unwrap();
    assert_eq!(Tag::Base("/other").mount(&mut doc), Ok(()));
    assert_eq!(doc.elements_by_tag_name("base"), vec![0]);
    assert_eq!(attr(0, "href", &doc), some("/other"));
    assert_eq!(text(0, &doc), "");
    assert_eq!(attr(second, "href", &doc), some("/stray"));
    assert_eq!(doc.children(), vec![0]);
    assert_eq!(doc.len(), 2);
}

#[test]
fn a_base_that_is_there_keeps_its_other_attributes_and_its_content() {
    let mut doc = MemoryDocument::new();
    let base = stray("base", "kept", &mut doc);
    doc.set_attribute(base, "target", "_blank").unwrap();
    assert_eq!(Tag::Base("/app").mount(&mut doc), Ok(()));
    assert_eq!(doc.children(), vec![base]);
    assert_eq!(attr(base, "href", &doc), some("/app"));
    assert_eq!(attr(base, "target", &doc), some("_blank"));
    assert_eq!(text(base, &doc), "kept");
}

#[test]
fn a_title_and_a_base_do_not_touch_each_other() {
    let mut doc = MemoryDocument::new();
    assert_eq!(Tag::Title("Home").mount(&mut doc), Ok(()));
    assert_eq!(Tag::Base("/").mount(&mut doc), Ok(()));
    assert_eq!(doc.children(), vec![0, 1]);
    assert_eq!(Tag::Title("Home").unmount(&mut doc), Ok(()));
    assert_eq!(doc.children(), vec![1]);
    assert_eq!(attr(1, "href", &doc), some("/"));
    assert_eq!(text(0, &doc), "Home");
}

#[test]
fn mounting_a_meta_creates_it_with_name_and_content() {
    let mut doc = MemoryDocument::new();
    assert_eq!(Tag::Meta("description", "desc").mount(&mut doc), Ok(()));
    assert_eq!(doc.elements_by_tag_name("meta"), vec![0]);
    assert_eq!(attr(0, "name", &doc), some("description"));
    assert_eq!(attr(0, "content", &doc), some("desc"));
    assert_eq!(text(0, &doc), "");
}

#[test]
fn a_meta_that_is_there_gets_the_new_content_whatever_its_name() {
    let mut doc = MemoryDocument::new();
    assert_eq!(Tag::Meta("description", "desc").mount(&mut doc), Ok(()));
    assert_eq!(Tag::Meta("keywords", "a,b").mount(&mut doc), Ok(()));
    assert_eq!(doc.elements_by_tag_name("meta"), vec![0]);
    assert_eq!(doc.len(), 1);
    assert_eq!(attr(0, "name", &doc), some("description"));
    assert_eq!(attr(0, "content", &doc), some("a,b"));
}

#[test]
fn stray_meta_elements_leave_when_a_meta_is_mounted() {
    let mut doc = MemoryDocument::new();
    let first = stray("meta", "", &mut doc);
    let title = stray("title", "Home", &mut doc);
    let second = stray("meta", "", &mut doc);
    let third = stray("meta", "", &mut doc);
    doc.set_attribute(second, "name", "description").unwrap();
    assert_eq!(Tag::Meta("description", "desc").mount(&mut doc), Ok(()));
    assert_eq!(doc.children(), vec![first, title]);
    assert_eq!(attr(first, "content", &doc), some("desc"));
    assert_eq!(attr(first, "name", &doc), None);
    assert_eq!(attr(second, "content", &doc), None);
    assert_eq!(attr(third, "content", &doc), None);
}

#[test]
fn mounting_a_style_creates_it_under_its_identifier() {
    let mut doc = MemoryDocument::new();
    let tag = Tag::Style(Style { id: "s1", body: "a{color:red}" });
    assert_eq!(tag.mount(&mut doc), Ok(()));
    assert_eq!(doc.element_by_id("dioxus-head-tag--s1"), Some(0));
    assert_eq!(doc.tag_name(0), some("style"));
    assert_eq!(text(0, &doc), "a{color:red}");
    assert_eq!(attr(0, "id", &doc), some("dioxus-head-tag--s1"));
    assert_eq!(doc.children(), vec![0]);
}

#[test]
fn a_style_with_the_same_id_is_updated_in_place() {
    let mut doc = MemoryDocument::new();
    let title = stray("title", "Home", &mut doc);
    assert_eq!(Tag::Style(Style { id: "s1", body: "a{color:red}" }).mount(&mut doc), Ok(()));
    let el = doc.element_by_id("dioxus-head-tag--s1").unwrap();
    assert_eq!(Tag::Style(Style { id: "s1", body: "a{color:blue}" }).mount(&mut doc), Ok(()));
    assert_eq!(doc.element_by_id("dioxus-head-tag--s1"), Some(el));
    assert_eq!(text(el, &doc), "a{color:blue}");
    assert_eq!(doc.elements_by_tag_name("style"), vec![el]);
    assert_eq!(doc.children(), vec![title, el]);
    assert_eq!(doc.len(), 2);
}

#[test]
fn styles_with_different_ids_stand_side_by_side() {
    let mut doc = MemoryDocument::new();
    assert_eq!(Tag::Style(Style { id: "a", body: "a{}" }).mount(&mut doc), Ok(()));
    assert_eq!(Tag::Style(Style { id: "b", body: "b{}" }).mount(&mut doc), Ok(()));
    assert_eq!(doc.elements_by_tag_name("style"), vec![0, 1]);
    assert_eq!(text(0, &doc), "a{}");
    assert_eq!(text(1, &doc), "b{}");
}

#[test]
fn links_with_different_ids_do_not_get_in_each_others_way() {
    let mut doc = MemoryDocument::new();
    let x = Tag::Link(Link { id: "x", rel: "icon", href: "a.ico" });
    let y = Tag::Link(Link { id: "y", rel: "icon", href: "b.ico" });
    assert_eq!(x.mount(&mut doc), Ok(()));
    assert_eq!(y.mount(&mut doc), Ok(()));
    let ex = doc.element_by_id("dioxus-head-tag--x").unwrap();
    let ey = doc.element_by_id("dioxus-head-tag--y").unwrap();
    assert_ne!(ex, ey);
    assert_eq!(doc.elements_by_tag_name("link"), vec![ex, ey]);
    assert_eq!(attr(ex, "rel", &doc), some("icon"));
    assert_eq!(attr(ex, "href", &doc), some("a.ico"));
    assert_eq!(attr(ey, "rel", &doc), some("icon"));
    assert_eq!(attr(ey, "href", &doc), some("b.ico"));
    assert_eq!(x.unmount(&mut doc), Ok(()));
    assert_eq!(doc.element_by_id("dioxus-head-tag--x"), None);
    assert_eq!(doc.element_by_id("dioxus-head-tag--y"), Some(ey));
    assert_eq!(doc.children(), vec![ey]);
    assert_eq!(attr(ey, "id", &doc), some("dioxus-head-tag--y"));
    assert_eq!(attr(ey, "rel", &doc), some("icon"));
    assert_eq!(attr(ey, "href", &doc), some("b.ico"));
}

#[test]
fn a_link_that_is_there_gets_its_attributes_again() {
    let mut doc = MemoryDocument::new();
    assert_eq!(
        Tag::Link(Link { id: "x", rel: "icon", href: "a.ico" }).mount(&mut doc),
        Ok(())
    );
    doc.set_attribute(0, "media", "print").unwrap();
    assert_eq!(
        Tag::Link(Link { id: "x", rel: "stylesheet", href: "a.css" }).mount(&mut doc),
        Ok(())
    );
    assert_eq!(doc.len(), 1);
    assert_eq!(attr(0, "id", &doc), some("dioxus-head-tag--x"));
    assert_eq!(attr(0, "rel", &doc), some("stylesheet"));
    assert_eq!(attr(0, "href", &doc), some("a.css"));
    assert_eq!(attr(0, "media", &doc), some("print"));
    assert_eq!(text(0, &doc), "");
}

#[test]
fn mounting_a_script_creates_it_with_attributes_body_and_identifier() {
    let mut doc = MemoryDocument::new();
    let tag = Tag::Script(Script {
        id: "app",
        attrs: vec![("type", "module"), ("async", "true")],
        body: Some("run()"),
    });
    assert_eq!(tag.mount(&mut doc), Ok(()));
    assert_eq!(doc.element_by_id("dioxus-head-tag--app"), Some(0));
    assert_eq!(doc.tag_name(0), some("script"));
    assert_eq!(text(0, &doc), "run()");
    assert_eq!(attr(0, "type", &doc), some("module"));
    assert_eq!(attr(0, "async", &doc), some("true"));
    assert_eq!(attr(0, "id", &doc), some("dioxus-head-tag--app"));
}

#[test]
fn a_script_without_a_body_is_created_empty() {
    let mut doc = MemoryDocument::new();
    let tag = Tag::Script(Script { id: "app", attrs: vec![("src", "app.js")], body: None });
    assert_eq!(tag.mount(&mut doc), Ok(()));
    assert_eq!(text(0, &doc), "");
    assert_eq!(attr(0, "src", &doc), some("app.js"));
}

#[test]
fn the_identifier_of_a_script_wins_over_an_id_among_its_attributes() {
    let mut doc = MemoryDocument::new();
    let tag = Tag::Script(Script { id: "app", attrs: vec![("id", "mine")], body: None });
    assert_eq!(tag.mount(&mut doc), Ok(()));
    assert_eq!(attr(0, "id", &doc), some("dioxus-head-tag--app"));
    assert_eq!(tag.mount(&mut doc), Ok(()));
    assert_eq!(doc.len(), 1);
}

#[test]
fn a_script_that_is_there_keeps_its_attributes_and_gets_the_new_body() {
    let mut doc = MemoryDocument::new();
    let first = Tag::Script(Script { id: "app", attrs: vec![("type", "module")], body: Some("run()") });
    let second = Tag::Script(Script {
        id: "app",
        attrs: vec![("type", "text/javascript"), ("defer", "true")],
        body: Some("stop()"),
    });
    assert_eq!(first.mount(&mut doc), Ok(()));
    assert_eq!(second.mount(&mut doc), Ok(()));
    assert_eq!(doc.len(), 1);
    assert_eq!(text(0, &doc), "stop()");
    assert_eq!(attr(0, "type", &doc), some("module"));
    assert_eq!(attr(0, "defer", &doc), None);
}

#[test]
fn a_script_that_is_there_is_left_alone_by_one_without_attributes_and_body() {
    let mut doc = MemoryDocument::new();
    let first = Tag::Script(Script { id: "app", attrs: vec![("type", "module")], body: Some("run()") });
    let second = Tag::Script(Script { id: "app", attrs: vec![], body: None });
    assert_eq!(first.mount(&mut doc), Ok(()));
    assert_eq!(second.mount(&mut doc), Ok(()));
    assert_eq!(doc.len(), 1);
    assert_eq!(text(0, &doc), "run()");
    assert_eq!(attr(0, "type", &doc), some("module"));
}

#[test]
fn an_update_does_not_look_at_the_attribute_names_of_a_script() {
    let mut doc = MemoryDocument::new();
    let first = Tag::Script(Script { id: "app", attrs: vec![], body: None });
    let second = Tag::Script(Script { id: "app", attrs: vec![("", "refused")], body: Some("run()") });
    assert_eq!(first.mount(&mut doc), Ok(()));
    assert_eq!(second.mount(&mut doc), Ok(()));
    assert_eq!(text(0, &doc), "run()");
}

#[test]
fn a_refused_attribute_leaves_the_new_element_detached() {
    let mut doc = MemoryDocument::new();
    let tag = Tag::Script(Script {
        id: "app",
        attrs: vec![("type", "module"), ("", "refused"), ("async", "true")],
        body: Some("run()"),
    });
    assert_eq!(
        tag.mount(&mut doc),
        Err(DomOperationError { operation: DomOperation::SetAttribute })
    );
    assert_eq!(doc.children(), Vec::<usize>::new());
    assert_eq!(doc.element_by_id("dioxus-head-tag--app"), None);
    assert_eq!(doc.len(), 1);
    assert_eq!(text(0, &doc), "run()");
    assert_eq!(attr(0, "type", &doc), some("module"));
    assert_eq!(attr(0, "async", &doc), None);
    assert_eq!(attr(0, "id", &doc), None);
}

#[test]
fn unmounting_a_title_removes_every_title() {
    let mut doc = MemoryDocument::new();
    let first = stray("title", "One", &mut doc);
    let meta = stray("meta", "", &mut doc);
    let second = stray("title", "Two", &mut doc);
    let base = stray("base", "/", &mut doc);
    assert_eq!(Tag::Title("whatever").unmount(&mut doc), Ok(()));
    assert_eq!(doc.children(), vec![meta, base]);
    assert_eq!(doc.elements_by_tag_name("title"), Vec::<usize>::new());
    assert_eq!(text(first, &doc), "One");
    assert_eq!(text(second, &doc), "Two");
    assert_eq!(Tag::Base("whatever").unmount(&mut doc), Ok(()));
    assert_eq!(doc.children(), vec![meta]);
}

#[test]
fn unmounting_a_meta_removes_the_meta_elements_of_its_name() {
    let mut doc = MemoryDocument::new();
    let description = stray("meta", "", &mut doc);
    let keywords = stray("meta", "", &mut doc);
    let nameless = stray("meta", "", &mut doc);
    let again = stray("meta", "", &mut doc);
    let title = stray("title", "", &mut doc);
    doc.set_attribute(description, "name", "description").unwrap();
    doc.set_attribute(keywords, "name", "keywords").unwrap();
    doc.set_attribute(again, "name", "description").unwrap();
    doc.set_attribute(title, "name", "description").unwrap();
    assert_eq!(Tag::Meta("description", "ignored").unmount(&mut doc), Ok(()));
    assert_eq!(doc.children(), vec![keywords, nameless, title]);
    assert_eq!(Tag::Meta("viewport", "ignored").unmount(&mut doc), Ok(()));
    assert_eq!(doc.children(), vec![keywords, nameless, title]);
}

#[test]
fn unmounting_by_identifier_removes_the_element_whatever_its_kind() {
    let mut doc = MemoryDocument::new();
    assert_eq!(Tag::Style(Style { id: "x", body: "a{}" }).mount(&mut doc), Ok(()));
    assert_eq!(Tag::Style(Style { id: "y", body: "b{}" }).mount(&mut doc), Ok(()));
    let gone = Tag::Script(Script { id: "x", attrs: vec![], body: None });
    assert_eq!(gone.unmount(&mut doc), Ok(()));
    assert_eq!(doc.children(), vec![1]);
    assert_eq!(doc.element_by_id("dioxus-head-tag--x"), None);
}

#[test]
fn unmounting_what_is_not_there_is_no_error() {
    let mut doc = MemoryDocument::new();
    let title = stray("title", "Home", &mut doc);
    assert_eq!(Tag::Style(Style { id: "x", body: "" }).unmount(&mut doc), Ok(()));
    assert_eq!(Tag::Link(Link { id: "x", rel: "", href: "" }).unmount(&mut doc), Ok(()));
    assert_eq!(Tag::Script(Script { id: "x", attrs: vec![], body: None }).unmount(&mut doc), Ok(()));
    assert_eq!(Tag::Meta("description", "").unmount(&mut doc), Ok(()));
    assert_eq!(Tag::Base("/").unmount(&mut doc), Ok(()));
    assert_eq!(doc.children(), vec![title]);
    assert_eq!(MemoryDocument::new().children(), Vec::<usize>::new());
}

#[test]
fn mounting_again_changes_nothing_for_any_kind() {
    let tags = vec![
        Tag::Meta("description", "desc"),
        Tag::Title("Home"),
        Tag::Style(Style { id: "s", body: "a{}" }),
        Tag::Link(Link { id: "l", rel: "icon", href: "a.ico" }),
        Tag::Script(Script { id: "j", attrs: vec![("type", "module")], body: Some("run()") }),
        Tag::Base("/"),
    ];
    let mut doc = MemoryDocument::new();
    for tag in tags.iter() {
        assert_eq!(tag.mount(&mut doc), Ok(()));
    }
    assert_eq!(doc.children(), vec![0, 1, 2, 3, 4, 5]);
    for tag in tags.iter() {
        assert_eq!(tag.mount(&mut doc), Ok(()));
    }
    assert_eq!(doc.children(), vec![0, 1, 2, 3, 4, 5]);
    assert_eq!(doc.len(), 6);
    assert_eq!(attr(0, "content", &doc), some("desc"));
    assert_eq!(text(1, &doc), "Home");
    assert_eq!(text(2, &doc), "a{}");
    assert_eq!(attr(3, "href", &doc), some("a.ico"));
    assert_eq!(text(4, &doc), "run()");
    assert_eq!(attr(5, "href", &doc), some("/"));
    assert_eq!(text(5, &doc), "");
}
