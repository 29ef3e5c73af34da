use dioxus_head::tag::{Link, Script, Style, Tag, ID_BASE};

#[test]
fn get_id_puts_the_prefix_before_the_id() {
    let tag = Tag::Title("Home");
    assert_eq!(tag.get_id("s1"), "dioxus-head-tag--s1");
    assert_eq!(tag.get_id(""), "dioxus-head-tag--");
    assert_eq!(tag.get_id("a b"), format!("{}{}", ID_BASE, "a b"));
}

#[test]
fn to_string_names_the_kind_of_element() {
    assert_eq!(Tag::Meta("description", "desc").to_string(), "meta");
    assert_eq!(Tag::Title("Home").to_string(), "title");
    assert_eq!(Tag::Style(Style { id: "s", body: "a{}" }).to_string(), "style");
    assert_eq!(
        Tag::Link(Link { id: "l", rel: "icon", href: "a.ico" }).to_string(),
        "link"
    );
    assert_eq!(
        Tag::Script(Script { id: "s", attrs: vec![], body: None }).to_string(),
        "script"
    );
    assert_eq!(Tag::Base("/").to_string(), "base");
}

#[test]
fn tags_are_equal_when_they_declare_the_same() {
    assert!(Tag::Title("Home") == Tag::Title("Home"));
    assert!(Tag::Title("Home") != Tag::Title("About"));
    assert!(Tag::Title("Home") != Tag::Base("Home"));
    assert!(Tag::Meta("description", "desc") == Tag::Meta("description", "desc"));
    assert!(Tag::Meta("description", "desc") != Tag::Meta("description", "other"));
    assert!(Tag::Meta("description", "desc") != Tag::Meta("keywords", "desc"));
    assert!(Tag::Base("/") == Tag::Base("/"));
    assert!(Tag::Base("/") != Tag::Base("/app"));
}

#[test]
fn equality_compares_text_and_not_where_it_is_stored() {
    let owned = String::from("Home");
    let other = String::from("Ho") + "me";
    assert!(Tag::Title(owned.as_str()) == Tag::Title(other.as_str()));
    assert!(Tag::Title(owned.as_str()) == Tag::Title("Home"));
}

#[test]
fn styles_and_links_are_compared_field_by_field() {
    let style = Style { id: "s1", body: "a{color:red}" };
    assert!(style == Style { id: "s1", body: "a{color:red}" });
    assert!(style != Style { id: "s2", body: "a{color:red}" });
    assert!(style != Style { id: "s1", body: "a{color:blue}" });
    let link = Link { id: "x", rel: "icon", href: "a.ico" };
    assert!(link == Link { id: "x", rel: "icon", href: "a.ico" });
    assert!(link != Link { id: "y", rel: "icon", href: "a.ico" });
    assert!(link != Link { id: "x", rel: "stylesheet", href: "a.ico" });
    assert!(link != Link { id: "x", rel: "icon", href: "b.ico" });
    assert!(Tag::Style(style) == Tag::Style(style));
    assert!(Tag::Link(link) != Tag::Style(style));
}

#[test]
fn scripts_are_compared_with_their_attributes_in_order() {
    let script = Script { id: "s", attrs: vec![("async", "true"), ("type", "module")], body: Some("run()") };
    let same = Script { id: "s", attrs: vec![("async", "true"), ("type", "module")], body: Some("run()") };
    let swapped = Script { id: "s", attrs: vec![("type", "module"), ("async", "true")], body: Some("run()") };
    let shorter = Script { id: "s", attrs: vec![("async", "true")], body: Some("run()") };
    let no_body = Script { id: "s", attrs: vec![("async", "true"), ("type", "module")], body: None };
    let other_body = Script { id: "s", attrs: vec![("async", "true"), ("type", "module")], body: Some("stop()") };
    assert!(script == same);
    assert!(script != swapped);
    assert!(script != shorter);
    assert!(script != no_body);
    assert!(script != other_body);
    assert!(Tag::Script(script.clone()) == Tag::Script(same));
    assert!(Tag::Script(script) != Tag::Script(no_body));
}

#[test]
fn a_list_of_tags_is_compared_by_value() {
    let first = vec![Tag::Title("Home"), Tag::Meta("description", "desc")];
    let second = vec![Tag::Title("Home"), Tag::Meta("description", "desc")];
    let third = vec![Tag::Title("About"), Tag::Meta("description", "desc")];
    assert!(first == second);
    assert!(first != third);
    assert!(first.clone() == first);
}
