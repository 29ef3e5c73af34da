//! The tags that can be declared for a document's head.
//!
//! The set is closed on purpose: six kinds, each with a fixed meaning, so that
//! what a declaration does to the head can be said exactly.

use vstd::prelude::*;

verus! {

/// What every identifier that this library gives to an element starts with.
pub const ID_BASE: &'static str = "dioxus-head-tag--";

/// A `style` element.
#[derive(Clone, Copy, Debug)]
pub struct Style<'a> {
    /// Tells this style element from the others: it is found again, to be
    /// updated or removed, by this id.
    pub id: &'a str,
    pub body: &'a str,
}

/// A `link` element.
#[derive(Clone, Copy, Debug)]
pub struct Link<'a> {
    /// Tells this link element from the others: it is found again, to be
    /// updated or removed, by this id.
    pub id: &'a str,
    pub rel: &'a str,
    pub href: &'a str,
}

/// A `script` element.
#[derive(Clone, Debug)]
pub struct Script<'a> {
    /// Tells this script element from the others: it is found again, to be
    /// updated or removed, by this id.
    pub id: &'a str,
    /// Attributes as (name, value), applied in this order.
    pub attrs: Vec<(&'a str, &'a str)>,
    pub body: Option<&'a str>,
}

/// One declared element of the head.
#[derive(Clone, Debug)]
pub enum Tag<'a> {
    /// (name, content)
    Meta(&'a str, &'a str),
    /// content
    Title(&'a str),
    Style(Style<'a>),
    Link(Link<'a>),
    Script(Script<'a>),
    /// href
    Base(&'a str),
}

/// A style as the contracts see it.
pub struct StyleView {
    pub id: Seq<char>,
    pub body: Seq<char>,
}

/// A link as the contracts see it.
pub struct LinkView {
    pub id: Seq<char>,
    pub rel: Seq<char>,
    pub href: Seq<char>,
}

/// A script as the contracts see it.
pub struct ScriptView {
    pub id: Seq<char>,
    pub attrs: Seq<(Seq<char>, Seq<char>)>,
    pub body: Option<Seq<char>>,
}

/// A tag as the contracts see it.
pub enum TagView {
    Meta(Seq<char>, Seq<char>),
    Title(Seq<char>),
    Style(StyleView),
    Link(LinkView),
    Script(ScriptView),
    Base(Seq<char>),
}

/// A list of (name, value) pairs as sequences of characters.
pub open spec fn pairs_view(pairs: Seq<(&str, &str)>) -> Seq<(Seq<char>, Seq<char>)> {
    pairs.map_values(|p: (&str, &str)| (p.0@, p.1@))
}

/// An optional text as a sequence of characters.
pub open spec fn text_view(text: Option<&str>) -> Option<Seq<char>> {
    match text {
        Some(t) => Some(t@),
        None => None,
    }
}

impl<'a> View for Style<'a> {
    type V = StyleView;

    open spec fn view(&self) -> StyleView {
        StyleView { id: self.id@, body: self.body@ }
    }
}

impl<'a> View for Link<'a> {
    type V = LinkView;

    open spec fn view(&self) -> LinkView {
        LinkView { id: self.id@, rel: self.rel@, href: self.href@ }
    }
}

impl<'a> View for Script<'a> {
    type V = ScriptView;

    open spec fn view(&self) -> ScriptView {
        ScriptView { id: self.id@, attrs: pairs_view(self.attrs@), body: text_view(self.body) }
    }
}

impl<'a> View for Tag<'a> {
    type V = TagView;

    open spec fn view(&self) -> TagView {
        match self {
            Tag::Meta(name, content) => TagView::Meta(name@, content@),
            Tag::Title(content) => TagView::Title(content@),
            Tag::Style(style) => TagView::Style(style@),
            Tag::Link(link) => TagView::Link(link@),
            Tag::Script(script) => TagView::Script(script@),
            Tag::Base(href) => TagView::Base(href@),
        }
    }
}

impl TagView {
    /// The kind of element the tag stands for.
    pub open spec fn tag_name(self) -> Seq<char> {
        match self {
            TagView::Meta(_, _) => "meta"@,
            TagView::Title(_) => "title"@,
            TagView::Style(_) => "style"@,
            TagView::Script(_) => "script"@,
            TagView::Link(_) => "link"@,
            TagView::Base(_) => "base"@,
        }
    }
}

/// The identifier of the element that stands for the tag with the id `id`.
pub open spec fn element_key(id: Seq<char>) -> Seq<char> {
    ID_BASE@ + id
}

/// Two ids give the same identifier only when they are the same id.
pub proof fn lemma_element_key_injective(a: Seq<char>, b: Seq<char>)
    ensures
        element_key(a) == element_key(b) <==> a == b,
{
    if element_key(a) == element_key(b) {
        let n = ID_BASE@.len() as int;
        assert(a =~= element_key(a).skip(n));
        assert(b =~= element_key(b).skip(n));
    }
}

impl<'a> PartialEq for Style<'a> {
    fn eq(&self, other: &Self) -> (r: bool) {
        self.id.eq(other.id) && self.body.eq(other.body)
    }
}

impl<'a> vstd::std_specs::cmp::PartialEqSpecImpl for Style<'a> {
    open spec fn obeys_eq_spec() -> bool {
        true
    }

    open spec fn eq_spec(&self, other: &Self) -> bool {
        self@ == other@
    }
}

impl<'a> PartialEq for Link<'a> {
    fn eq(&self, other: &Self) -> (r: bool) {
        self.id.eq(other.id) && self.rel.eq(other.rel) && self.href.eq(other.href)
    }
}

impl<'a> vstd::std_specs::cmp::PartialEqSpecImpl for Link<'a> {
    open spec fn obeys_eq_spec() -> bool {
        true
    }

    open spec fn eq_spec(&self, other: &Self) -> bool {
        self@ == other@
    }
}

/// Whether two lists hold the same names and values in the same order.
fn same_pairs(a: &Vec<(&str, &str)>, b: &Vec<(&str, &str)>) -> (r: bool)
    ensures
        r == (pairs_view(a@) == pairs_view(b@)),
{
    if a.len() != b.len() {
        return false;
    }
    let mut i: usize = 0;
    while i < a.len()
        invariant
            a.len() == b.len(),
            i <= a.len(),
            forall|j: int| 0 <= j < i ==> pairs_view(a@)[j] == pairs_view(b@)[j],
        decreases a.len() - i,
    {
        if !(a[i].0.eq(b[i].0) && a[i].1.eq(b[i].1)) {
            assert(pairs_view(a@)[i as int] != pairs_view(b@)[i as int]);
            return false;
        }
        i += 1;
    }
    assert(pairs_view(a@) =~= pairs_view(b@));
    true
}

/// Whether two optional texts are both absent or the same text.
fn same_text(a: Option<&str>, b: Option<&str>) -> (r: bool)
    ensures
        r == (text_view(a) == text_view(b)),
{
    match (a, b) {
        (Some(x), Some(y)) => x.eq(y),
        (None, None) => true,
        _ => false,
    }
}

impl<'a> PartialEq for Script<'a> {
    fn eq(&self, other: &Self) -> (r: bool) {
        self.id.eq(other.id) && same_pairs(&self.attrs, &other.attrs) && same_text(
            self.body,
            other.body,
        )
    }
}

impl<'a> vstd::std_specs::cmp::PartialEqSpecImpl for Script<'a> {
    open spec fn obeys_eq_spec() -> bool {
        true
    }

    open spec fn eq_spec(&self, other: &Self) -> bool {
        self@ == other@
    }
}

impl<'a> PartialEq for Tag<'a> {
    fn eq(&self, other: &Self) -> (r: bool) {
        match self {
            Tag::Meta(name, content) => match other {
                Tag::Meta(other_name, other_content) => (*name).eq(*other_name) && (*content).eq(
                    *other_content,
                ),
                _ => false,
            },
            Tag::Title(content) => match other {
                Tag::Title(other_content) => (*content).eq(*other_content),
                _ => false,
            },
            Tag::Style(style) => match other {
                Tag::Style(other_style) => style.eq(other_style),
                _ => false,
            },
            Tag::Link(link) => match other {
                Tag::Link(other_link) => link.eq(other_link),
                _ => false,
            },
            Tag::Script(script) => match other {
                Tag::Script(other_script) => script.eq(other_script),
                _ => false,
            },
            Tag::Base(href) => match other {
                Tag::Base(other_href) => (*href).eq(*other_href),
                _ => false,
            },
        }
    }
}

impl<'a> vstd::std_specs::cmp::PartialEqSpecImpl for Tag<'a> {
    open spec fn obeys_eq_spec() -> bool {
        true
    }

    open spec fn eq_spec(&self, other: &Self) -> bool {
        self@ == other@
    }
}

impl<'a> Tag<'a> {
    /// The identifier of the element that stands for the tag with the id `id`.
    pub fn get_id(&self, id: &str) -> (r: String)
        ensures
            r@ == element_key(id@),
    {
        String::from_str(ID_BASE).concat(id)
    }

    /// The kind of element the tag stands for, as text.
    pub fn to_string(&self) -> (r: String)
        ensures
            r@ == self@.tag_name(),
    {
        match self {
            Tag::Meta(_, _) => String::from_str("meta"),
            Tag::Title(_) => String::from_str("title"),
            Tag::Style(_) => String::from_str("style"),
            Tag::Script(_) => String::from_str("script"),
            Tag::Link(_) => String::from_str("link"),
            Tag::Base(_) => String::from_str("base"),
        }
    }
}

} // verus!
