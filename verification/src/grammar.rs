//! The grammar data model: what the parser of the meta-grammar builds.
//!
//! Each type has a view, its contents as plain mathematical values, and the
//! contracts of the parser speak of those.

use vstd::prelude::*;

verus! {

/// One production: a name and its alternatives, in the order of declaration.
#[derive(PartialEq, Debug)]
pub struct Rule<'a> {
    pub name: &'a str,
    pub alts: Vec<Alt<'a>>,
}

/// One alternative: its items in order, and the text of its action, which is
/// empty where it has none.
#[derive(PartialEq, Debug)]
pub struct Alt<'a> {
    pub items: Vec<Item<'a>>,
    pub action: String,
}

/// An item that is bound to a name.
#[derive(PartialEq, Debug)]
pub struct NamedItem<'a> {
    pub name: &'a str,
    pub item: &'a str,
}

/// An item repeated `at_least` times or more, and no more than `at_most`
/// times where there is such a bound.
#[derive(PartialEq, Debug)]
pub struct Repeat<'a> {
    pub at_least: usize,
    pub at_most: Option<usize>,
    pub item: &'a str,
}

/// An item that must follow (`positive`) or must not follow, without being
/// consumed.
#[derive(PartialEq, Debug)]
pub struct Lookahead<'a> {
    pub positive: bool,
    pub item: &'a str,
}

/// One item of an alternative.
#[derive(PartialEq, Debug)]
pub enum Item<'a> {
    NamedItem(NamedItem<'a>),
    Repeat(Repeat<'a>),
    Lookahead(Lookahead<'a>),
    /// The marker that commits a parse past this point.
    Cut,
    /// A grammar symbol as it was written.
    Raw(&'a str),
}

/// A grammar: its rules and its meta-directives, each in the order of
/// declaration. A name or a key may occur more than once.
#[derive(PartialEq, Debug)]
pub struct Grammar<'a> {
    pub rules: Vec<Rule<'a>>,
    pub metas: Vec<Meta<'a>>,
}

/// The value of a meta-directive, by the token that followed its key.
#[derive(PartialEq, Debug)]
pub enum MetaValue<'a> {
    /// No token followed.
    Absent,
    /// A number followed; this is its literal, as written.
    Number(&'a str),
    /// A name followed.
    String(&'a str),
}

/// A meta-directive.
#[derive(PartialEq, Debug)]
pub struct Meta<'a> {
    pub key: &'a str,
    pub value: MetaValue<'a>,
}

/// The view of an [`Item`].
pub enum ItemView {
    NamedItem { name: Seq<char>, item: Seq<char> },
    Repeat { at_least: usize, at_most: Option<usize>, item: Seq<char> },
    Lookahead { positive: bool, item: Seq<char> },
    Cut,
    Raw(Seq<char>),
}

/// The view of an [`Alt`].
pub struct AltView {
    pub items: Seq<ItemView>,
    pub action: Seq<char>,
}

/// The view of a [`Rule`].
pub struct RuleView {
    pub name: Seq<char>,
    pub alts: Seq<AltView>,
}

/// The view of a [`MetaValue`].
pub enum MetaValueView {
    Absent,
    Number(Seq<char>),
    String(Seq<char>),
}

/// The view of a [`Meta`].
pub struct MetaView {
    pub key: Seq<char>,
    pub value: MetaValueView,
}

/// The view of a [`Grammar`].
pub struct GrammarView {
    pub rules: Seq<RuleView>,
    pub metas: Seq<MetaView>,
}

impl<'a> DeepView for Item<'a> {
    type V = ItemView;

    open spec fn deep_view(&self) -> ItemView {
        match *self {
            Item::NamedItem(named) => ItemView::NamedItem { name: named.name@, item: named.item@ },
            Item::Repeat(repeat) => ItemView::Repeat {
                at_least: repeat.at_least,
                at_most: repeat.at_most,
                item: repeat.item@,
            },
            Item::Lookahead(lookahead) => ItemView::Lookahead {
                positive: lookahead.positive,
                item: lookahead.item@,
            },
            Item::Cut => ItemView::Cut,
            Item::Raw(text) => ItemView::Raw(text@),
        }
    }
}

impl<'a> DeepView for Alt<'a> {
    type V = AltView;

    open spec fn deep_view(&self) -> AltView {
        AltView { items: self.items.deep_view(), action: self.action@ }
    }
}

impl<'a> DeepView for Rule<'a> {
    type V = RuleView;

    open spec fn deep_view(&self) -> RuleView {
        RuleView { name: self.name@, alts: self.alts.deep_view() }
    }
}

impl<'a> DeepView for MetaValue<'a> {
    type V = MetaValueView;

    open spec fn deep_view(&self) -> MetaValueView {
        match *self {
            MetaValue::Absent => MetaValueView::Absent,
            MetaValue::Number(literal) => MetaValueView::Number(literal@),
            MetaValue::String(text) => MetaValueView::String(text@),
        }
    }
}

impl<'a> DeepView for Meta<'a> {
    type V = MetaView;

    open spec fn deep_view(&self) -> MetaView {
        MetaView { key: self.key@, value: self.value.deep_view() }
    }
}

impl<'a> DeepView for Grammar<'a> {
    type V = GrammarView;

    open spec fn deep_view(&self) -> GrammarView {
        GrammarView { rules: self.rules.deep_view(), metas: self.metas.deep_view() }
    }
}

/// The views of the elements of `s`; a vector's `deep_view` is this of its
/// contents.
pub open spec fn deep<T: DeepView>(s: Seq<T>) -> Seq<T::V> {
    Seq::new(s.len(), |i: int| s[i].deep_view())
}

/// The views of two sequences joined.
pub proof fn lemma_deep_add<T: DeepView>(a: Seq<T>, b: Seq<T>)
    ensures
        deep(a + b) == deep(a) + deep(b),
{
    assert(deep(a + b) =~= deep(a) + deep(b));
}

} // verus!
