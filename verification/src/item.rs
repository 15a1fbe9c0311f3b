//! The values that fill the slots of a compiled template.

use vstd::prelude::*;
use vstd::std_specs::convert::FromSpecImpl;
use vstd::string::to_string_from_display_ensures;

verus! {

/// A value for a named slot of a template.
pub enum TemplateItem {
    /// Stands for an event binding; it renders as nothing.
    Ev(),
    /// The value of an attribute.
    Attr(String),
    /// A value shown as text.
    Val(String),
    /// Text that is rendered already, such as a child component.
    Raw(String),
}

/// The mathematical value of a [`TemplateItem`].
pub enum ItemView {
    Ev,
    Attr(Seq<char>),
    Val(Seq<char>),
    Raw(Seq<char>),
}

impl ItemView {
    /// What the item puts into a slot: the text it wraps, as it is, and nothing for `Ev`.
    pub open spec fn rendered(self) -> Seq<char> {
        match self {
            ItemView::Ev => Seq::empty(),
            ItemView::Attr(text) => text,
            ItemView::Val(text) => text,
            ItemView::Raw(text) => text,
        }
    }
}

impl View for TemplateItem {
    type V = ItemView;

    open spec fn view(&self) -> ItemView {
        match self {
            TemplateItem::Ev() => ItemView::Ev,
            TemplateItem::Attr(text) => ItemView::Attr(text@),
            TemplateItem::Val(text) => ItemView::Val(text@),
            TemplateItem::Raw(text) => ItemView::Raw(text@),
        }
    }
}

/// The views of a sequence of items.
pub open spec fn item_views(items: Seq<TemplateItem>) -> Seq<ItemView> {
    items.map_values(|item: TemplateItem| item@)
}

/// The items rendered one after the other, with nothing between them.
pub open spec fn rendered_all(items: Seq<ItemView>) -> Seq<char> {
    items.map_values(|item: ItemView| item.rendered()).flatten()
}

impl TemplateItem {
    /// Renders the item: the text it wraps, unescaped; the empty text for `Ev`.
    pub fn to_string(&self) -> (text: String)
        ensures
            text@ == self@.rendered(),
    {
        match self {
            TemplateItem::Ev() => String::new(),
            TemplateItem::Attr(text) => text.clone(),
            TemplateItem::Val(text) => text.clone(),
            TemplateItem::Raw(text) => text.clone(),
        }
    }
}

/// A value item that holds `v` as `v` displays itself.
pub fn val<T: std::fmt::Display>(v: T) -> (item: TemplateItem)
    ensures
        item matches TemplateItem::Val(text) && to_string_from_display_ensures::<T>(&v, text),
{
    TemplateItem::Val(v.to_string())
}

/// An attribute item that holds `v` as `v` displays itself.
pub fn att<T: std::fmt::Display>(v: T) -> (item: TemplateItem)
    ensures
        item matches TemplateItem::Attr(text) && to_string_from_display_ensures::<T>(&v, text),
{
    TemplateItem::Attr(v.to_string())
}

/// What `from` gives is stated by its own `ensures`, over the view: a view
/// does not tell two strings of the same text apart, so no single item is named here.
impl FromSpecImpl<Vec<TemplateItem>> for TemplateItem {
    open spec fn obeys_from_spec() -> bool {
        false
    }

    open spec fn from_spec(items: Vec<TemplateItem>) -> TemplateItem {
        choose|item: TemplateItem| item@ == ItemView::Val(rendered_all(item_views(items@)))
    }
}

impl From<Vec<TemplateItem>> for TemplateItem {
    /// A list of items collapses into one value item: the items rendered one
    /// after the other, with no separator and no delimiters.
    fn from(items: Vec<TemplateItem>) -> (item: TemplateItem)
        ensures
            item@ == ItemView::Val(rendered_all(item_views(items@))),
    {
        let mut text = String::new();
        let ghost all = item_views(items@).map_values(|item: ItemView| item.rendered());
        let mut i: usize = 0;
        proof {
            assert(all.take(0) =~= Seq::<Seq<char>>::empty());
        }
        while i < items.len()
            invariant
                i <= items.len(),
                all == item_views(items@).map_values(|item: ItemView| item.rendered()),
                text@ == all.take(i as int).flatten(),
            decreases items.len() - i,
        {
            let part = items[i].to_string();
            text.append(part.as_str());
            proof {
                assert(all.take(i + 1) =~= all.take(i as int).push(all[i as int]));
                all.take(i as int).lemma_flatten_push(all[i as int]);
            }
            i += 1;
        }
        proof {
            assert(all.take(items.len() as int) =~= all);
        }
        TemplateItem::Val(text)
    }
}

} // verus!
