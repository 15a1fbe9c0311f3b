//! Component definitions and the table that gathers them over a whole scan.

use vstd::prelude::*;
use crate::order::{
    lemma_text_lt_irreflexive, lemma_text_lt_transitive, lemma_text_total, strictly_ascending,
    text_before, text_lt,
};
use crate::text::texts;

verus! {

/// What the scan knows of one component.
#[derive(Debug, PartialEq, Eq, Hash)]
pub struct ComponentDefinition {
    /// The body lines that followed the latest marker, joined without separator.
    pub contents: String,
    /// The path of the source of every marker seen for the component, in scan order.
    pub defined_in_templates: Vec<String>,
}

/// The mathematical value of a [`ComponentDefinition`].
pub struct ComponentView {
    pub contents: Seq<char>,
    pub defined_in: Seq<Seq<char>>,
}

impl View for ComponentDefinition {
    type V = ComponentView;

    open spec fn view(&self) -> ComponentView {
        ComponentView {
            contents: self.contents@,
            defined_in: texts(self.defined_in_templates@),
        }
    }
}

/// The views of a sequence of definitions.
pub open spec fn views(defs: Seq<ComponentDefinition>) -> Seq<ComponentView> {
    defs.map_values(|d: ComponentDefinition| d@)
}

/// The map that pairs `ids[i]` with `defs[i]`.
pub open spec fn table(ids: Seq<Seq<char>>, defs: Seq<ComponentView>) -> Map<Seq<char>, ComponentView> {
    Map::new(|id: Seq<char>| ids.contains(id), |id: Seq<char>| defs[ids.index_of(id)])
}

/// What a marker for `id` in the source at `path` makes of the component:
/// the body starts empty again, and the path joins the record of definitions.
pub open spec fn opened(
    components: Map<Seq<char>, ComponentView>,
    id: Seq<char>,
    path: Seq<char>,
) -> ComponentView {
    ComponentView {
        contents: Seq::empty(),
        defined_in: if components.contains_key(id) {
            components[id].defined_in.push(path)
        } else {
            seq![path]
        },
    }
}

/// What a body line makes of the component it belongs to.
pub open spec fn extended(component: ComponentView, line: Seq<char>) -> ComponentView {
    ComponentView { contents: component.contents + line, defined_in: component.defined_in }
}

/// In an ascending sequence an identifier is found at its own index only.
pub proof fn lemma_index_of(ids: Seq<Seq<char>>, i: int)
    requires
        strictly_ascending(ids),
        0 <= i < ids.len(),
    ensures
        ids.index_of(ids[i]) == i,
{
    let j = ids.index_of(ids[i]);
    assert(ids.contains(ids[i]));
    lemma_text_lt_irreflexive(ids[i]);
    if j < i {
        assert(text_lt(ids[j], ids[i]));
    }
    if i < j {
        assert(text_lt(ids[i], ids[j]));
    }
}

/// The table holds `defs[i]` under `ids[i]`.
pub proof fn lemma_table_at(ids: Seq<Seq<char>>, defs: Seq<ComponentView>, i: int)
    requires
        strictly_ascending(ids),
        0 <= i < ids.len(),
    ensures
        table(ids, defs).contains_key(ids[i]),
        table(ids, defs)[ids[i]] == defs[i],
{
    lemma_index_of(ids, i);
    assert(ids.contains(ids[i]));
}

/// Replacing the definition at index `i` replaces the value under `ids[i]`.
pub proof fn lemma_table_update(ids: Seq<Seq<char>>, defs: Seq<ComponentView>, i: int, def: ComponentView)
    requires
        strictly_ascending(ids),
        ids.len() == defs.len(),
        0 <= i < ids.len(),
    ensures
        table(ids, defs.update(i, def)) == table(ids, defs).insert(ids[i], def),
{
    let after = table(ids, defs.update(i, def));
    let expected = table(ids, defs).insert(ids[i], def);
    assert(ids.contains(ids[i]));
    assert forall|id: Seq<char>| after.contains_key(id) implies #[trigger] after[id] == expected[id] by {
        let j = ids.index_of(id);
        lemma_index_of(ids, j);
        lemma_index_of(ids, i);
    }
    assert(after =~= expected);
}

/// Inserting a new identifier with its definition at index `at` adds that entry and changes no other.
pub proof fn lemma_table_insert(
    ids: Seq<Seq<char>>,
    defs: Seq<ComponentView>,
    at: int,
    id: Seq<char>,
    def: ComponentView,
)
    requires
        strictly_ascending(ids),
        strictly_ascending(ids.insert(at, id)),
        ids.len() == defs.len(),
        0 <= at <= ids.len(),
    ensures
        table(ids.insert(at, id), defs.insert(at, def)) == table(ids, defs).insert(id, def),
{
    let ids2 = ids.insert(at, id);
    let defs2 = defs.insert(at, def);
    let after = table(ids2, defs2);
    let expected = table(ids, defs).insert(id, def);
    assert(ids2[at] == id);
    assert forall|x: Seq<char>| after.contains_key(x) <==> expected.contains_key(x) by {
        if ids2.contains(x) {
            let j = ids2.index_of(x);
            if j < at {
                assert(ids[j] == x);
            } else if j > at {
                assert(ids[j - 1] == x);
            }
        }
        if ids.contains(x) {
            let j = ids.index_of(x);
            if j < at {
                assert(ids2[j] == x);
            } else {
                assert(ids2[j + 1] == x);
            }
        }
    }
    assert forall|x: Seq<char>| after.contains_key(x) implies #[trigger] after[x] == expected[x] by {
        let j = ids2.index_of(x);
        lemma_index_of(ids2, j);
        lemma_index_of(ids2, at);
        if j < at {
            lemma_index_of(ids, j);
            assert(ids[j] == x);
        } else if j > at {
            lemma_index_of(ids, j - 1);
            assert(ids[j - 1] == x);
        }
    }
    assert(after =~= expected);
}

/// `ids` lists the identifiers of `components`, each once, in ascending order.
pub open spec fn lists(ids: Seq<Seq<char>>, components: Map<Seq<char>, ComponentView>) -> bool {
    &&& strictly_ascending(ids)
    &&& forall|id: Seq<char>| ids.contains(id) <==> components.contains_key(id)
}

/// The identifiers of `components` in ascending order.
pub open spec fn sorted_ids(components: Map<Seq<char>, ComponentView>) -> Seq<Seq<char>> {
    choose|ids: Seq<Seq<char>>| lists(ids, components)
}

/// The identifiers of a table can be listed in ascending order in one way only.
pub proof fn lemma_lists_unique(a: Seq<Seq<char>>, b: Seq<Seq<char>>, components: Map<Seq<char>, ComponentView>)
    requires
        lists(a, components),
        lists(b, components),
    ensures
        a == b,
    decreases a.len(),
{
    if a.len() == 0 {
        if b.len() > 0 {
            assert(b.contains(b[0]));
            assert(a.contains(b[0]));
        }
        assert(a =~= b);
    } else {
        assert(a.contains(a[0]));
        assert(b.contains(a[0]));
        let j = b.index_of(a[0]);
        assert(b.contains(b[0]));
        assert(a.contains(b[0]));
        let i = a.index_of(b[0]);
        lemma_text_lt_irreflexive(b[0]);
        if j > 0 {
            assert(text_lt(b[0], b[j]));
            if i > 0 {
                assert(text_lt(a[0], a[i]));
                lemma_text_lt_transitive(b[0], a[0], b[0]);
            }
        }
        assert(a[0] == b[0]);
        let rest = components.remove(a[0]);
        let a1 = a.skip(1);
        let b1 = b.skip(1);
        lemma_text_lt_irreflexive(a[0]);
        assert forall|id: Seq<char>| a1.contains(id) <==> rest.contains_key(id) by {
            if a1.contains(id) {
                let k = a1.index_of(id);
                assert(a[k + 1] == id);
                assert(text_lt(a[0], a[k + 1]));
                assert(a.contains(id));
            }
            if rest.contains_key(id) {
                assert(a.contains(id));
                let k = a.index_of(id);
                assert(a1[k - 1] == id);
            }
        }
        assert forall|id: Seq<char>| b1.contains(id) <==> rest.contains_key(id) by {
            if b1.contains(id) {
                let k = b1.index_of(id);
                assert(b[k + 1] == id);
                assert(text_lt(b[0], b[k + 1]));
                assert(b.contains(id));
            }
            if rest.contains_key(id) {
                assert(b.contains(id));
                let k = b.index_of(id);
                assert(b1[k - 1] == id);
            }
        }
        assert forall|i: int, j: int| 0 <= i < j < a1.len() implies text_lt(#[trigger] a1[i], #[trigger] a1[j]) by {
            assert(text_lt(a[i + 1], a[j + 1]));
        }
        assert forall|i: int, j: int| 0 <= i < j < b1.len() implies text_lt(#[trigger] b1[i], #[trigger] b1[j]) by {
            assert(text_lt(b[i + 1], b[j + 1]));
        }
        lemma_lists_unique(a1, b1, rest);
        assert(a =~= seq![a[0]] + a1);
        assert(b =~= seq![b[0]] + b1);
    }
}

/// Putting `id` at index `at`, between the identifiers before it and those
/// after it, keeps an ascending sequence ascending.
pub proof fn lemma_insert_ascending(ids: Seq<Seq<char>>, at: int, id: Seq<char>)
    requires
        strictly_ascending(ids),
        0 <= at <= ids.len(),
        forall|j: int| 0 <= j < at ==> text_lt(#[trigger] ids[j], id),
        forall|j: int| at <= j < ids.len() ==> text_lt(id, #[trigger] ids[j]),
    ensures
        strictly_ascending(ids.insert(at, id)),
{
    let grown = ids.insert(at, id);
    assert forall|i: int, j: int| 0 <= i < j < grown.len() implies text_lt(
        #[trigger] grown[i],
        #[trigger] grown[j],
    ) by {
        let a = if i < at { i } else { i - 1 };
        let b = if j < at { j } else { j - 1 };
        if i != at && j != at {
            assert(text_lt(ids[a], ids[b]));
        } else if i == at {
            assert(text_lt(id, ids[b]));
        } else {
            assert(text_lt(ids[a], id));
        }
    }
}

/// Where a new identifier belongs: an index with the smaller identifiers before it and the larger ones from it on.
pub proof fn lemma_place_exists(ids: Seq<Seq<char>>, id: Seq<char>) -> (at: int)
    requires
        strictly_ascending(ids),
        !ids.contains(id),
    ensures
        0 <= at <= ids.len(),
        forall|j: int| 0 <= j < at ==> text_lt(#[trigger] ids[j], id),
        forall|j: int| at <= j < ids.len() ==> text_lt(id, #[trigger] ids[j]),
    decreases ids.len(),
{
    if ids.len() == 0 {
        0
    } else {
        let last = ids.len() - 1;
        assert(ids.contains(ids[last]));
        lemma_text_total(ids[last], id);
        if text_lt(ids[last], id) {
            assert forall|j: int| 0 <= j < ids.len() implies text_lt(#[trigger] ids[j], id) by {
                if j < last {
                    assert(text_lt(ids[j], ids[last]));
                    lemma_text_lt_transitive(ids[j], ids[last], id);
                }
            }
            ids.len() as int
        } else {
            let init = ids.drop_last();
            assert forall|i: int, j: int| 0 <= i < j < init.len() implies text_lt(
                #[trigger] init[i],
                #[trigger] init[j],
            ) by {
                assert(text_lt(ids[i], ids[j]));
            }
            if init.contains(id) {
                let k = init.index_of(id);
                assert(ids[k] == id);
            }
            let at = lemma_place_exists(init, id);
            assert forall|j: int| 0 <= j < at implies text_lt(#[trigger] ids[j], id) by {
                assert(text_lt(init[j], id));
            }
            assert forall|j: int| at <= j < ids.len() implies text_lt(id, #[trigger] ids[j]) by {
                if j < last {
                    assert(text_lt(id, init[j]));
                }
            }
            at
        }
    }
}

/// A table whose identifiers can be listed in ascending order can still be
/// listed so after an entry has been put into it.
pub proof fn lemma_lists_insert(
    ids: Seq<Seq<char>>,
    components: Map<Seq<char>, ComponentView>,
    id: Seq<char>,
    def: ComponentView,
) -> (grown: Seq<Seq<char>>)
    requires
        lists(ids, components),
    ensures
        lists(grown, components.insert(id, def)),
{
    if components.contains_key(id) {
        ids
    } else {
        let at = lemma_place_exists(ids, id);
        lemma_insert_ascending(ids, at, id);
        let grown = ids.insert(at, id);
        assert(grown[at] == id);
        assert forall|x: Seq<char>| grown.contains(x) <==> components.insert(id, def).contains_key(x) by {
            if grown.contains(x) {
                let j = grown.index_of(x);
                if j < at {
                    assert(ids[j] == x);
                    assert(ids.contains(x));
                } else if j > at {
                    assert(ids[j - 1] == x);
                    assert(ids.contains(x));
                }
            }
            if ids.contains(x) {
                let j = ids.index_of(x);
                if j < at {
                    assert(grown[j] == x);
                } else {
                    assert(grown[j + 1] == x);
                }
            }
        }
        grown
    }
}

/// An ascending sequence of identifiers lists the table built on it.
pub proof fn lemma_sorted_ids(ids: Seq<Seq<char>>, defs: Seq<ComponentView>)
    requires
        strictly_ascending(ids),
    ensures
        sorted_ids(table(ids, defs)) == ids,
{
    assert(lists(ids, table(ids, defs)));
    lemma_lists_unique(sorted_ids(table(ids, defs)), ids, table(ids, defs));
}

/// The components gathered so far, each under its identifier.
///
/// The entries are kept in ascending order of their identifiers, so that no
/// identifier occurs twice and every walk over the table takes the same course.
#[derive(Debug, PartialEq, Eq)]
pub struct Components {
    ids: Vec<String>,
    defs: Vec<ComponentDefinition>,
}

impl View for Components {
    type V = Map<Seq<char>, ComponentView>;

    /// The definition of every identifier that has one.
    closed spec fn view(&self) -> Map<Seq<char>, ComponentView> {
        table(self.ids(), self.defs())
    }
}

impl Components {
    /// The identifiers, in ascending order.
    pub closed spec fn ids(&self) -> Seq<Seq<char>> {
        texts(self.ids@)
    }

    /// The definitions, each at the index of its identifier.
    pub closed spec fn defs(&self) -> Seq<ComponentView> {
        views(self.defs@)
    }

    /// The invariant of the table.
    pub open spec fn wf(&self) -> bool {
        &&& self.ids().len() == self.defs().len()
        &&& strictly_ascending(self.ids())
    }

    /// The identifiers are those of the view in ascending order, and each
    /// definition is the one that the view holds under its identifier.
    pub proof fn lemma_entries(&self)
        requires
            self.wf(),
        ensures
            lists(self.ids(), self@),
            self.ids() == sorted_ids(self@),
            forall|i: int|
                0 <= i < self.ids().len() ==> self@.contains_key(#[trigger] self.ids()[i]) && self@[self.ids()[i]]
                    == self.defs()[i],
    {
        lemma_sorted_ids(self.ids(), self.defs());
        assert(lists(self.ids(), self@));
        assert forall|i: int| 0 <= i < self.ids().len() implies self@.contains_key(
            #[trigger] self.ids()[i],
        ) && self@[self.ids()[i]] == self.defs()[i] by {
            lemma_table_at(self.ids(), self.defs(), i);
        }
    }

    /// The table without any component.
    pub fn new() -> (components: Components)
        ensures
            components.wf(),
            components.ids() == Seq::<Seq<char>>::empty(),
            components.defs() == Seq::<ComponentView>::empty(),
            components@ == Map::<Seq<char>, ComponentView>::empty(),
    {
        let components = Components { ids: Vec::new(), defs: Vec::new() };
        assert(components.ids() =~= Seq::<Seq<char>>::empty());
        assert(components.defs() =~= Seq::<ComponentView>::empty());
        assert(components@ =~= Map::<Seq<char>, ComponentView>::empty());
        components
    }

    /// The number of components.
    pub fn len(&self) -> (n: usize)
        requires
            self.wf(),
        ensures
            n == self.ids().len(),
            n == self.defs().len(),
    {
        self.ids.len()
    }

    /// The identifier at `index`.
    pub fn id_at(&self, index: usize) -> (id: &String)
        requires
            index < self.ids().len(),
        ensures
            id@ == self.ids()[index as int],
    {
        &self.ids[index]
    }

    /// The definition at `index`.
    pub fn definition_at(&self, index: usize) -> (def: &ComponentDefinition)
        requires
            index < self.defs().len(),
        ensures
            def@ == self.defs()[index as int],
    {
        &self.defs[index]
    }

    /// Binary search: the index of `id`, or the index at which it would have to be inserted.
    fn position(&self, id: &str) -> (found: (usize, bool))
        requires
            self.wf(),
        ensures
            found.0 <= self.ids().len(),
            found.1 ==> found.0 < self.ids().len() && self.ids()[found.0 as int] == id@,
            !found.1 ==> !self.ids().contains(id@),
            !found.1 ==> forall|j: int| 0 <= j < found.0 ==> text_lt(#[trigger] self.ids()[j], id@),
            !found.1 ==> forall|j: int|
                found.0 <= j < self.ids().len() ==> text_lt(id@, #[trigger] self.ids()[j]),
    {
        let mut lo: usize = 0;
        let mut hi: usize = self.ids.len();
        while lo < hi
            invariant
                self.wf(),
                lo <= hi <= self.ids().len(),
                self.ids().len() == self.ids.len(),
                forall|j: int| 0 <= j < lo ==> text_lt(#[trigger] self.ids()[j], id@),
                forall|j: int| hi <= j < self.ids().len() ==> text_lt(id@, #[trigger] self.ids()[j]),
            decreases hi - lo,
        {
            let mid = lo + (hi - lo) / 2;
            let here = self.ids[mid].as_str();
            assert(here@ == self.ids()[mid as int]);
            if text_before(here, id) {
                assert forall|j: int| 0 <= j < mid + 1 implies text_lt(#[trigger] self.ids()[j], id@) by {
                    if j < mid {
                        lemma_text_lt_transitive(self.ids()[j], self.ids()[mid as int], id@);
                    }
                }
                lo = mid + 1;
            } else if text_before(id, here) {
                assert forall|j: int| mid <= j < self.ids().len() implies text_lt(
                    id@,
                    #[trigger] self.ids()[j],
                ) by {
                    if mid < j {
                        lemma_text_lt_transitive(id@, self.ids()[mid as int], self.ids()[j]);
                    }
                }
                hi = mid;
            } else {
                proof {
                    lemma_text_total(here@, id@);
                }
                return (mid, true);
            }
        }
        proof {
            lemma_text_lt_irreflexive(id@);
            if self.ids().contains(id@) {
                let j = self.ids().index_of(id@);
                assert(self.ids()[j] == id@);
            }
        }
        (lo, false)
    }

    /// The definition of `id`, if the table holds one.
    pub fn get(&self, id: &str) -> (def: Option<&ComponentDefinition>)
        requires
            self.wf(),
        ensures
            match def {
                Some(d) => self@.contains_key(id@) && d@ == self@[id@],
                None => !self@.contains_key(id@),
            },
    {
        let (at, found) = self.position(id);
        if found {
            proof {
                lemma_table_at(self.ids(), self.defs(), at as int);
            }
            Some(&self.defs[at])
        } else {
            None
        }
    }

    /// Puts `def` under `id`, in place of the definition that `id` had, if any.
    pub fn insert(&mut self, id: String, def: ComponentDefinition)
        requires
            old(self).wf(),
        ensures
            final(self).wf(),
            final(self)@ == old(self)@.insert(id@, def@),
    {
        let (at, found) = self.position(id.as_str());
        if found {
            proof {
                lemma_table_update(self.ids(), self.defs(), at as int, def@);
            }
            self.defs[at] = def;
            assert(self.defs() =~= old(self).defs().update(at as int, def@));
            assert(self.ids() == old(self).ids());
        } else {
            self.place(at, id, def);
        }
    }

    /// Inserts a new entry at the index that `position` gave for its identifier.
    fn place(&mut self, at: usize, id: String, def: ComponentDefinition)
        requires
            old(self).wf(),
            at <= old(self).ids().len(),
            forall|j: int| 0 <= j < at ==> text_lt(#[trigger] old(self).ids()[j], id@),
            forall|j: int| at <= j < old(self).ids().len() ==> text_lt(id@, #[trigger] old(self).ids()[j]),
        ensures
            final(self).wf(),
            final(self).ids() == old(self).ids().insert(at as int, id@),
            final(self).defs() == old(self).defs().insert(at as int, def@),
            final(self)@ == old(self)@.insert(id@, def@),
    {
        let ghost ids = self.ids();
        let ghost defs = self.defs();
        self.ids.insert(at, id);
        self.defs.insert(at, def);
        proof {
            let ids2 = ids.insert(at as int, id@);
            assert(self.ids() =~= ids2);
            assert(self.defs() =~= defs.insert(at as int, def@));
            lemma_insert_ascending(ids, at as int, id@);
            lemma_table_insert(ids, defs, at as int, id@, def@);
        }
    }

    /// Records a marker for `id` seen in the source at `template_path`: the
    /// body of the component is empty again and the path is added to its
    /// record. Returns the index of the component.
    pub fn open(&mut self, id: String, template_path: &str) -> (index: usize)
        requires
            old(self).wf(),
        ensures
            final(self).wf(),
            index < final(self).ids().len(),
            final(self).ids()[index as int] == id@,
            final(self)@ == old(self)@.insert(id@, opened(old(self)@, id@, template_path@)),
    {
        let (at, found) = self.position(id.as_str());
        if found {
            proof {
                lemma_table_at(self.ids(), self.defs(), at as int);
                lemma_table_update(
                    self.ids(),
                    self.defs(),
                    at as int,
                    opened(self@, id@, template_path@),
                );
                assert(self.ids().contains(id@));
            }
            self.defs[at].contents = String::new();
            self.defs[at].defined_in_templates.push(template_path.to_owned());
            proof {
                assert(self.ids() == old(self).ids());
                assert(self.defs@[at as int]@.defined_in =~= old(self).defs()[at as int].defined_in.push(
                    template_path@,
                ));
                assert(self.defs() =~= old(self).defs().update(
                    at as int,
                    opened(old(self)@, id@, template_path@),
                ));
            }
        } else {
            let mut paths: Vec<String> = Vec::new();
            paths.push(template_path.to_owned());
            let def = ComponentDefinition { contents: String::new(), defined_in_templates: paths };
            proof {
                assert(def@.defined_in =~= seq![template_path@]);
                assert(def@ == opened(self@, id@, template_path@));
            }
            self.place(at, id, def);
        }
        at
    }

    /// Adds `line` to the body of the component at `index`, with nothing in between.
    pub fn append(&mut self, index: usize, line: &str)
        requires
            old(self).wf(),
            index < old(self).ids().len(),
        ensures
            final(self).wf(),
            final(self).ids() == old(self).ids(),
            final(self)@ == old(self)@.insert(
                old(self).ids()[index as int],
                extended(old(self)@[old(self).ids()[index as int]], line@),
            ),
    {
        proof {
            lemma_table_at(self.ids(), self.defs(), index as int);
            lemma_table_update(
                self.ids(),
                self.defs(),
                index as int,
                extended(self.defs()[index as int], line@),
            );
        }
        self.defs[index].contents.append(line);
        proof {
            assert(self.ids() == old(self).ids());
            assert(self.defs() =~= old(self).defs().update(
                index as int,
                extended(old(self).defs()[index as int], line@),
            ));
        }
    }
}

} // verus!
