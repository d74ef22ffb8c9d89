//! The tree that a document describes: values, lists and levels.

use indexmap::IndexMap;
use vstd::prelude::*;
use vstd::std_specs::cmp::PartialEqSpecImpl;

verus! {

/// A tree as a mathematical value.
pub enum Tree {
    /// A text.
    Value(Seq<char>),
    /// Trees in a row.
    List(Seq<Tree>),
    /// Trees under keys, in the order in which the keys came.
    Level(Seq<(Seq<char>, Tree)>),
}

/// A text.
pub type Value = String;

/// Nodes in a row.
pub type List = Vec<LSD>;

/// Nodes under keys. Every key occurs once, and the keys keep the order in
/// which they were first inserted.
///
/// The nodes are held in an `indexmap::IndexMap`, of which the verifier
/// sees nothing: a map that holds its own kind of node cannot be declared
/// to it. What is known of a level is what [`level_entries`] names, and
/// that is known from the contracts of the functions `map_..` below, each
/// of which makes one call of the map and is believed without proof.
#[verifier::external_body]
#[derive(Debug)]
pub struct Level {
    map: IndexMap<Value, LSD>,
}

/// A node of the tree.
#[derive(Debug)]
pub enum LSD {
    /// A text: a word, a string, or several of them on one line.
    Value(Value),
    /// A list, written `[ ]`.
    List(List),
    /// A level, written `{ }`.
    Level(Level),
}

/// The entries that the map of a level holds: each key as its characters
/// and the tree of the node under it, in the order of the map.
pub uninterp spec fn level_entries(level: Level) -> Seq<(Seq<char>, Tree)>;

/// The index of the first entry under `key`, if there is one.
pub open spec fn position(entries: Seq<(Seq<char>, Tree)>, key: Seq<char>) -> Option<int>
    decreases entries.len(),
{
    if entries.len() == 0 {
        None
    } else if entries.last().0 == key && position(entries.drop_last(), key) is None {
        Some(entries.len() - 1)
    } else {
        position(entries.drop_last(), key)
    }
}

/// What [`position`] finds: the first index under the key.
pub proof fn lemma_position(entries: Seq<(Seq<char>, Tree)>, key: Seq<char>)
    ensures
        match position(entries, key) {
            Some(i) => 0 <= i < entries.len() && entries[i].0 == key && forall|j: int|
                0 <= j < i ==> (#[trigger] entries[j]).0 != key,
            None => forall|j: int| 0 <= j < entries.len() ==> (#[trigger] entries[j]).0 != key,
        },
    decreases entries.len(),
{
    if entries.len() > 0 {
        lemma_position(entries.drop_last(), key);
        let front = entries.drop_last();
        assert(forall|j: int| 0 <= j < front.len() ==> front[j] == entries[j]);
        match position(front, key) {
            Some(i) => {
                assert(front[i] == entries[i]);
            },
            None => {
                assert forall|j: int| 0 <= j < entries.len() - 1 implies (#[trigger] entries[j]).0
                    != key by {
                    assert(front[j] == entries[j]);
                }
            },
        }
    }
}

/// A new last entry is found where the key was not held before, and
/// changes the place of no other key.
pub proof fn lemma_position_pushed(
    entries: Seq<(Seq<char>, Tree)>,
    key: Seq<char>,
    tree: Tree,
    other: Seq<char>,
)
    ensures
        position(entries, key) is None ==> position(entries.push((key, tree)), key) == Some(
            entries.len() as int,
        ),
        other != key ==> position(entries.push((key, tree)), other) == position(entries, other),
        position(entries, other) is Some ==> position(entries.push((key, tree)), other)
            == position(entries, other),
{
    assert(entries.push((key, tree)).drop_last() =~= entries);
}

/// A tree put in the place of another under the same key changes the place
/// of no key.
pub proof fn lemma_position_updated(
    entries: Seq<(Seq<char>, Tree)>,
    i: int,
    tree: Tree,
    other: Seq<char>,
)
    requires
        0 <= i < entries.len(),
    ensures
        position(entries.update(i, (entries[i].0, tree)), other) == position(entries, other),
    decreases entries.len(),
{
    let updated = entries.update(i, (entries[i].0, tree));
    if i == entries.len() - 1 {
        assert(updated.drop_last() =~= entries.drop_last());
    } else {
        assert(updated.drop_last() =~= entries.drop_last().update(i, (entries[i].0, tree)));
        lemma_position_updated(entries.drop_last(), i, tree, other);
    }
}

/// Whether two trees are equal: values with the same text, lists with
/// equal trees in the same order, and levels with the same number of
/// entries where each key of the first is a key of the second and the trees
/// under it are equal. The order of the entries of a level does not count.
pub open spec fn same(a: Tree, b: Tree) -> bool
    decreases a,
{
    match a {
        Tree::Value(text) => b == a,
        Tree::List(items) => b is List && b->List_0.len() == items.len() && forall|i: int|
            0 <= i < items.len() ==> same(#[trigger] items[i], b->List_0[i]),
        Tree::Level(entries) => b is Level && b->Level_0.len() == entries.len() && forall|i: int|
            0 <= i < entries.len() ==> same_under((#[trigger] entries[i]), b->Level_0),
    }
}

/// Whether `others` hold, under the key of `entry`, a tree equal to the
/// tree of `entry`.
pub open spec fn same_under(entry: (Seq<char>, Tree), others: Seq<(Seq<char>, Tree)>) -> bool
    decreases entry,
{
    match position(others, entry.0) {
        Some(j) => same(entry.1, others[j].1),
        None => false,
    }
}

/// Lists are equal where they are as long and their trees are equal one
/// by one, and only there.
pub proof fn lemma_same_lists(items: Seq<Tree>, others: Seq<Tree>)
    ensures
        same(Tree::List(items), Tree::List(others)) <==> items.len() == others.len() && forall|
            i: int,
        | 0 <= i < items.len() ==> same(#[trigger] items[i], others[i]),
{
    assert(decreases_to!(Tree::List(items) => Tree::List(items)->List_0));
    assert forall|i: int| 0 <= i < items.len() implies decreases_to!(items => #[trigger] items[i]) by {
    }
}

/// Levels are equal where they have as many entries and the second holds
/// an equal tree under each key of the first, and only there.
pub proof fn lemma_same_levels(entries: Seq<(Seq<char>, Tree)>, others: Seq<(Seq<char>, Tree)>)
    ensures
        same(Tree::Level(entries), Tree::Level(others)) <==> entries.len() == others.len()
            && forall|i: int| 0 <= i < entries.len() ==> same_under(#[trigger] entries[i], others),
{
    assert(decreases_to!(Tree::Level(entries) => Tree::Level(entries)->Level_0));
    assert forall|i: int| 0 <= i < entries.len() implies decreases_to!(entries => #[trigger] entries[i]) by {
    }
}

/// Whether no key occurs twice among the entries.
pub open spec fn distinct_keys(entries: Seq<(Seq<char>, Tree)>) -> bool {
    forall|i: int, j: int|
        0 <= i < j < entries.len() ==> (#[trigger] entries[i]).0 != (#[trigger] entries[j]).0
}

/// Whether no level of the tree holds a key twice.
pub open spec fn well_formed(tree: Tree) -> bool
    decreases tree,
{
    match tree {
        Tree::Value(_) => true,
        Tree::List(items) => forall|i: int|
            0 <= i < items.len() ==> well_formed(#[trigger] items[i]),
        Tree::Level(entries) => distinct_keys(entries) && forall|i: int|
            0 <= i < entries.len() ==> well_formed((#[trigger] entries[i]).1),
    }
}

/// A list holds no key twice where each of its trees holds none twice, and
/// only there.
pub proof fn lemma_well_formed_list(items: Seq<Tree>)
    ensures
        well_formed(Tree::List(items)) <==> forall|i: int|
            0 <= i < items.len() ==> well_formed(#[trigger] items[i]),
{
    assert(decreases_to!(Tree::List(items) => Tree::List(items)->List_0));
    assert forall|i: int| 0 <= i < items.len() implies decreases_to!(items => #[trigger] items[i]) by {
    }
}

/// A level holds no key twice, at any depth, where its keys differ and
/// each of its trees holds none twice, and only there.
pub proof fn lemma_well_formed_level(entries: Seq<(Seq<char>, Tree)>)
    ensures
        well_formed(Tree::Level(entries)) <==> distinct_keys(entries) && forall|i: int|
            0 <= i < entries.len() ==> well_formed((#[trigger] entries[i]).1),
{
    assert(decreases_to!(Tree::Level(entries) => Tree::Level(entries)->Level_0));
    assert forall|i: int| 0 <= i < entries.len() implies decreases_to!(entries => #[trigger] entries[i])
        && decreases_to!(entries[i] => entries[i].1) by {
    }
}

/// A tree in which no level holds a key twice is equal to itself.
pub proof fn lemma_same_is_reflexive(tree: Tree)
    requires
        well_formed(tree),
    ensures
        same(tree, tree),
    decreases tree,
{
    match tree {
        Tree::Value(_) => {},
        Tree::List(items) => {
            lemma_same_lists(items, items);
            lemma_well_formed_list(items);
            assert forall|i: int| 0 <= i < items.len() implies same(
                #[trigger] items[i],
                items[i],
            ) by {
                lemma_same_is_reflexive(items[i]);
            }
        },
        Tree::Level(entries) => {
            lemma_same_levels(entries, entries);
            lemma_well_formed_level(entries);
            assert forall|i: int| 0 <= i < entries.len() implies same_under(
                #[trigger] entries[i],
                entries,
            ) by {
                lemma_position(entries, entries[i].0);
                assert(decreases_to!(entries => entries[i]));
                assert(decreases_to!(entries[i] => entries[i].1));
                lemma_same_is_reflexive(entries[i].1);
            }
        },
    }
}

impl View for Level {
    type V = Seq<(Seq<char>, Tree)>;

    open spec fn view(&self) -> Seq<(Seq<char>, Tree)> {
        level_entries(*self)
    }
}

impl DeepView for Level {
    type V = Seq<(Seq<char>, Tree)>;

    open spec fn deep_view(&self) -> Seq<(Seq<char>, Tree)> {
        level_entries(*self)
    }
}

impl LSD {
    /// The tree that this node is.
    pub open spec fn view(&self) -> Tree
        decreases self,
    {
        match self {
            LSD::Value(text) => Tree::Value(text@),
            LSD::List(items) => Tree::List(
                Seq::new(
                    items.len() as nat,
                    |i: int|
                        if 0 <= i < items.len() {
                            items[i].view()
                        } else {
                            Tree::Value(Seq::empty())
                        },
                ),
            ),
            LSD::Level(level) => Tree::Level(level_entries(*level)),
        }
    }
}

impl DeepView for LSD {
    type V = Tree;

    open spec fn deep_view(&self) -> Tree {
        self.view()
    }
}

/// The trees of the nodes of a list.
pub open spec fn trees(items: Seq<LSD>) -> Seq<Tree> {
    Seq::new(items.len(), |i: int| items[i].view())
}

/// A list node is the list of the trees of its items.
pub proof fn lemma_list_view(items: Vec<LSD>)
    ensures
        LSD::List(items)@ == Tree::List(trees(items@)),
        items.deep_view() == trees(items@),
{
    assert(LSD::List(items)@->List_0 =~= trees(items@));
    assert(items.deep_view() =~= trees(items@));
}

impl Level {
    /// `IndexMap::new`: a map without entries.
    #[verifier::external_body]
    fn map_new() -> (level: Level)
        ensures
            level_entries(level) == Seq::<(Seq<char>, Tree)>::empty(),
    {
        Level { map: IndexMap::new() }
    }

    /// `IndexMap::len`: the number of entries.
    #[verifier::external_body]
    fn map_len(&self) -> (count: usize)
        ensures
            count == level_entries(*self).len(),
    {
        self.map.len()
    }

    /// `IndexMap::insert`: under a key that the map lacks, the value
    /// becomes the last entry and nothing is returned; under a key that it
    /// holds, the value takes the place of the one that was there, which is
    /// returned.
    #[verifier::external_body]
    fn map_insert(&mut self, key: Value, value: LSD) -> (previous: Option<LSD>)
        ensures
            match position(level_entries(*old(self)), key@) {
                Some(i) => previous matches Some(node) && node@ == level_entries(*old(self))[i].1
                    && level_entries(*final(self)) == level_entries(*old(self)).update(
                    i,
                    (key@, value@),
                ),
                None => previous is None && level_entries(*final(self)) == level_entries(
                    *old(self),
                ).push((key@, value@)),
            },
    {
        self.map.insert(key, value)
    }

    /// `IndexMap::get`: the node under the key, if the map holds the key.
    #[verifier::external_body]
    fn map_get(&self, key: &str) -> (found: Option<&LSD>)
        ensures
            match position(level_entries(*self), key@) {
                Some(i) => found matches Some(node) && node@ == level_entries(*self)[i].1,
                None => found is None,
            },
    {
        self.map.get(key)
    }

    /// `IndexMap::get_mut`: the node under the key, if the map holds the
    /// key, to be changed in its place.
    #[verifier::external_body]
    fn map_get_mut(&mut self, key: &str) -> (found: Option<&mut LSD>)
        ensures
            match position(level_entries(*old(self)), key@) {
                Some(i) => found matches Some(node) && node@ == level_entries(*old(self))[i].1
                    && level_entries(*final(self)) == level_entries(*old(self)).update(
                    i,
                    (key@, final(node)@),
                ),
                None => found is None && level_entries(*final(self)) == level_entries(*old(self)),
            },
    {
        self.map.get_mut(key)
    }

    /// `IndexMap::get_index`: the key and the node of the entry at an index
    /// below the number of entries.
    #[verifier::external_body]
    fn map_get_index(&self, index: usize) -> (entry: Option<(&Value, &LSD)>)
        ensures
            match entry {
                Some((key, node)) => index < level_entries(*self).len() && key@ == level_entries(
                    *self,
                )[index as int].0 && node@ == level_entries(*self)[index as int].1,
                None => index >= level_entries(*self).len(),
            },
    {
        self.map.get_index(index)
    }

    /// `IndexMap::into_iter`: the entries in their order.
    #[verifier::external_body]
    fn map_into_entries(self) -> (entries: Vec<(Value, LSD)>)
        ensures
            entries@.len() == level_entries(self).len(),
            forall|i: int|
                0 <= i < entries@.len() ==> (#[trigger] entries@[i]).0@ == level_entries(self)[i].0
                    && entries@[i].1@ == level_entries(self)[i].1,
    {
        self.map.into_iter().collect()
    }

    /// `IndexMap::clone`: a map with the same entries.
    #[verifier::external_body]
    fn map_clone(&self) -> (copy: Level)
        ensures
            level_entries(copy) == level_entries(*self),
    {
        Level { map: self.map.clone() }
    }

    /// A level without entries.
    pub fn new() -> (level: Level)
        ensures
            level@ == Seq::<(Seq<char>, Tree)>::empty(),
    {
        Level::map_new()
    }

    /// The number of entries.
    pub fn len(&self) -> (count: usize)
        ensures
            count == self@.len(),
    {
        self.map_len()
    }

    /// Whether the level has no entries.
    pub fn is_empty(&self) -> (empty: bool)
        ensures
            empty == (self@.len() == 0),
    {
        self.map_len() == 0
    }

    /// Whether the level holds the key.
    pub fn contains_key(&self, key: &str) -> (held: bool)
        ensures
            held == position(self@, key@) is Some,
    {
        self.map_get(key).is_some()
    }

    /// The node under the key, if the level holds the key.
    pub fn get(&self, key: &str) -> (found: Option<&LSD>)
        ensures
            match position(self@, key@) {
                Some(i) => found matches Some(node) && node@ == self@[i].1,
                None => found is None,
            },
    {
        self.map_get(key)
    }

    /// The node under the key, if the level holds the key, to be changed in
    /// its place.
    pub fn get_mut(&mut self, key: &str) -> (found: Option<&mut LSD>)
        ensures
            match position(old(self)@, key@) {
                Some(i) => found matches Some(node) && node@ == old(self)@[i].1 && final(self)@
                    == old(self)@.update(i, (key@, final(node)@)),
                None => found is None && final(self)@ == old(self)@,
            },
    {
        self.map_get_mut(key)
    }

    /// Puts the node under the key. Under a key that the level lacks it
    /// becomes the last entry; under a key that the level holds it takes
    /// the place of the node that was there, which is returned.
    pub fn insert(&mut self, key: Value, value: LSD) -> (previous: Option<LSD>)
        ensures
            match position(old(self)@, key@) {
                Some(i) => previous matches Some(node) && node@ == old(self)@[i].1 && final(self)@
                    == old(self)@.update(i, (key@, value@)),
                None => previous is None && final(self)@ == old(self)@.push((key@, value@)),
            },
    {
        self.map_insert(key, value)
    }

    /// The node under the key, to be changed in its place. Where the level
    /// lacks the key, an empty level becomes its last entry first.
    pub fn entry_or_default(&mut self, key: Value) -> (node: &mut LSD)
        ensures
            match position(old(self)@, key@) {
                Some(i) => node@ == old(self)@[i].1 && final(self)@ == old(self)@.update(
                    i,
                    (key@, final(node)@),
                ),
                None => node@ == Tree::Level(Seq::empty()) && final(self)@ == old(self)@.push(
                    (key@, final(node)@),
                ),
            },
    {
        let ghost before = self@;
        if !self.contains_key(key.as_str()) {
            self.insert(key.clone(), LSD::default());
            proof {
                lemma_position_pushed(before, key@, Tree::Level(Seq::empty()), key@);
                assert forall|tree: Tree| #[trigger]
                    self@.update(before.len() as int, (key@, tree)) == before.push((key@, tree)) by {
                    assert(self@.update(before.len() as int, (key@, tree)) =~= before.push(
                        (key@, tree),
                    ));
                }
            }
        }
        match self.get_mut(key.as_str()) {
            Some(node) => node,
            None => unreached(),
        }
    }

    /// The key and the node of the entry at an index, if the level has as
    /// many entries.
    pub fn get_index(&self, index: usize) -> (entry: Option<(&Value, &LSD)>)
        ensures
            match entry {
                Some((key, node)) => index < self@.len() && key@ == self@[index as int].0 && node@
                    == self@[index as int].1,
                None => index >= self@.len(),
            },
    {
        self.map_get_index(index)
    }

    /// Whether the two levels are equal, whatever the order of their
    /// entries.
    #[verifier::loop_isolation(false)]
    pub fn same_as(&self, other: &Level) -> (equal: bool)
        ensures
            equal == same(Tree::Level(self@), Tree::Level(other@)),
        decreases self@,
    {
        let ghost entries = self@;
        proof {
            lemma_same_levels(entries, other@);
        }
        if self.len() != other.len() {
            return false;
        }
        let mut i: usize = 0;
        while i < self.len()
            invariant
                entries == self@,
                entries.len() == other@.len(),
                i <= entries.len(),
                forall|k: int| 0 <= k < i ==> same_under(#[trigger] entries[k], other@),
            decreases entries.len() - i,
        {
            assert(decreases_to!(entries => entries[i as int]));
            assert(decreases_to!(entries[i as int] => entries[i as int].1));
            let equal = match self.get_index(i) {
                Some((key, node)) => match other.get(key.as_str()) {
                    Some(found) => node.same_as(found),
                    None => false,
                },
                None => false,
            };
            if !equal {
                assert(!same_under(entries[i as int], other@));
                return false;
            }
            i += 1;
        }
        true
    }

    /// The entries in their order.
    pub fn into_entries(self) -> (entries: Vec<(Value, LSD)>)
        ensures
            entries@.len() == self@.len(),
            forall|i: int|
                0 <= i < entries@.len() ==> (#[trigger] entries@[i]).0@ == self@[i].0
                    && entries@[i].1@ == self@[i].1,
    {
        self.map_into_entries()
    }
}

impl Clone for Level {
    fn clone(&self) -> (copy: Level)
        ensures
            copy@ == self@,
    {
        self.map_clone()
    }
}

impl Default for Level {
    fn default() -> (level: Level)
        ensures
            level@ == Seq::<(Seq<char>, Tree)>::empty(),
    {
        Level::map_new()
    }
}

impl Default for LSD {
    /// An empty level.
    fn default() -> (node: LSD)
        ensures
            node@ == Tree::Level(Seq::empty()),
    {
        LSD::Level(Level::new())
    }
}

impl Clone for LSD {
    fn clone(&self) -> (copy: LSD)
        ensures
            copy@ == self@,
        decreases self,
    {
        match self {
            LSD::Value(text) => LSD::Value(text.clone()),
            LSD::List(items) => {
                let mut copies: Vec<LSD> = Vec::new();
                let mut i: usize = 0;
                while i < items.len()
                    invariant
                        self is List,
                        self->List_0 == *items,
                        i <= items.len(),
                        copies@.len() == i,
                        forall|j: int| 0 <= j < i ==> (#[trigger] copies@[j])@ == items@[j]@,
                    decreases items.len() - i,
                {
                    assert(decreases_to!(*self => self->List_0));
                    copies.push(items[i].clone());
                    i += 1;
                }
                proof {
                    lemma_list_view(copies);
                    lemma_list_view(*items);
                    assert(trees(copies@) =~= trees(items@));
                }
                LSD::List(copies)
            },
            LSD::Level(level) => LSD::Level(level.clone()),
        }
    }
}

impl LSD {
    /// Whether the two nodes are equal trees, whatever the order of the
    /// entries of their levels.
    #[verifier::loop_isolation(false)]
    pub fn same_as(&self, other: &LSD) -> (equal: bool)
        ensures
            equal == same(self@, other@),
        decreases self@,
    {
        match (self, other) {
            (LSD::Value(a), LSD::Value(b)) => *a == *b,
            (LSD::List(a), LSD::List(b)) => {
                let ghost items = trees(a@);
                let ghost others = trees(b@);
                proof {
                    lemma_list_view(*a);
                    lemma_list_view(*b);
                    lemma_same_lists(items, others);
                }
                if a.len() != b.len() {
                    return false;
                }
                let mut i: usize = 0;
                while i < a.len()
                    invariant
                        self@ == Tree::List(items),
                        items == trees(a@),
                        others == trees(b@),
                        a.len() == b.len(),
                        i <= a.len(),
                        forall|k: int| 0 <= k < i ==> same(#[trigger] items[k], others[k]),
                    decreases a.len() - i,
                {
                    assert(decreases_to!(self@ => self@->List_0));
                    assert(decreases_to!(items => items[i as int]));
                    if !a[i].same_as(&b[i]) {
                        assert(!same(items[i as int], others[i as int]));
                        return false;
                    }
                    i += 1;
                }
                true
            },
            (LSD::Level(a), LSD::Level(b)) => {
                assert(decreases_to!(self@ => self@->Level_0));
                a.same_as(b)
            },
            _ => false,
        }
    }

    /// This node as a value, if it is one.
    pub fn as_value(&self) -> (value: Option<&Value>)
        ensures
            match *self {
                LSD::Value(text) => value == Some(&text),
                _ => value is None,
            },
    {
        match self {
            LSD::Value(value) => Some(value),
            _ => None,
        }
    }

    /// This node as a list, if it is one.
    pub fn as_list(&self) -> (list: Option<&List>)
        ensures
            match *self {
                LSD::List(items) => list == Some(&items),
                _ => list is None,
            },
    {
        match self {
            LSD::List(list) => Some(list),
            _ => None,
        }
    }

    /// This node as a level, if it is one.
    pub fn as_level(&self) -> (level: Option<&Level>)
        ensures
            match *self {
                LSD::Level(entries) => level == Some(&entries),
                _ => level is None,
            },
    {
        match self {
            LSD::Level(level) => Some(level),
            _ => None,
        }
    }

    /// This node as a value that can be changed, if it is one.
    pub fn as_value_mut(&mut self) -> (value: Option<&mut Value>)
        ensures
            match *old(self) {
                LSD::Value(text) => value matches Some(place) && *place == text && *final(self)
                    == LSD::Value(*final(place)),
                _ => value is None && *final(self) == *old(self),
            },
    {
        match self {
            LSD::Value(value) => Some(value),
            _ => None,
        }
    }

    /// This node as a list that can be changed, if it is one.
    pub fn as_list_mut(&mut self) -> (list: Option<&mut List>)
        ensures
            match *old(self) {
                LSD::List(items) => list matches Some(place) && *place == items && *final(self)
                    == LSD::List(*final(place)),
                _ => list is None && *final(self) == *old(self),
            },
    {
        match self {
            LSD::List(list) => Some(list),
            _ => None,
        }
    }

    /// This node as a level that can be changed, if it is one.
    pub fn as_level_mut(&mut self) -> (level: Option<&mut Level>)
        ensures
            match *old(self) {
                LSD::Level(entries) => level matches Some(place) && *place == entries
                    && *final(self) == LSD::Level(*final(place)),
                _ => level is None && *final(self) == *old(self),
            },
    {
        match self {
            LSD::Level(level) => Some(level),
            _ => None,
        }
    }
}

impl PartialEq for Level {
    fn eq(&self, other: &Level) -> (equal: bool) {
        self.same_as(other)
    }
}

impl PartialEqSpecImpl for Level {
    open spec fn obeys_eq_spec() -> bool {
        true
    }

    open spec fn eq_spec(&self, other: &Level) -> bool {
        same(Tree::Level(self@), Tree::Level(other@))
    }
}

impl Eq for Level {

}

impl PartialEq for LSD {
    fn eq(&self, other: &LSD) -> (equal: bool) {
        self.same_as(other)
    }
}

impl PartialEqSpecImpl for LSD {
    open spec fn obeys_eq_spec() -> bool {
        true
    }

    open spec fn eq_spec(&self, other: &LSD) -> bool {
        same(self@, other@)
    }
}

impl Eq for LSD {

}

impl<'a> PartialEq<&'a LSD> for LSD {
    fn eq(&self, other: &&'a LSD) -> (equal: bool) {
        self.same_as(*other)
    }
}

impl<'a> PartialEqSpecImpl<&'a LSD> for LSD {
    open spec fn obeys_eq_spec() -> bool {
        true
    }

    open spec fn eq_spec(&self, other: &&'a LSD) -> bool {
        same(self@, other@)
    }
}

impl<'a> PartialEq<LSD> for &'a LSD {
    fn eq(&self, other: &LSD) -> (equal: bool) {
        (*self).same_as(other)
    }
}

impl<'a> PartialEqSpecImpl<LSD> for &'a LSD {
    open spec fn obeys_eq_spec() -> bool {
        true
    }

    open spec fn eq_spec(&self, other: &LSD) -> bool {
        same(self@, other@)
    }
}

} // verus!
