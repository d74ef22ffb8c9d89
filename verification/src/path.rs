//! Reading a tree by a path of keys and indices.

use vstd::prelude::*;
use vstd::slice::slice_subrange;
use crate::tree::{lemma_position, position, Level, List, Tree, Value, LSD};

verus! {

/// A part of a key path.
#[derive(Debug, PartialEq, Eq, PartialOrd, Ord, Hash)]
pub enum KeyPathPart {
    /// A key of a level.
    Key(String),
    /// An index into a list. In a level it stands for the key that writes
    /// it in decimal digits.
    Index(usize),
}

/// A path into a tree.
pub type KeyPath = [KeyPathPart];

/// A part of a key path as a mathematical value.
pub enum Segment {
    /// A key, as its characters.
    Key(Seq<char>),
    /// An index.
    Index(nat),
}

impl View for KeyPathPart {
    type V = Segment;

    open spec fn view(&self) -> Segment {
        match self {
            KeyPathPart::Key(key) => Segment::Key(key@),
            KeyPathPart::Index(index) => Segment::Index(*index as nat),
        }
    }
}

impl DeepView for KeyPathPart {
    type V = Segment;

    open spec fn deep_view(&self) -> Segment {
        self.view()
    }
}

/// The number that decimal digits write.
pub open spec fn decimal_value(digits: Seq<char>) -> nat
    decreases digits.len(),
{
    if digits.len() == 0 {
        0
    } else {
        (decimal_value(digits.drop_last()) * 10 + (digits.last() as nat - '0' as nat)) as nat
    }
}

/// The decimal digits that write a number, without leading zeros.
pub open spec fn decimal_digits(n: nat) -> Seq<char>
    decreases n,
{
    if n < 10 {
        seq![(('0' as nat) + n) as char]
    } else {
        decimal_digits(n / 10).push((('0' as nat) + n % 10) as char)
    }
}

/// The index that a text writes: decimal digits, with or without a `+`
/// before them, whose number fits in `usize`.
pub open spec fn index_of_text(text: Seq<char>) -> Option<usize> {
    let digits = if text.len() > 0 && text[0] == '+' {
        text.skip(1)
    } else {
        text
    };
    if digits.len() > 0 && (forall|i: int| 0 <= i < digits.len() ==> '0' <= #[trigger] digits[i]
        <= '9') && decimal_value(digits) <= usize::MAX {
        Some(decimal_value(digits) as usize)
    } else {
        None
    }
}

/// The part that a text stands for: an index where the text writes one,
/// and a key otherwise.
pub open spec fn segment_of_text(text: Seq<char>) -> Segment {
    match index_of_text(text) {
        Some(index) => Segment::Index(index as nat),
        None => Segment::Key(text),
    }
}

/// The key under which a level holds what a segment names: the key
/// itself, or the index in decimal digits.
pub open spec fn segment_key(segment: Segment) -> Seq<char> {
    match segment {
        Segment::Key(key) => key,
        Segment::Index(index) => decimal_digits(index),
    }
}

/// `str::parse` for `usize`: the number that the text writes in decimal
/// digits, with or without a `+` before them, if it fits.
#[verifier::external_body]
fn parse_index(text: &str) -> (index: Option<usize>)
    ensures
        index == index_of_text(text@),
{
    text.parse::<usize>().ok()
}

/// `usize::to_string`: the decimal digits of the number.
#[verifier::external_body]
fn index_text(index: usize) -> (text: String)
    ensures
        text@ == decimal_digits(index as nat),
{
    index.to_string()
}

impl KeyPathPart {
    /// The part that a text stands for: an index where the text writes
    /// one, and a key otherwise.
    pub fn of_text(text: &str) -> (part: KeyPathPart)
        ensures
            part@ == segment_of_text(text@),
    {
        match parse_index(text) {
            Some(index) => KeyPathPart::Index(index),
            None => KeyPathPart::Key(text.to_owned()),
        }
    }

    /// This part as a text: the key, or the index in decimal digits.
    pub fn to_text(&self) -> (text: String)
        ensures
            text@ == segment_key(self@),
    {
        match self {
            KeyPathPart::Key(key) => key.clone(),
            KeyPathPart::Index(index) => index_text(*index),
        }
    }
}

impl Clone for KeyPathPart {
    fn clone(&self) -> (copy: KeyPathPart)
        ensures
            copy == *self,
    {
        match self {
            KeyPathPart::Key(key) => KeyPathPart::Key(key.clone()),
            KeyPathPart::Index(index) => KeyPathPart::Index(*index),
        }
    }
}

impl From<usize> for KeyPathPart {
    fn from(value: usize) -> (part: KeyPathPart) {
        KeyPathPart::Index(value)
    }
}

impl vstd::std_specs::convert::FromSpecImpl<usize> for KeyPathPart {
    open spec fn obeys_from_spec() -> bool {
        true
    }

    open spec fn from_spec(value: usize) -> KeyPathPart {
        KeyPathPart::Index(value)
    }
}

impl From<String> for KeyPathPart {
    fn from(value: String) -> (part: KeyPathPart) {
        match parse_index(value.as_str()) {
            Some(index) => KeyPathPart::Index(index),
            None => KeyPathPart::Key(value),
        }
    }
}

impl vstd::std_specs::convert::FromSpecImpl<String> for KeyPathPart {
    open spec fn obeys_from_spec() -> bool {
        true
    }

    open spec fn from_spec(value: String) -> KeyPathPart {
        match index_of_text(value@) {
            Some(index) => KeyPathPart::Index(index),
            None => KeyPathPart::Key(value),
        }
    }
}

impl<'a> From<&'a str> for KeyPathPart {
    fn from(value: &'a str) -> (part: KeyPathPart)
        ensures
            part@ == segment_of_text(value@),
    {
        KeyPathPart::of_text(value)
    }
}

/// A key made from a borrowed text owns a copy of it, which no spec
/// function can name: what the conversion gives is said on `from` itself.
impl<'a> vstd::std_specs::convert::FromSpecImpl<&'a str> for KeyPathPart {
    open spec fn obeys_from_spec() -> bool {
        false
    }

    open spec fn from_spec(value: &'a str) -> KeyPathPart {
        match index_of_text(value@) {
            Some(index) => KeyPathPart::Index(index),
            None => KeyPathPart::Key(arbitrary()),
        }
    }
}

/// The path that the texts write, part by part: each text that writes an
/// index is an index, and every other text is a key.
pub fn key(texts: &[&str]) -> (path: Vec<KeyPathPart>)
    ensures
        path@.len() == texts@.len(),
        forall|i: int| 0 <= i < texts@.len() ==> (#[trigger] path@[i])@ == segment_of_text(texts@[i]@),
{
    let mut path: Vec<KeyPathPart> = Vec::new();
    let mut i: usize = 0;
    while i < texts.len()
        invariant
            i <= texts@.len(),
            path@.len() == i,
            forall|k: int| 0 <= k < i ==> (#[trigger] path@[k])@ == segment_of_text(texts@[k]@),
        decreases texts.len() - i,
    {
        path.push(KeyPathPart::of_text(texts[i]));
        i += 1;
    }
    path
}

/// The segments of the parts of a path.
pub open spec fn segments(parts: Seq<KeyPathPart>) -> Seq<Segment> {
    Seq::new(parts.len(), |i: int| parts[i]@)
}

/// The tree that a path leads to. The empty path leads to the tree itself.
/// In a level the first segment is a key, and in a list an index; a value
/// leads nowhere.
pub open spec fn lookup(tree: Tree, path: Seq<Segment>) -> Option<Tree>
    decreases path.len(),
{
    if path.len() == 0 {
        Some(tree)
    } else {
        match step(tree, path[0]) {
            Some(child) => lookup(child, path.skip(1)),
            None => None,
        }
    }
}

/// The tree that one segment leads to.
pub open spec fn step(tree: Tree, segment: Segment) -> Option<Tree> {
    match tree {
        Tree::Value(_) => None,
        Tree::List(items) => match segment {
            Segment::Index(index) => if index < items.len() {
                Some(items[index as int])
            } else {
                None
            },
            Segment::Key(_) => None,
        },
        Tree::Level(entries) => match position(entries, segment_key(segment)) {
            Some(i) => Some(entries[i].1),
            None => None,
        },
    }
}

/// Whether `found` is the node with the tree `expected`, or nothing where
/// nothing is expected.
pub open spec fn finds(found: Option<&LSD>, expected: Option<Tree>) -> bool {
    match expected {
        Some(tree) => found matches Some(node) && node@ == tree,
        None => found is None,
    }
}

fn child<'a>(node: &'a LSD, part: &KeyPathPart) -> (found: Option<&'a LSD>)
    ensures
        finds(found, step(node@, part@)),
{
    match node {
        LSD::Value(_) => None,
        LSD::List(list) => match part {
            KeyPathPart::Index(index) => if *index < list.len() {
                Some(&list[*index])
            } else {
                None
            },
            KeyPathPart::Key(_) => None,
        },
        LSD::Level(level) => {
            let key = part.to_text();
            level.get(key.as_str())
        },
    }
}

fn descend<'a>(node: &'a LSD, parts: &KeyPath) -> (found: Option<&'a LSD>)
    ensures
        finds(found, lookup(node@, segments(parts@))),
{
    let ghost path = segments(parts@);
    let mut current = node;
    let mut i: usize = 0;
    assert(path.skip(0) =~= path);
    while i < parts.len()
        invariant
            i <= parts.len(),
            path == segments(parts@),
            lookup(node@, path) == lookup(current@, path.skip(i as int)),
        decreases parts.len() - i,
    {
        assert(path.skip(i as int).skip(1) =~= path.skip(i + 1));
        current = match child(current, &parts[i]) {
            Some(next) => next,
            None => {
                return None;
            },
        };
        i += 1;
    }
    Some(current)
}

/// The tree with `child` in the place that `segment` leads to. A segment
/// that leads nowhere leaves the tree as it is.
pub open spec fn with_child(tree: Tree, segment: Segment, child: Tree) -> Tree {
    match tree {
        Tree::Value(_) => tree,
        Tree::List(items) => match segment {
            Segment::Index(index) => if index < items.len() {
                Tree::List(items.update(index as int, child))
            } else {
                tree
            },
            Segment::Key(_) => tree,
        },
        Tree::Level(entries) => match position(entries, segment_key(segment)) {
            Some(i) => Tree::Level(entries.update(i, (entries[i].0, child))),
            None => tree,
        },
    }
}

/// The tree with `new` in the place that `path` leads to. A path that
/// leads nowhere leaves the tree as it is.
pub open spec fn replaced(tree: Tree, path: Seq<Segment>, new: Tree) -> Tree
    decreases path.len(),
{
    if path.len() == 0 {
        new
    } else {
        match step(tree, path[0]) {
            Some(child) => with_child(tree, path[0], replaced(child, path.skip(1), new)),
            None => tree,
        }
    }
}

/// Putting a child where it stands already changes nothing.
pub proof fn lemma_with_same_child(tree: Tree, segment: Segment)
    requires
        step(tree, segment) is Some,
    ensures
        with_child(tree, segment, step(tree, segment)->Some_0) == tree,
{
    match tree {
        Tree::Value(_) => {},
        Tree::List(items) => {
            let index = segment->Index_0;
            assert(items.update(index as int, items[index as int]) =~= items);
        },
        Tree::Level(entries) => {
            lemma_position(entries, segment_key(segment));
            let i = position(entries, segment_key(segment))->Some_0;
            assert(entries.update(i, (entries[i].0, entries[i].1)) =~= entries);
        },
    }
}

/// A list node with one item changed is the list with the tree of that
/// item changed.
proof fn lemma_list_with_item(before: List, after: List, index: int, item: LSD)
    requires
        0 <= index < before@.len(),
        after@ == before@.update(index, item),
    ensures
        LSD::List(after)@ == with_child(
            LSD::List(before)@,
            Segment::Index(index as nat),
            item@,
        ),
{
    assert(LSD::List(after)@->List_0 =~= LSD::List(before)@->List_0.update(index, item@));
}

fn child_mut<'a>(node: &'a mut LSD, part: &KeyPathPart) -> (found: Option<&'a mut LSD>)
    ensures
        match step(old(node)@, part@) {
            Some(tree) => found matches Some(place) && place@ == tree && final(node)@
                == with_child(old(node)@, part@, final(place)@),
            None => found is None && final(node)@ == old(node)@,
        },
{
    match node {
        LSD::Value(_) => None,
        LSD::List(list) => match part {
            KeyPathPart::Index(index) => if *index < list.len() {
                let ghost before = *list;
                assert forall|after: List, item: LSD|
                    after@ == before@.update(*index as int, item) implies #[trigger] LSD::List(
                    after,
                )@ == with_child(
                    LSD::List(before)@,
                    Segment::Index(*index as nat),
                    #[trigger] item@,
                ) by {
                    lemma_list_with_item(before, after, *index as int, item);
                }
                Some(&mut list[*index])
            } else {
                None
            },
            KeyPathPart::Key(_) => None,
        },
        LSD::Level(level) => {
            let key = part.to_text();
            proof {
                lemma_position(level@, key@);
            }
            level.get_mut(key.as_str())
        },
    }
}

/// Putting a tree where it stands already changes nothing.
pub proof fn lemma_replaced_same(tree: Tree, path: Seq<Segment>)
    ensures
        lookup(tree, path) matches Some(found) ==> replaced(tree, path, found) == tree,
    decreases path.len(),
{
    if path.len() > 0 {
        if step(tree, path[0]) is Some {
            lemma_replaced_same(step(tree, path[0])->Some_0, path.skip(1));
            lemma_with_same_child(tree, path[0]);
        }
    }
}

fn descend_mut<'a>(node: &'a mut LSD, parts: &KeyPath) -> (found: Option<&'a mut LSD>)
    ensures
        match lookup(old(node)@, segments(parts@)) {
            Some(tree) => found matches Some(place) && place@ == tree && final(node)@ == replaced(
                old(node)@,
                segments(parts@),
                final(place)@,
            ),
            None => found is None && final(node)@ == old(node)@,
        },
    decreases parts@.len(),
{
    if parts.len() == 0 {
        return Some(node);
    }
    let rest = slice_subrange(parts, 1, parts.len());
    proof {
        assert(segments(rest@) =~= segments(parts@).skip(1));
        if step(node@, parts@[0]@) is Some {
            lemma_with_same_child(node@, parts@[0]@);
        }
    }
    match child_mut(node, &parts[0]) {
        Some(next) => descend_mut(next, rest),
        None => None,
    }
}

/// Reading a tree by a path of keys and indices.
pub trait LSDGetExt {
    /// This tree.
    spec fn tree(&self) -> Tree;

    /// The tree that a path leads to from here, if it leads anywhere.
    spec fn at(&self, path: Seq<Segment>) -> Option<Tree>;

    /// What a path leads to from here, it leads to in this tree.
    proof fn lemma_at_in_tree(&self, path: Seq<Segment>)
        ensures
            self.at(path) is Some ==> lookup(self.tree(), path) == self.at(path),
    ;

    /// The node that the path leads to.
    fn inner(&self, parts: &KeyPath) -> (found: Option<&LSD>)
        ensures
            finds(found, self.at(segments(parts@))),
    ;

    /// The node that the path leads to, to be changed in its place.
    fn inner_mut(&mut self, parts: &KeyPath) -> (found: Option<&mut LSD>)
        ensures
            match old(self).at(segments(parts@)) {
                Some(tree) => found matches Some(place) && place@ == tree && final(self).tree()
                    == replaced(old(self).tree(), segments(parts@), final(place)@),
                None => found is None && final(self).tree() == old(self).tree(),
            },
    ;

    /// The value that the path leads to. Where it leads to a list or a
    /// level, the error is what `invalid` makes.
    fn value<E, F: FnOnce() -> E>(&self, invalid: F, parts: &KeyPath) -> (result: Result<
        Option<&Value>,
        E,
    >)
        requires
            invalid.requires(()),
        ensures
            match self.at(segments(parts@)) {
                None => result matches Ok(None),
                Some(Tree::Value(text)) => result matches Ok(Some(value)) && value@ == text,
                Some(_) => result matches Err(error) && invalid.ensures((), error),
            },
    {
        match self.inner(parts) {
            None => Ok(None),
            Some(node) => match node.as_value() {
                Some(value) => Ok(Some(value)),
                None => Err(invalid()),
            },
        }
    }

    /// The list that the path leads to. Where it leads to a value or a
    /// level, the error is what `invalid` makes.
    fn list<E, F: FnOnce() -> E>(&self, invalid: F, parts: &KeyPath) -> (result: Result<
        Option<&List>,
        E,
    >)
        requires
            invalid.requires(()),
        ensures
            match self.at(segments(parts@)) {
                None => result matches Ok(None),
                Some(Tree::List(items)) => result matches Ok(Some(list)) && LSD::List(*list)@
                    == Tree::List(items),
                Some(_) => result matches Err(error) && invalid.ensures((), error),
            },
    {
        match self.inner(parts) {
            None => Ok(None),
            Some(node) => match node.as_list() {
                Some(list) => Ok(Some(list)),
                None => Err(invalid()),
            },
        }
    }

    /// The level that the path leads to. Where it leads to a value or a
    /// list, the error is what `invalid` makes.
    fn level<E, F: FnOnce() -> E>(&self, invalid: F, parts: &KeyPath) -> (result: Result<
        Option<&Level>,
        E,
    >)
        requires
            invalid.requires(()),
        ensures
            match self.at(segments(parts@)) {
                None => result matches Ok(None),
                Some(Tree::Level(entries)) => result matches Ok(Some(level)) && level@ == entries,
                Some(_) => result matches Err(error) && invalid.ensures((), error),
            },
    {
        match self.inner(parts) {
            None => Ok(None),
            Some(node) => match node.as_level() {
                Some(level) => Ok(Some(level)),
                None => Err(invalid()),
            },
        }
    }

    /// The value that the path leads to, to be changed in its place.
    fn value_mut<E, F: FnOnce() -> E>(&mut self, invalid: F, parts: &KeyPath) -> (result: Result<
        Option<&mut Value>,
        E,
    >)
        requires
            invalid.requires(()),
        ensures
            match old(self).at(segments(parts@)) {
                None => result matches Ok(None) && final(self).tree() == old(self).tree(),
                Some(Tree::Value(text)) => result matches Ok(Some(place)) && place@ == text
                    && final(self).tree() == replaced(
                    old(self).tree(),
                    segments(parts@),
                    Tree::Value(final(place)@),
                ),
                Some(_) => result matches Err(error) && invalid.ensures((), error)
                    && final(self).tree() == old(self).tree(),
            },
    {
        proof {
            self.lemma_at_in_tree(segments(parts@));
            lemma_replaced_same(self.tree(), segments(parts@));
        }
        match self.inner_mut(parts) {
            None => Ok(None),
            Some(node) => match node.as_value_mut() {
                Some(value) => Ok(Some(value)),
                None => Err(invalid()),
            },
        }
    }

    /// The list that the path leads to, to be changed in its place.
    fn list_mut<E, F: FnOnce() -> E>(&mut self, invalid: F, parts: &KeyPath) -> (result: Result<
        Option<&mut List>,
        E,
    >)
        requires
            invalid.requires(()),
        ensures
            match old(self).at(segments(parts@)) {
                None => result matches Ok(None) && final(self).tree() == old(self).tree(),
                Some(Tree::List(items)) => result matches Ok(Some(place)) && LSD::List(*place)@
                    == Tree::List(items) && final(self).tree() == replaced(
                    old(self).tree(),
                    segments(parts@),
                    LSD::List(*final(place))@,
                ),
                Some(_) => result matches Err(error) && invalid.ensures((), error)
                    && final(self).tree() == old(self).tree(),
            },
    {
        proof {
            self.lemma_at_in_tree(segments(parts@));
            lemma_replaced_same(self.tree(), segments(parts@));
        }
        match self.inner_mut(parts) {
            None => Ok(None),
            Some(node) => match node.as_list_mut() {
                Some(list) => Ok(Some(list)),
                None => Err(invalid()),
            },
        }
    }

    /// The level that the path leads to, to be changed in its place.
    fn level_mut<E, F: FnOnce() -> E>(&mut self, invalid: F, parts: &KeyPath) -> (result: Result<
        Option<&mut Level>,
        E,
    >)
        requires
            invalid.requires(()),
        ensures
            match old(self).at(segments(parts@)) {
                None => result matches Ok(None) && final(self).tree() == old(self).tree(),
                Some(Tree::Level(entries)) => result matches Ok(Some(place)) && place@ == entries
                    && final(self).tree() == replaced(
                    old(self).tree(),
                    segments(parts@),
                    Tree::Level(final(place)@),
                ),
                Some(_) => result matches Err(error) && invalid.ensures((), error)
                    && final(self).tree() == old(self).tree(),
            },
    {
        proof {
            self.lemma_at_in_tree(segments(parts@));
            lemma_replaced_same(self.tree(), segments(parts@));
        }
        match self.inner_mut(parts) {
            None => Ok(None),
            Some(node) => match node.as_level_mut() {
                Some(level) => Ok(Some(level)),
                None => Err(invalid()),
            },
        }
    }
}

impl LSDGetExt for LSD {
    open spec fn tree(&self) -> Tree {
        self@
    }

    open spec fn at(&self, path: Seq<Segment>) -> Option<Tree> {
        lookup(self@, path)
    }

    proof fn lemma_at_in_tree(&self, path: Seq<Segment>) {
    }

    fn inner(&self, parts: &KeyPath) -> (found: Option<&LSD>) {
        descend(self, parts)
    }

    fn inner_mut(&mut self, parts: &KeyPath) -> (found: Option<&mut LSD>) {
        descend_mut(self, parts)
    }
}

impl LSDGetExt for Level {
    open spec fn tree(&self) -> Tree {
        Tree::Level(self@)
    }

    /// As from a level node, but the empty path leads nowhere: a level
    /// alone is no node.
    open spec fn at(&self, path: Seq<Segment>) -> Option<Tree> {
        if path.len() == 0 {
            None
        } else {
            lookup(Tree::Level(self@), path)
        }
    }

    proof fn lemma_at_in_tree(&self, path: Seq<Segment>) {
    }

    fn inner(&self, parts: &KeyPath) -> (found: Option<&LSD>) {
        if parts.len() == 0 {
            return None;
        }
        let rest = slice_subrange(parts, 1, parts.len());
        assert(segments(rest@) =~= segments(parts@).skip(1));
        let key = parts[0].to_text();
        match self.get(key.as_str()) {
            Some(node) => descend(node, rest),
            None => None,
        }
    }

    fn inner_mut(&mut self, parts: &KeyPath) -> (found: Option<&mut LSD>) {
        if parts.len() == 0 {
            return None;
        }
        let rest = slice_subrange(parts, 1, parts.len());
        let key = parts[0].to_text();
        proof {
            assert(segments(rest@) =~= segments(parts@).skip(1));
            lemma_position(self@, key@);
            if step(Tree::Level(self@), parts@[0]@) is Some {
                lemma_with_same_child(Tree::Level(self@), parts@[0]@);
            }
        }
        match self.get_mut(key.as_str()) {
            Some(node) => descend_mut(node, rest),
            None => None,
        }
    }
}

impl LSDGetExt for List {
    open spec fn tree(&self) -> Tree {
        LSD::List(*self)@
    }

    /// As from a list node, but the empty path leads nowhere: a list alone
    /// is no node.
    open spec fn at(&self, path: Seq<Segment>) -> Option<Tree> {
        if path.len() == 0 {
            None
        } else {
            lookup(LSD::List(*self)@, path)
        }
    }

    proof fn lemma_at_in_tree(&self, path: Seq<Segment>) {
    }

    fn inner(&self, parts: &KeyPath) -> (found: Option<&LSD>) {
        if parts.len() == 0 {
            return None;
        }
        let rest = slice_subrange(parts, 1, parts.len());
        assert(segments(rest@) =~= segments(parts@).skip(1));
        match &parts[0] {
            KeyPathPart::Index(index) => if *index < self.len() {
                descend(&self[*index], rest)
            } else {
                None
            },
            KeyPathPart::Key(_) => None,
        }
    }

    fn inner_mut(&mut self, parts: &KeyPath) -> (found: Option<&mut LSD>) {
        if parts.len() == 0 {
            return None;
        }
        let rest = slice_subrange(parts, 1, parts.len());
        proof {
            assert(segments(rest@) =~= segments(parts@).skip(1));
            if step(LSD::List(*self)@, parts@[0]@) is Some {
                lemma_with_same_child(LSD::List(*self)@, parts@[0]@);
            }
        }
        match &parts[0] {
            KeyPathPart::Index(index) => if *index < self.len() {
                let ghost before = *self;
                assert forall|after: List, item: LSD|
                    after@ == before@.update(*index as int, item) implies #[trigger] LSD::List(
                    after,
                )@ == with_child(
                    LSD::List(before)@,
                    Segment::Index(*index as nat),
                    #[trigger] item@,
                ) by {
                    lemma_list_with_item(before, after, *index as int, item);
                }
                descend_mut(&mut self[*index], rest)
            } else {
                None
            },
            KeyPathPart::Key(_) => None,
        }
    }
}

} // verus!
