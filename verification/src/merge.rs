//! The merge of key paths into a level.

use vstd::prelude::*;
use crate::error::{Failure, ParseError};
use crate::tree::{
    lemma_position, lemma_position_pushed, lemma_position_updated, position, well_formed, Level,
    Tree, Value, LSD,
};

verus! {

/// The entries of a level as a mathematical value.
pub type Entries = Seq<(Seq<char>, Tree)>;

/// The level that a key path and the node behind it stand for: one entry
/// under the first part, which holds the level for the rest of the path,
/// down to the node under the last part. A path without parts stands for
/// the level without entries.
pub open spec fn nested(path: Seq<Seq<char>>, node: Tree) -> Entries
    decreases path.len(),
{
    if path.len() == 0 {
        Seq::empty()
    } else if path.len() == 1 {
        seq![(path[0], node)]
    } else {
        seq![(path[0], Tree::Level(nested(path.skip(1), node)))]
    }
}

/// The merge of one entry into `into`. A value or a list needs a key that
/// `into` lacks. A level is merged into the level that `into` holds under
/// the key, or becomes a new entry if `into` lacks the key.
pub open spec fn merged_entry(into: Entries, key: Seq<char>, node: Tree) -> Result<Entries, Failure>
    decreases node,
{
    match node {
        Tree::Level(entries) => match position(into, key) {
            None => match merged(Seq::empty(), entries) {
                Ok(level) => Ok(into.push((key, Tree::Level(level)))),
                Err(failure) => Err(failure),
            },
            Some(i) => match into[i].1 {
                Tree::Level(held) => match merged(held, entries) {
                    Ok(level) => Ok(into.update(i, (key, Tree::Level(level)))),
                    Err(failure) => Err(failure),
                },
                _ => Err(Failure::KeyCollisionShouldBeLevelButIsNot),
            },
        },
        _ => match position(into, key) {
            None => Ok(into.push((key, node))),
            Some(_) => Err(Failure::KeyCollisionKeyAlreadyExists(key)),
        },
    }
}

/// The merge of the entries of `from` into `into`, one after the other.
/// The first entry that cannot be merged fails the whole.
pub open spec fn merged(into: Entries, from: Entries) -> Result<Entries, Failure>
    decreases from,
{
    if from.len() == 0 {
        Ok(into)
    } else {
        match merged(into, from.drop_last()) {
            Ok(level) => merged_entry(level, from.last().0, from.last().1),
            Err(failure) => Err(failure),
        }
    }
}

/// A merge that fails on the first entries of `from` fails on all of them
/// in the same way.
pub proof fn lemma_merged_fails_early(into: Entries, from: Entries, count: int)
    requires
        0 <= count <= from.len(),
        merged(into, from.take(count)) is Err,
    ensures
        merged(into, from) == merged(into, from.take(count)),
    decreases from.len() - count,
{
    if count < from.len() {
        assert(from.take(count + 1).drop_last() =~= from.take(count));
        lemma_merged_fails_early(into, from, count + 1);
    } else {
        assert(from.take(count) =~= from);
    }
}

/// Merges `level` into `insert_into`, entry by entry and in the order of
/// `level`. A value or a list needs a key that `insert_into` lacks; a level
/// is merged into the level that `insert_into` holds under its key. The
/// first entry that cannot be merged ends the merge with its error.
#[verifier::loop_isolation(false)]
pub fn merge_level(insert_into: &mut Level, level: Level) -> (result: Result<(), ParseError>)
    ensures
        match merged(old(insert_into)@, level@) {
            Ok(entries) => result is Ok && final(insert_into)@ == entries,
            Err(failure) => result matches Err(error) && error@ == failure,
        },
    decreases level@,
{
    let ghost from = level@;
    let ghost start = insert_into@;
    let entries = level.into_entries();
    assert(from.take(0) =~= Seq::<(Seq<char>, Tree)>::empty());
    for entry in iter: entries
        invariant
            iter.seq() == entries@,
            merged(start, from.take(iter.index() as int)) == Ok::<Entries, Failure>(insert_into@),
    {
        let ghost i = iter.index() as int;
        let ghost held = insert_into@;
        proof {
            assert(entry == entries@[i]);
            assert(from.take(i + 1).drop_last() =~= from.take(i));
            assert(from.take(i + 1).last() == from[i]);
            assert(merged(start, from.take(i + 1)) == merged_entry(held, from[i].0, from[i].1));
            if merged(start, from.take(i + 1)) is Err {
                lemma_merged_fails_early(start, from, i + 1);
            }
            assert(decreases_to!(from => from[i]));
            assert(decreases_to!(from[i] => from[i].1));
        }
        let (key, value) = entry;
        match value {
            LSD::Level(incoming) => {
                assert(from[i].1 is Level);
                assert(decreases_to!(from[i].1 => from[i].1->Level_0));
                assert(incoming@ == from[i].1->Level_0);
                match insert_into.entry_or_default(key) {
                    LSD::Level(sub) => {
                        merge_level(sub, incoming)?;
                    },
                    _ => {
                        return Err(ParseError::KeyCollisionShouldBeLevelButIsNot);
                    },
                }
            },
            other => {
                let name = key.clone();
                if insert_into.insert(key, other).is_some() {
                    return Err(ParseError::KeyCollisionKeyAlreadyExists(name));
                }
            },
        }
    }
    assert(from.take(from.len() as int) =~= from);
    Ok(())
}

/// Wraps `node` in one level for each part of the key path `key`, the
/// first part outermost. A key path without parts gives the level without
/// entries.
#[verifier::loop_isolation(false)]
pub fn wrap_in_path(key: Vec<Value>, node: LSD) -> (level: Level)
    ensures
        level@ == nested(key.deep_view(), node@),
{
    let ghost path = key.deep_view();
    let mut parts = key;
    let mut level = Level::new();
    match parts.pop() {
        Some(last) => {
            assert(last@ == path.last());
            level.insert(last, node);
        },
        None => {
            return level;
        },
    }
    proof {
        assert(path.skip(path.len() - 1) =~= seq![path.last()]);
        assert(level@ =~= seq![(path.last(), node@)]);
        assert(parts.deep_view() =~= path.take(parts.len() as int));
    }
    loop
        invariant
            parts.len() < path.len(),
            parts.deep_view() == path.take(parts.len() as int),
            level@ == nested(path.skip(parts.len() as int), node@),
        decreases parts.len(),
    {
        let ghost inner = level@;
        let ghost shorter = path.skip(parts.len() as int);
        let ghost before = parts.deep_view();
        match parts.pop() {
            Some(part) => {
                assert(part@ == before.last());
                let mut outer = Level::new();
                outer.insert(part, LSD::Level(level));
                level = outer;
                proof {
                    let longer = path.skip(parts.len() as int);
                    assert(longer.skip(1) =~= shorter);
                    assert(parts.deep_view() =~= path.take(parts.len() as int));
                    assert(level@ =~= seq![(longer[0], Tree::Level(inner))]);
                }
            },
            None => {
                assert(path.skip(0) =~= path);
                return level;
            },
        }
    }
}

/// The level of a key path of one part is the one entry.
pub proof fn lemma_merged_single(into: Entries, key: Seq<char>, node: Tree)
    ensures
        merged(into, nested(seq![key], node)) == merged_entry(into, key, node),
{
    let from = nested(seq![key], node);
    assert(from =~= seq![(key, node)]);
    assert(from.drop_last() =~= Seq::<(Seq<char>, Tree)>::empty());
    assert(merged(into, from.drop_last()) == Ok::<Entries, Failure>(into));
}

/// The level of a longer key path is one entry that holds the level of the
/// rest of the path.
pub proof fn lemma_merged_longer(into: Entries, path: Seq<Seq<char>>, node: Tree)
    requires
        path.len() >= 2,
    ensures
        merged(into, nested(path, node)) == merged_entry(
            into,
            path[0],
            Tree::Level(nested(path.skip(1), node)),
        ),
{
    let from = nested(path, node);
    assert(from.drop_last() =~= Seq::<(Seq<char>, Tree)>::empty());
    assert(merged(into, from.drop_last()) == Ok::<Entries, Failure>(into));
}

/// A value or a list cannot be given for a key that the level holds
/// already: the merge fails and names the key.
pub proof fn lemma_taken_key_is_refused(into: Entries, key: Seq<char>, node: Tree)
    requires
        position(into, key) is Some,
        !(node is Level),
    ensures
        merged(into, nested(seq![key], node)) == Err::<Entries, Failure>(
            Failure::KeyCollisionKeyAlreadyExists(key),
        ),
{
    lemma_merged_single(into, key, node);
}

/// A key path of several parts cannot lead through a key under which the
/// level holds a value or a list: the merge fails.
pub proof fn lemma_path_through_no_level_is_refused(
    into: Entries,
    path: Seq<Seq<char>>,
    node: Tree,
)
    requires
        path.len() >= 2,
        position(into, path[0]) matches Some(i) && !(into[i].1 is Level),
    ensures
        merged(into, nested(path, node)) == Err::<Entries, Failure>(
            Failure::KeyCollisionShouldBeLevelButIsNot,
        ),
{
    lemma_merged_longer(into, path, node);
}

/// The keys of a path as segments.
pub open spec fn key_segments(path: Seq<Seq<char>>) -> Seq<crate::path::Segment> {
    Seq::new(path.len(), |i: int| crate::path::Segment::Key(path[i]))
}

/// A value or a list that was merged under a key path is found under that
/// path.
pub proof fn lemma_merged_is_found(into: Entries, path: Seq<Seq<char>>, node: Tree)
    requires
        path.len() > 0,
        !(node is Level),
        merged(into, nested(path, node)) is Ok,
    ensures
        crate::path::lookup(
            Tree::Level(merged(into, nested(path, node))->Ok_0),
            key_segments(path),
        ) == Some(node),
    decreases path.len(),
{
    let segs = key_segments(path);
    let result = merged(into, nested(path, node))->Ok_0;
    lemma_position(into, path[0]);
    if path.len() == 1 {
        assert(path =~= seq![path[0]]);
        lemma_merged_single(into, path[0], node);
        lemma_position_pushed(into, path[0], node, path[0]);
        assert(segs.skip(1) =~= Seq::<crate::path::Segment>::empty());
        assert(crate::path::step(Tree::Level(result), segs[0]) == Some(node));
        assert(crate::path::lookup(node, segs.skip(1)) == Some(node));
    } else {
        lemma_merged_longer(into, path, node);
        let rest = path.skip(1);
        assert(key_segments(rest) =~= segs.skip(1));
        let held = match position(into, path[0]) {
            Some(i) => into[i].1->Level_0,
            None => Seq::<(Seq<char>, Tree)>::empty(),
        };
        let sub = merged(held, nested(rest, node))->Ok_0;
        lemma_merged_is_found(held, rest, node);
        match position(into, path[0]) {
            Some(i) => {
                lemma_position_updated(into, i, Tree::Level(sub), path[0]);
                assert(result == into.update(i, (path[0], Tree::Level(sub))));
            },
            None => {
                lemma_position_pushed(into, path[0], Tree::Level(sub), path[0]);
            },
        }
        assert(crate::path::step(Tree::Level(result), segs[0]) == Some(Tree::Level(sub)));
    }
}

/// Merging one entry into a level that holds no key twice gives a level
/// that holds no key twice, at any depth.
pub proof fn lemma_merged_entry_well_formed(into: Entries, key: Seq<char>, node: Tree)
    requires
        well_formed(Tree::Level(into)),
        well_formed(node),
        merged_entry(into, key, node) is Ok,
    ensures
        well_formed(Tree::Level(merged_entry(into, key, node)->Ok_0)),
    decreases node,
{
    let result = merged_entry(into, key, node)->Ok_0;
    lemma_position(into, key);
    match position(into, key) {
        None => {
            let added = match node {
                Tree::Level(entries) => {
                    lemma_merged_well_formed(Seq::empty(), entries);
                    Tree::Level(merged(Seq::empty(), entries)->Ok_0)
                },
                _ => node,
            };
            assert(result == into.push((key, added)));
            assert forall|i: int| 0 <= i < result.len() implies well_formed(
                (#[trigger] result[i]).1,
            ) by {
                if i < into.len() {
                    assert(result[i] == into[i]);
                }
            }
            assert forall|i: int, j: int| 0 <= i < j < result.len() implies (#[trigger] result[i]).0
                != (#[trigger] result[j]).0 by {
                assert(result[i] == into[i]);
                if j < into.len() {
                    assert(result[j] == into[j]);
                }
            }
        },
        Some(at) => {
            let held = into[at].1->Level_0;
            let entries = node->Level_0;
            assert(well_formed(into[at].1));
            lemma_merged_well_formed(held, entries);
            let sub = Tree::Level(merged(held, entries)->Ok_0);
            assert(result == into.update(at, (key, sub)));
            assert forall|i: int| 0 <= i < result.len() implies well_formed(
                (#[trigger] result[i]).1,
            ) by {
                if i != at {
                    assert(result[i] == into[i]);
                }
            }
            assert forall|i: int, j: int| 0 <= i < j < result.len() implies (#[trigger] result[i]).0
                != (#[trigger] result[j]).0 by {
                assert(result[i].0 == into[i].0);
                assert(result[j].0 == into[j].0);
            }
        },
    }
}

/// Merging levels that hold no key twice gives a level that holds no key
/// twice, at any depth.
pub proof fn lemma_merged_well_formed(into: Entries, from: Entries)
    requires
        well_formed(Tree::Level(into)),
        well_formed(Tree::Level(from)),
        merged(into, from) is Ok,
    ensures
        well_formed(Tree::Level(merged(into, from)->Ok_0)),
    decreases from,
{
    if from.len() > 0 {
        let front = from.drop_last();
        assert forall|i: int| 0 <= i < front.len() implies well_formed((#[trigger] front[i]).1) by {
            assert(front[i] == from[i]);
        }
        assert forall|i: int, j: int| 0 <= i < j < front.len() implies (#[trigger] front[i]).0
            != (#[trigger] front[j]).0 by {
            assert(front[i] == from[i]);
            assert(front[j] == from[j]);
        }
        lemma_merged_well_formed(into, front);
        lemma_merged_entry_well_formed(
            merged(into, front)->Ok_0,
            from.last().0,
            from.last().1,
        );
    }
}

/// The level of a key path holds no key twice where the node behind the
/// path does not.
pub proof fn lemma_nested_well_formed(path: Seq<Seq<char>>, node: Tree)
    requires
        path.len() > 0,
        well_formed(node),
    ensures
        well_formed(Tree::Level(nested(path, node))),
    decreases path.len(),
{
    if path.len() > 1 {
        lemma_nested_well_formed(path.skip(1), node);
    }
}

/// Merging one entry loses nothing: a value or a list that a path leads to
/// before the merge, the path leads to after it.
pub proof fn lemma_merged_entry_keeps(
    into: Entries,
    key: Seq<char>,
    node: Tree,
    path: Seq<crate::path::Segment>,
    found: Tree,
)
    requires
        crate::path::lookup(Tree::Level(into), path) == Some(found),
        !(found is Level),
        merged_entry(into, key, node) is Ok,
    ensures
        crate::path::lookup(Tree::Level(merged_entry(into, key, node)->Ok_0), path) == Some(found),
    decreases node,
{
    let result = merged_entry(into, key, node)->Ok_0;
    let first = crate::path::segment_key(path[0]);
    lemma_position(into, first);
    lemma_position(into, key);
    let i = position(into, first)->Some_0;
    match position(into, key) {
        None => {
            let added = result[into.len() as int].1;
            lemma_position_pushed(into, key, added, first);
            assert(result[i] == into[i]);
        },
        Some(at) => {
            let sub = result[at].1;
            lemma_position_updated(into, at, sub, first);
            if i == at {
                let rest = path.skip(1);
                lemma_merged_keeps(into[at].1->Level_0, node->Level_0, rest, found);
            } else {
                assert(result[i] == into[i]);
            }
        },
    }
}

/// Merging loses nothing: a value or a list that a path leads to before
/// the merge, the path leads to after it.
pub proof fn lemma_merged_keeps(
    into: Entries,
    from: Entries,
    path: Seq<crate::path::Segment>,
    found: Tree,
)
    requires
        crate::path::lookup(Tree::Level(into), path) == Some(found),
        !(found is Level),
        merged(into, from) is Ok,
    ensures
        crate::path::lookup(Tree::Level(merged(into, from)->Ok_0), path) == Some(found),
    decreases from,
{
    if from.len() > 0 {
        lemma_merged_keeps(into, from.drop_last(), path, found);
        lemma_merged_entry_keeps(
            merged(into, from.drop_last())->Ok_0,
            from.last().0,
            from.last().1,
            path,
            found,
        );
    }
}

} // verus!
