//! The structure of a document: lists, levels and the root of the file.

use vstd::prelude::*;
use crate::cursor::{
    accept, appended, lemma_appended_nothing, lemma_appended_twice, lemma_skip_nothing,
    lemma_skip_twice, peek, peeked, CharStream, Item, Scan,
};
use crate::error::{outcome, Failure, ParseError};
use crate::merge::{
    lemma_merged_well_formed, lemma_nested_well_formed, merge_level, merged, nested, wrap_in_path,
    Entries,
};
use crate::scan::{blank_space, lemma_blank_space_bounds, read_nws};
use crate::tree::{
    lemma_list_view, lemma_same_is_reflexive, lemma_well_formed_list, same, well_formed, Level,
    List, Tree, LSD,
};
use crate::value::{
    key_path, lemma_joined_bounds, lemma_key_path_bounds, list_value, read_key_path,
    read_list_value, read_value, value, Fragment,
};

verus! {

/// The step `scan` where it found something, with `wrap` around what it
/// found.
pub open spec fn found<A, B>(scan: Scan<Option<A>>, wrap: spec_fn(A) -> B) -> Scan<Option<B>> {
    Scan {
        out: match scan.out {
            Ok(Some(value)) => Ok(Some(wrap(value))),
            Ok(None) => Ok(None),
            Err(failure) => Err(failure),
        },
        used: scan.used,
    }
}

/// The step `scan` behind `n` items that opened it, as something found.
pub open spec fn opened<A>(n: nat, scan: Scan<A>) -> Scan<Option<A>> {
    Scan {
        out: match scan.out {
            Ok(value) => Ok(Some(value)),
            Err(failure) => Err(failure),
        },
        used: n + scan.used,
    }
}

/// Taking a node: a list, or else a level in braces, or else a value.
/// `stop` ends the words of the value.
pub open spec fn node(input: Seq<Item>, stop: Option<char>) -> Scan<Option<Tree>>
    decreases input.len(), 1nat,
{
    if list(input).out != Ok::<Option<Seq<Tree>>, Failure>(None) {
        found(list(input), |items: Seq<Tree>| Tree::List(items))
    } else if level(input).out != Ok::<Option<Entries>, Failure>(None) {
        found(level(input), |entries: Entries| Tree::Level(entries))
    } else {
        found(value(input, stop), |text: Seq<char>| Tree::Value(text))
    }
}

/// Taking an item of a list: a list, or else a level in braces, or else a
/// value of a list.
pub open spec fn list_item(input: Seq<Item>) -> Scan<Option<Tree>>
    decreases input.len(), 1nat,
{
    if list(input).out != Ok::<Option<Seq<Tree>>, Failure>(None) {
        found(list(input), |items: Seq<Tree>| Tree::List(items))
    } else if level(input).out != Ok::<Option<Entries>, Failure>(None) {
        found(level(input), |entries: Entries| Tree::Level(entries))
    } else {
        found(list_value(input), |text: Seq<char>| Tree::Value(text))
    }
}

/// Taking a list: `[`, space, and the items up to the closing `]`. Input
/// that does not start with `[` holds no list.
pub open spec fn list(input: Seq<Item>) -> Scan<Option<Seq<Tree>>>
    decreases input.len(), 0nat,
{
    match peeked(input).out {
        Err(failure) => Scan::fail(failure, peeked(input).used),
        Ok(Some(c)) => if c == '[' {
            let gap = blank_space(input.skip(1));
            match gap.out {
                Err(failure) => Scan::fail(failure, 1 + gap.used),
                Ok(_) => {
                    proof {
                        lemma_blank_space_bounds(input.skip(1));
                    }
                    opened(1 + gap.used, list_items(input.skip((1 + gap.used) as int)))
                },
            }
        } else {
            Scan::done(None, 0)
        },
        Ok(None) => Scan::done(None, 0),
    }
}

/// Taking an item of a list with the space behind it.
pub open spec fn spaced_item(input: Seq<Item>) -> Scan<Option<Tree>>
    decreases input.len(), 2nat,
{
    let item = list_item(input);
    match item.out {
        Ok(Some(tree)) => {
            let gap = blank_space(input.skip(item.used as int));
            match gap.out {
                Err(failure) => Scan::fail(failure, item.used + gap.used),
                Ok(_) => Scan::done(Some(tree), item.used + gap.used),
            }
        },
        _ => item,
    }
}

/// Taking the items of a list and its closing `]`. Where neither `]` nor
/// an item stands, the list is in error.
///
/// An item holds a character at least and ends within the input. That this
/// is asked here again lets the definition end; it always holds, as
/// [`lemma_list_goes_on`] shows.
pub open spec fn list_items(input: Seq<Item>) -> Scan<Seq<Tree>>
    decreases input.len(), 3nat,
{
    if peeked(input).out is Err {
        Scan::fail(peeked(input).out->Err_0, peeked(input).used)
    } else if peeked(input).out == Ok::<Option<char>, Failure>(Some(']')) {
        Scan::done(Seq::empty(), 1)
    } else {
        let next = spaced_item(input);
        match next.out {
            Err(failure) => Scan::fail(failure, next.used),
            Ok(None) => Scan::fail(Failure::ExpectedListLSDOrEnd, next.used),
            Ok(Some(tree)) => if 0 < next.used <= input.len() {
                appended(seq![tree], next.used, list_items(input.skip(next.used as int)))
            } else {
                Scan::done(seq![tree], next.used)
            },
        }
    }
}

/// Taking a level in braces: `{`, space, and the pairs up to the closing
/// `}`. Input that does not start with `{` holds no level.
pub open spec fn level(input: Seq<Item>) -> Scan<Option<Entries>>
    decreases input.len(), 0nat,
{
    match peeked(input).out {
        Err(failure) => Scan::fail(failure, peeked(input).used),
        Ok(Some(c)) => if c == '{' {
            let gap = blank_space(input.skip(1));
            match gap.out {
                Err(failure) => Scan::fail(failure, 1 + gap.used),
                Ok(_) => {
                    proof {
                        lemma_blank_space_bounds(input.skip(1));
                    }
                    opened(
                        1 + gap.used,
                        level_body(input.skip((1 + gap.used) as int), true, Seq::empty()),
                    )
                },
            }
        } else {
            Scan::done(None, 0)
        },
        Ok(None) => Scan::done(None, 0),
    }
}

/// What one pair of a level body holds, and the items it takes: a key
/// path, space, a node, space.
pub open spec fn pair(input: Seq<Item>) -> Scan<Option<(Seq<Seq<char>>, Tree)>>
    decreases input.len(), 2nat,
{
    let path = key_path(input);
    match path.out {
        Err(failure) => Scan::fail(failure, path.used),
        Ok(None) => Scan::done(None, path.used),
        Ok(Some(parts)) => {
            proof {
                lemma_key_path_bounds(input);
            }
            let before = blank_space(input.skip(path.used as int));
            match before.out {
                Err(failure) => Scan::fail(failure, path.used + before.used),
                Ok(_) => {
                    proof {
                        lemma_blank_space_bounds(input.skip(path.used as int));
                    }
                    let at = path.used + before.used;
                    let held = node(input.skip(at as int), Some('}'));
                    match held.out {
                        Err(failure) => Scan::fail(failure, at + held.used),
                        Ok(None) => Scan::fail(Failure::ExpectedLSDAfterKey, at + held.used),
                        Ok(Some(tree)) => {
                            let behind = blank_space(input.skip((at + held.used) as int));
                            match behind.out {
                                Err(failure) => Scan::fail(failure, at + held.used + behind.used),
                                Ok(_) => Scan::done(
                                    Some((parts, tree)),
                                    at + held.used + behind.used,
                                ),
                            }
                        },
                    }
                },
            }
        },
    }
}

/// Taking one more pair of a level body and merging it into `held`, which
/// gives the entries to go on with, or finding the end of the level, which
/// gives nothing. A level in braces, `closed`, ends with `}` and is in error
/// where neither `}` nor a key stands; a level without braces ends where
/// no key stands.
pub open spec fn level_step(input: Seq<Item>, closed: bool, held: Entries) -> Scan<Option<Entries>>
    decreases input.len(), 3nat,
{
    if closed && peeked(input).out is Err {
        Scan::fail(peeked(input).out->Err_0, peeked(input).used)
    } else if closed && peeked(input).out == Ok::<Option<char>, Failure>(Some('}')) {
        Scan::done(None, 1)
    } else {
        let next = pair(input);
        match next.out {
            Err(failure) => Scan::fail(failure, next.used),
            Ok(None) => if closed {
                Scan::fail(Failure::ExpectedKeyOrEnd, next.used)
            } else {
                Scan::done(None, next.used)
            },
            Ok(Some((parts, tree))) => match merged(held, nested(parts, tree)) {
                Err(failure) => Scan::fail(failure, next.used),
                Ok(entries) => Scan::done(Some(entries), next.used),
            },
        }
    }
}

/// Taking the pairs of a level and merging each into `held`, in their
/// order, up to the end of the level.
///
/// A pair holds a character at least and ends within the input. That this
/// is asked here again lets the definition end; it always holds, as
/// [`lemma_level_goes_on`] shows.
pub open spec fn level_body(input: Seq<Item>, closed: bool, held: Entries) -> Scan<Entries>
    decreases input.len(), 4nat,
{
    let step = level_step(input, closed, held);
    match step.out {
        Err(failure) => Scan::fail(failure, step.used),
        Ok(None) => Scan::done(held, step.used),
        Ok(Some(entries)) => if 0 < step.used <= input.len() {
            level_body(input.skip(step.used as int), closed, entries).after(step.used)
        } else {
            Scan::done(entries, step.used)
        },
    }
}

/// What must follow a list or a level in braces at the root of a document:
/// space and the end of the input.
pub open spec fn root_end(input: Seq<Item>) -> Result<(), Failure> {
    match blank_space(input).out {
        Err(failure) => Err(failure),
        Ok(_) => match peeked(input.skip(blank_space(input).used as int)).out {
            Err(failure) => Err(failure),
            Ok(Some(_)) => Err(Failure::UnexpectedCharAtFileEnd),
            Ok(None) => Ok(()),
        },
    }
}

/// The tree that a document describes. After space, a document that
/// starts with `{` is a level in braces and one that starts with `[` is a
/// list; nothing but space may follow either. Every other document is the
/// body of a level without braces.
pub open spec fn document(input: Seq<Item>) -> Result<Tree, Failure> {
    match blank_space(input).out {
        Err(failure) => Err(failure),
        Ok(_) => {
            let root = input.skip(blank_space(input).used as int);
            match level(root).out {
                Err(failure) => Err(failure),
                Ok(Some(entries)) => match root_end(root.skip(level(root).used as int)) {
                    Err(failure) => Err(failure),
                    Ok(_) => Ok(Tree::Level(entries)),
                },
                Ok(None) => match list(root).out {
                    Err(failure) => Err(failure),
                    Ok(Some(items)) => match root_end(root.skip(list(root).used as int)) {
                        Err(failure) => Err(failure),
                        Ok(_) => Ok(Tree::List(items)),
                    },
                    Ok(None) => match level_body(root, false, Seq::empty()).out {
                        Err(failure) => Err(failure),
                        Ok(entries) => Ok(Tree::Level(entries)),
                    },
                },
            }
        },
    }
}

/// A node never reaches past the input, and one that is there takes an
/// item at least.
pub proof fn lemma_node_bounds(input: Seq<Item>, stop: Option<char>)
    ensures
        node(input, stop).used <= input.len(),
        node(input, stop).out matches Ok(Some(_)) ==> node(input, stop).used > 0,
    decreases input.len(), 1nat,
{
    lemma_list_bounds(input);
    lemma_level_bounds(input);
    lemma_joined_bounds(input, Fragment::Value(stop));
}

/// An item of a list never reaches past the input, and one that is there
/// takes an item of the input at least.
pub proof fn lemma_list_item_bounds(input: Seq<Item>)
    ensures
        list_item(input).used <= input.len(),
        list_item(input).out matches Ok(Some(_)) ==> list_item(input).used > 0,
    decreases input.len(), 1nat,
{
    lemma_list_bounds(input);
    lemma_level_bounds(input);
    lemma_joined_bounds(input, Fragment::Item);
}

/// An item of a list with its space never reaches past the input, and one
/// that is there takes an item of the input at least.
pub proof fn lemma_spaced_item_bounds(input: Seq<Item>)
    ensures
        spaced_item(input).used <= input.len(),
        spaced_item(input).out matches Ok(Some(_)) ==> spaced_item(input).used > 0,
    decreases input.len(), 2nat,
{
    lemma_list_item_bounds(input);
    if list_item(input).out matches Ok(Some(_)) {
        lemma_blank_space_bounds(input.skip(list_item(input).used as int));
    }
}

/// A list never reaches past the input; one that is there takes an item at
/// least, and where there is none nothing is taken.
pub proof fn lemma_list_bounds(input: Seq<Item>)
    ensures
        list(input).used <= input.len(),
        list(input).out matches Ok(Some(_)) ==> list(input).used > 0,
        list(input).out == Ok::<Option<Seq<Tree>>, Failure>(None) ==> list(input).used == 0,
    decreases input.len(), 0nat,
{
    if input.len() > 0 && input[0] == Ok::<char, std::io::Error>('[') {
        lemma_blank_space_bounds(input.skip(1));
        let gap = blank_space(input.skip(1));
        if gap.out is Ok {
            lemma_list_items_bounds(input.skip((1 + gap.used) as int));
        }
    }
}

/// The items of a list never reach past the input.
pub proof fn lemma_list_items_bounds(input: Seq<Item>)
    ensures
        list_items(input).used <= input.len(),
    decreases input.len(), 3nat,
{
    if peeked(input).out is Err {
    } else if peeked(input).out == Ok::<Option<char>, Failure>(Some(']')) {
    } else {
        lemma_spaced_item_bounds(input);
        let next = spaced_item(input);
        if next.out matches Ok(Some(_)) {
            lemma_list_items_bounds(input.skip(next.used as int));
        }
    }
}

/// A level in braces never reaches past the input; one that is there takes
/// an item at least, and where there is none nothing is taken.
pub proof fn lemma_level_bounds(input: Seq<Item>)
    ensures
        level(input).used <= input.len(),
        level(input).out matches Ok(Some(_)) ==> level(input).used > 0,
        level(input).out == Ok::<Option<Entries>, Failure>(None) ==> level(input).used == 0,
    decreases input.len(), 0nat,
{
    if input.len() > 0 && input[0] == Ok::<char, std::io::Error>('{') {
        lemma_blank_space_bounds(input.skip(1));
        let gap = blank_space(input.skip(1));
        if gap.out is Ok {
            lemma_level_body_bounds(input.skip((1 + gap.used) as int), true, Seq::empty());
        }
    }
}

/// A pair never reaches past the input; one that is there takes an item at
/// least and has a key path that holds a part at least.
pub proof fn lemma_pair_bounds(input: Seq<Item>)
    ensures
        pair(input).used <= input.len(),
        pair(input).out matches Ok(Some(found)) ==> pair(input).used > 0 && found.0.len() > 0,
    decreases input.len(), 2nat,
{
    lemma_key_path_bounds(input);
    let path = key_path(input);
    if path.out matches Ok(Some(_)) {
        lemma_blank_space_bounds(input.skip(path.used as int));
        let before = blank_space(input.skip(path.used as int));
        if before.out is Ok {
            let at = path.used + before.used;
            lemma_node_bounds(input.skip(at as int), Some('}'));
            let held = node(input.skip(at as int), Some('}'));
            if held.out matches Ok(Some(_)) {
                lemma_blank_space_bounds(input.skip((at + held.used) as int));
            }
        }
    }
}

/// A step of a level body never reaches past the input, and one that
/// merges a pair takes an item at least.
pub proof fn lemma_level_step_bounds(input: Seq<Item>, closed: bool, held: Entries)
    ensures
        level_step(input, closed, held).used <= input.len(),
        level_step(input, closed, held).out matches Ok(Some(_)) ==> level_step(
            input,
            closed,
            held,
        ).used > 0,
    decreases input.len(), 3nat,
{
    lemma_pair_bounds(input);
}

/// The body of a level never reaches past the input.
pub proof fn lemma_level_body_bounds(input: Seq<Item>, closed: bool, held: Entries)
    ensures
        level_body(input, closed, held).used <= input.len(),
    decreases input.len(), 4nat,
{
    lemma_level_step_bounds(input, closed, held);
    let step = level_step(input, closed, held);
    match step.out {
        Ok(Some(entries)) => {
            lemma_level_body_bounds(input.skip(step.used as int), closed, entries);
        },
        _ => {},
    }
}

/// Behind an item of a list stand the further items of the list: what is
/// asked of the item in the definition of [`list_items`] always holds.
pub proof fn lemma_list_goes_on(input: Seq<Item>)
    requires
        peeked(input).out is Ok,
        peeked(input).out != Ok::<Option<char>, Failure>(Some(']')),
        spaced_item(input).out matches Ok(Some(_)),
    ensures
        list_items(input) == appended(
            seq![spaced_item(input).out->Ok_0->Some_0],
            spaced_item(input).used,
            list_items(input.skip(spaced_item(input).used as int)),
        ),
{
    lemma_spaced_item_bounds(input);
}

/// Behind a pair of a level stand the further pairs of the level: what is
/// asked of the pair in the definition of [`level_body`] always holds.
pub proof fn lemma_level_goes_on(input: Seq<Item>, closed: bool, held: Entries)
    requires
        level_step(input, closed, held).out matches Ok(Some(_)),
    ensures
        level_body(input, closed, held) == level_body(
            input.skip(level_step(input, closed, held).used as int),
            closed,
            level_step(input, closed, held).out->Ok_0->Some_0,
        ).after(level_step(input, closed, held).used),
{
    lemma_level_step_bounds(input, closed, held);
}

/// Reads a node from the stream: a list, a level in braces or a value.
/// `value_ignore_char` ends the words of the value.
pub fn read_lsd(stream: &mut CharStream, value_ignore_char: Option<char>) -> (result: Result<
    Option<LSD>,
    ParseError,
>)
    ensures
        outcome(result) == node(old(stream)@, value_ignore_char).out,
        final(stream)@ == old(stream)@.skip(node(old(stream)@, value_ignore_char).used as int),
    decreases old(stream)@.len(), 1nat,
{
    proof {
        lemma_list_bounds(stream@);
        lemma_level_bounds(stream@);
        lemma_skip_nothing(stream@);
    }
    if let Some(list) = read_list(stream)? {
        proof {
            lemma_list_view(list);
        }
        return Ok(Some(LSD::List(list)));
    }
    if let Some(level) = read_level(stream)? {
        return Ok(Some(LSD::Level(level)));
    }
    if let Some(value) = read_value(stream, value_ignore_char)? {
        return Ok(Some(LSD::Value(value)));
    }
    Ok(None)
}

/// Reads an item of a list from the stream: a list, a level in braces or a
/// value of a list.
pub fn read_list_lsd(stream: &mut CharStream) -> (result: Result<Option<LSD>, ParseError>)
    ensures
        outcome(result) == list_item(old(stream)@).out,
        final(stream)@ == old(stream)@.skip(list_item(old(stream)@).used as int),
    decreases old(stream)@.len(), 1nat,
{
    proof {
        lemma_list_bounds(stream@);
        lemma_level_bounds(stream@);
        lemma_skip_nothing(stream@);
    }
    if let Some(list) = read_list(stream)? {
        proof {
            lemma_list_view(list);
        }
        return Ok(Some(LSD::List(list)));
    }
    if let Some(level) = read_level(stream)? {
        return Ok(Some(LSD::Level(level)));
    }
    if let Some(value) = read_list_value(stream)? {
        return Ok(Some(LSD::Value(value)));
    }
    Ok(None)
}

fn read_spaced_item(stream: &mut CharStream) -> (result: Result<Option<LSD>, ParseError>)
    ensures
        outcome(result) == spaced_item(old(stream)@).out,
        final(stream)@ == old(stream)@.skip(spaced_item(old(stream)@).used as int),
    decreases old(stream)@.len(), 2nat,
{
    let ghost input = stream@;
    proof {
            lemma_list_item_bounds(input);
    }
    let item = match read_list_lsd(stream)? {
        Some(item) => item,
        None => {
            return Ok(None);
        },
    };
    proof {
        let used = list_item(input).used;
        lemma_blank_space_bounds(input.skip(used as int));
        lemma_skip_twice(input, used, blank_space(input.skip(used as int)).used);
    }
    read_nws(stream)?;
    Ok(Some(item))
}

/// Reads a list, `[` to `]`, from the stream.
pub fn read_list(stream: &mut CharStream) -> (result: Result<Option<List>, ParseError>)
    ensures
        outcome(result) == list(old(stream)@).out,
        final(stream)@ == old(stream)@.skip(list(old(stream)@).used as int),
    decreases old(stream)@.len(), 0nat,
{
    let ghost input = stream@;
    proof {
        lemma_skip_nothing(input);
    }
    match peek(stream)? {
        Some(c) => if c == '[' {
            accept(stream);
        } else {
            return Ok(None);
        },
        None => {
            return Ok(None);
        },
    }
    proof {
        lemma_blank_space_bounds(input.skip(1));
        lemma_skip_twice(input, 1, blank_space(input.skip(1)).used);
    }
    read_nws(stream)?;
    let ghost open: nat = 1 + blank_space(input.skip(1)).used;
    let ghost body = stream@;
    let ghost mut n: nat = 0;
    let mut results: List = Vec::new();
    proof {
        lemma_skip_nothing(body);
        lemma_appended_nothing(list_items(body));
        assert(results.deep_view() =~= Seq::<Tree>::empty());
    }
    loop
        invariant
            input == old(stream)@,
            0 < open <= input.len(),
            body == input.skip(open as int),
            list(input) == opened(open, list_items(body)),
            n <= body.len(),
            stream@ == body.skip(n as int),
            list_items(body) == appended(results.deep_view(), n, list_items(stream@)),
        decreases body.len() - n,
    {
        let ghost rest = stream@;
        let ghost before = results.deep_view();
        proof {
            lemma_skip_nothing(rest);
            lemma_list_items_bounds(rest);
            lemma_skip_twice(body, n, list_items(rest).used);
            lemma_skip_twice(input, open, n + list_items(rest).used);
            lemma_spaced_item_bounds(rest);
            lemma_skip_twice(body, n, spaced_item(rest).used);
        }
        match peek(stream)? {
            Some(c) => if c == ']' {
                accept(stream);
                assert(before + Seq::<Tree>::empty() =~= before);
                return Ok(Some(results));
            },
            None => {},
        }
        let item = match read_spaced_item(stream)? {
            Some(item) => item,
            None => {
                return Err(ParseError::ExpectedListLSDOrEnd);
            },
        };
        let ghost tree = item@;
        results.push(item);
        proof {
            let used = spaced_item(rest).used;
            lemma_appended_twice(before, n, seq![tree], used, list_items(rest.skip(used as int)));
            assert(results.deep_view() =~= before + seq![tree]);
            n = n + used;
        }
    }
}

/// Reads a level in braces, `{` to `}`, from the stream.
pub fn read_level(stream: &mut CharStream) -> (result: Result<Option<Level>, ParseError>)
    ensures
        outcome(result) == level(old(stream)@).out,
        final(stream)@ == old(stream)@.skip(level(old(stream)@).used as int),
    decreases old(stream)@.len(), 0nat,
{
    let ghost input = stream@;
    proof {
        lemma_skip_nothing(input);
    }
    match peek(stream)? {
        Some(c) => if c == '{' {
            accept(stream);
        } else {
            return Ok(None);
        },
        None => {
            return Ok(None);
        },
    }
    proof {
        lemma_blank_space_bounds(input.skip(1));
        let open = 1 + blank_space(input.skip(1)).used;
        lemma_skip_twice(input, 1, blank_space(input.skip(1)).used);
        if blank_space(input.skip(1)).out is Ok {
            lemma_level_body_bounds(input.skip(open as int), true, Seq::empty());
            lemma_skip_twice(
                input,
                open,
                level_body(input.skip(open as int), true, Seq::empty()).used,
            );
        }
    }
    read_nws(stream)?;
    Ok(Some(read_level_inner(stream, true)?))
}

/// Whether `result` is what a pair is read as.
pub open spec fn pair_read(
    result: Result<Option<(Vec<String>, LSD)>, ParseError>,
    expected: Result<Option<(Seq<Seq<char>>, Tree)>, Failure>,
) -> bool {
    match expected {
        Ok(Some((parts, tree))) => result matches Ok(Some((key, lsd))) && key.deep_view() == parts
            && lsd@ == tree,
        Ok(None) => result matches Ok(None),
        Err(failure) => result matches Err(error) && error@ == failure,
    }
}

fn read_pair(stream: &mut CharStream) -> (result: Result<Option<(Vec<String>, LSD)>, ParseError>)
    ensures
        pair_read(result, pair(old(stream)@).out),
        final(stream)@ == old(stream)@.skip(pair(old(stream)@).used as int),
    decreases old(stream)@.len(), 2nat,
{
    let ghost input = stream@;
    proof {
            lemma_key_path_bounds(input);
    }
    let key = match read_key_path(stream)? {
        Some(key) => key,
        None => {
            return Ok(None);
        },
    };
    let ghost path = key_path(input);
    proof {
        lemma_blank_space_bounds(input.skip(path.used as int));
        lemma_skip_twice(input, path.used, blank_space(input.skip(path.used as int)).used);
    }
    read_nws(stream)?;
    let ghost at = path.used + blank_space(input.skip(path.used as int)).used;
    proof {
        lemma_node_bounds(input.skip(at as int), Some('}'));
        lemma_skip_twice(input, at, node(input.skip(at as int), Some('}')).used);
    }
    let lsd = match read_lsd(stream, Some('}'))? {
        Some(lsd) => lsd,
        None => {
            return Err(ParseError::ExpectedLSDAfterKey);
        },
    };
    let ghost end = at + node(input.skip(at as int), Some('}')).used;
    proof {
        lemma_blank_space_bounds(input.skip(end as int));
        lemma_skip_twice(input, end, blank_space(input.skip(end as int)).used);
    }
    read_nws(stream)?;
    Ok(Some((key, lsd)))
}

/// Whether `result` and the level `after` are what a step of a level body
/// gives on the level `before`.
pub open spec fn step_read(
    result: Result<bool, ParseError>,
    before: Entries,
    after: Entries,
    expected: Result<Option<Entries>, Failure>,
) -> bool {
    match expected {
        Ok(Some(entries)) => result matches Ok(true) && after == entries,
        Ok(None) => result matches Ok(false) && after == before,
        Err(failure) => result matches Err(error) && error@ == failure,
    }
}

fn read_level_step(stream: &mut CharStream, closed: bool, results: &mut Level) -> (result: Result<
    bool,
    ParseError,
>)
    ensures
        step_read(
            result,
            old(results)@,
            final(results)@,
            level_step(old(stream)@, closed, old(results)@).out,
        ),
        final(stream)@ == old(stream)@.skip(
            level_step(old(stream)@, closed, old(results)@).used as int,
        ),
    decreases old(stream)@.len(), 3nat,
{
    proof {
        lemma_skip_nothing(stream@);
        lemma_pair_bounds(stream@);
    }
    if closed {
        match peek(stream)? {
            Some(c) => if c == '}' {
                accept(stream);
                return Ok(false);
            },
            None => {},
        }
    }
    let (key, lsd) = match read_pair(stream)? {
        Some(pair) => pair,
        None => {
            if closed {
                return Err(ParseError::ExpectedKeyOrEnd);
            } else {
                return Ok(false);
            }
        },
    };
    let result = wrap_in_path(key, lsd);
    merge_level(results, result)?;
    Ok(true)
}

/// Reads the pairs of a level from the stream and merges each into the
/// level that is returned. A level in braces, `level_ends_with_close`, ends
/// with `}`; one without ends where no key stands.
pub fn read_level_inner(stream: &mut CharStream, level_ends_with_close: bool) -> (result: Result<
    Level,
    ParseError,
>)
    ensures
        outcome(result) == level_body(old(stream)@, level_ends_with_close, Seq::empty()).out,
        final(stream)@ == old(stream)@.skip(
            level_body(old(stream)@, level_ends_with_close, Seq::empty()).used as int,
        ),
    decreases old(stream)@.len(), 4nat,
{
    let ghost input = stream@;
    let ghost mut n: nat = 0;
    let mut results = Level::default();
    proof {
        lemma_skip_nothing(input);
    }
    loop
        invariant
            input == old(stream)@,
            n <= input.len(),
            stream@ == input.skip(n as int),
            level_body(input, level_ends_with_close, Seq::empty()) == level_body(
                stream@,
                level_ends_with_close,
                results@,
            ).after(n),
        decreases input.len() - n,
    {
        let ghost rest = stream@;
        let ghost held = results@;
        proof {
            lemma_level_step_bounds(rest, level_ends_with_close, held);
            lemma_skip_twice(input, n, level_step(rest, level_ends_with_close, held).used);
        }
        if !read_level_step(stream, level_ends_with_close, &mut results)? {
            return Ok(results);
        }
        proof {
            n = n + level_step(rest, level_ends_with_close, held).used;
        }
    }
}

fn end_of_root(stream: &mut CharStream) -> (result: Result<(), ParseError>)
    ensures
        outcome(result) == root_end(old(stream)@),
{
    read_nws(stream)?;
    match peek(stream)? {
        Some(_) => Err(ParseError::UnexpectedCharAtFileEnd),
        None => Ok(()),
    }
}

impl LSD {
    /// Parses a document from the stream.
    pub fn parse(stream: CharStream) -> (result: Result<LSD, ParseError>)
        ensures
            outcome(result) == document(stream@),
    {
        let mut stream = stream;
        read_nws(&mut stream)?;
        let ghost root = stream@;
        proof {
            lemma_level_bounds(root);
            lemma_list_bounds(root);
            lemma_skip_nothing(root);
        }
        if let Some(level) = read_level(&mut stream)? {
            end_of_root(&mut stream)?;
            return Ok(LSD::Level(level));
        }
        if let Some(list) = read_list(&mut stream)? {
            proof {
                lemma_list_view(list);
            }
            end_of_root(&mut stream)?;
            return Ok(LSD::List(list));
        }
        Ok(LSD::Level(read_level_inner(&mut stream, false)?))
    }
}

/// Parsing is a function of the document alone: whatever two runs of
/// `LSD::parse` on the same items return, they agree on the outcome, and
/// where one gives a tree the other gives an equal tree.
pub proof fn lemma_parse_is_deterministic(
    input: Seq<Item>,
    first: Result<LSD, ParseError>,
    second: Result<LSD, ParseError>,
)
    requires
        outcome(first) == document(input),
        outcome(second) == document(input),
    ensures
        outcome(first) == outcome(second),
        first matches Ok(tree) ==> second matches Ok(other) && tree@ == other@ && same(
            tree@,
            other@,
        ),
{
    lemma_document_is_well_formed(input);
    if first is Ok {
        lemma_same_is_reflexive(first->Ok_0@);
    }
}

/// A document that holds nothing but blank space, line terminators and
/// comments, or nothing at all, is the empty level.
pub proof fn lemma_blank_document_is_empty_level(input: Seq<Item>)
    requires
        blank_space(input).out is Ok,
        blank_space(input).used == input.len(),
    ensures
        document(input) == Ok::<Tree, Failure>(Tree::Level(Seq::empty())),
{
    let root = input.skip(input.len() as int);
    assert(root.len() == 0);
    lemma_key_path_bounds(root);
    assert(level(root).out == Ok::<Option<Entries>, Failure>(None));
    assert(list(root).out == Ok::<Option<Seq<Tree>>, Failure>(None));
    assert(pair(root) == Scan::<Option<(Seq<Seq<char>>, Tree)>>::done(None, 0));
    assert(level_step(root, false, Seq::empty()).out == Ok::<Option<Entries>, Failure>(None));
    assert(level_body(root, false, Seq::empty()).out == Ok::<Entries, Failure>(Seq::empty()));
}

/// The tree of a document is a list or a level, never a value.
pub proof fn lemma_root_is_no_value(input: Seq<Item>)
    ensures
        document(input) matches Ok(tree) ==> tree is List || tree is Level,
{
}

/// Behind a list or a level in braces at the root of a document, and the
/// space that follows it, any further character is an error.
pub proof fn lemma_root_must_end(input: Seq<Item>, extra: char)
    requires
        blank_space(input).out is Ok,
        ({
            let root = input.skip(blank_space(input).used as int);
            let taken = if level(root).out matches Ok(Some(_)) {
                level(root).used
            } else {
                list(root).used
            };
            let rest = root.skip(taken as int);
            &&& (level(root).out matches Ok(Some(_))) || (list(root).out matches Ok(Some(_)))
            &&& blank_space(rest).out is Ok
            &&& peeked(rest.skip(blank_space(rest).used as int)).out == Ok::<Option<char>, Failure>(
                Some(extra),
            )
        }),
    ensures
        document(input) == Err::<Tree, Failure>(Failure::UnexpectedCharAtFileEnd),
{
    let root = input.skip(blank_space(input).used as int);
    if list(root).out matches Ok(Some(_)) {
        assert(root.len() > 0 && root[0] == Ok::<char, std::io::Error>('['));
        assert(level(root).out == Ok::<Option<Entries>, Failure>(None));
    }
}

/// No level of a node holds a key twice.
pub proof fn lemma_node_well_formed(input: Seq<Item>, stop: Option<char>)
    ensures
        node(input, stop).out matches Ok(Some(tree)) ==> well_formed(tree),
    decreases input.len(), 1nat,
{
    lemma_list_well_formed(input);
    lemma_level_well_formed(input);
}

/// No level of an item of a list holds a key twice.
pub proof fn lemma_list_item_well_formed(input: Seq<Item>)
    ensures
        list_item(input).out matches Ok(Some(tree)) ==> well_formed(tree),
    decreases input.len(), 1nat,
{
    lemma_list_well_formed(input);
    lemma_level_well_formed(input);
}

/// No level of a list holds a key twice.
pub proof fn lemma_list_well_formed(input: Seq<Item>)
    ensures
        list(input).out matches Ok(Some(items)) ==> well_formed(Tree::List(items)),
    decreases input.len(), 0nat,
{
    if input.len() > 0 && input[0] == Ok::<char, std::io::Error>('[') {
        lemma_blank_space_bounds(input.skip(1));
        let gap = blank_space(input.skip(1));
        if gap.out is Ok {
            lemma_list_items_well_formed(input.skip((1 + gap.used) as int));
        }
    }
}

/// No level among the items of a list holds a key twice.
pub proof fn lemma_list_items_well_formed(input: Seq<Item>)
    ensures
        list_items(input).out matches Ok(items) ==> well_formed(Tree::List(items)),
    decreases input.len(), 3nat,
{
    if peeked(input).out is Err {
    } else if peeked(input).out == Ok::<Option<char>, Failure>(Some(']')) {
    } else {
            lemma_spaced_item_bounds(input);
        lemma_list_item_well_formed(input);
        let next = spaced_item(input);
        if next.out matches Ok(Some(_)) {
            let later = list_items(input.skip(next.used as int));
            lemma_list_items_well_formed(input.skip(next.used as int));
            if later.out is Ok {
                let first = next.out->Ok_0->Some_0;
                let items = seq![first] + later.out->Ok_0;
                let others = later.out->Ok_0;
                assert(list_item(input).out == Ok::<Option<Tree>, Failure>(Some(first)));
                lemma_well_formed_list(others);
                lemma_well_formed_list(items);
                assert forall|i: int| 0 <= i < items.len() implies well_formed(
                    #[trigger] items[i],
                ) by {
                    if i > 0 {
                        assert(items[i] == others[i - 1]);
                    }
                }
            }
        }
    }
}

/// No level in braces holds a key twice, at any depth.
pub proof fn lemma_level_well_formed(input: Seq<Item>)
    ensures
        level(input).out matches Ok(Some(entries)) ==> well_formed(Tree::Level(entries)),
    decreases input.len(), 0nat,
{
    if input.len() > 0 && input[0] == Ok::<char, std::io::Error>('{') {
        lemma_blank_space_bounds(input.skip(1));
        let gap = blank_space(input.skip(1));
        if gap.out is Ok {
            lemma_level_body_well_formed(input.skip((1 + gap.used) as int), true, Seq::empty());
        }
    }
}

/// No level of the node of a pair holds a key twice.
pub proof fn lemma_pair_well_formed(input: Seq<Item>)
    ensures
        pair(input).out matches Ok(Some(found)) ==> well_formed(found.1),
    decreases input.len(), 2nat,
{
    lemma_key_path_bounds(input);
    let path = key_path(input);
    if path.out matches Ok(Some(_)) {
        lemma_blank_space_bounds(input.skip(path.used as int));
        let before = blank_space(input.skip(path.used as int));
        if before.out is Ok {
            lemma_node_well_formed(input.skip((path.used + before.used) as int), Some('}'));
        }
    }
}

/// The body of a level that is merged into a level which holds no key
/// twice gives a level that holds no key twice, at any depth.
pub proof fn lemma_level_body_well_formed(input: Seq<Item>, closed: bool, held: Entries)
    requires
        well_formed(Tree::Level(held)),
    ensures
        level_body(input, closed, held).out matches Ok(entries) ==> well_formed(
            Tree::Level(entries),
        ),
    decreases input.len(), 4nat,
{
    let step = level_step(input, closed, held);
    if step.out matches Ok(Some(_)) {
        lemma_level_step_bounds(input, closed, held);
        lemma_pair_bounds(input);
        lemma_pair_well_formed(input);
        let found = pair(input).out->Ok_0->Some_0;
        lemma_nested_well_formed(found.0, found.1);
        lemma_merged_well_formed(held, nested(found.0, found.1));
        lemma_level_body_well_formed(input.skip(step.used as int), closed, step.out->Ok_0->Some_0);
    }
}

/// In the tree of a document no level holds a key twice, at any depth.
pub proof fn lemma_document_is_well_formed(input: Seq<Item>)
    ensures
        document(input) matches Ok(tree) ==> well_formed(tree),
{
    if blank_space(input).out is Ok {
        let root = input.skip(blank_space(input).used as int);
        lemma_level_well_formed(root);
        lemma_list_well_formed(root);
        lemma_level_body_well_formed(root, false, Seq::empty());
    }
}

} // verus!
