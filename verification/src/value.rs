//! Values and keys: fragments on one line that join into one text, and
//! key parts that join into a key path.

use vstd::prelude::*;
use vstd::string::StringExecFns;
use crate::cursor::{
    accept, appended, lemma_appended_nothing, lemma_appended_twice, lemma_skip_nothing,
    lemma_skip_twice, peek, peeked, CharStream, Item, Scan,
};
use crate::error::{outcome, Failure, ParseError};
use crate::scan::{
    as_word, blanks, key_word, lemma_word_bounds, list_word, read_iws, read_key_word,
    read_list_word, read_word, word, CharClass,
};
use crate::string::{lemma_string_bounds, read_string, string};

verus! {

/// Taking a fragment of a value: a word, or else a string.
pub open spec fn value_part(input: Seq<Item>, stop: Option<char>) -> Scan<Option<Seq<char>>> {
    if word(input, stop).out == Ok::<Option<Seq<char>>, Failure>(None) {
        string(input)
    } else {
        word(input, stop)
    }
}

/// The two places where words and strings stand glued to each other: in
/// a key, where a `.` ends a word, and in a list, where it does not.
#[derive(Clone, Copy, Debug, PartialEq, Eq)]
pub enum Glued {
    /// In a part of a key path.
    Key,
    /// In a value of a list.
    List,
}

/// Taking a piece of a glued text: a word, or else a string.
pub open spec fn piece(input: Seq<Item>, place: Glued) -> Scan<Option<Seq<char>>> {
    let word = match place {
        Glued::Key => key_word(input),
        Glued::List => list_word(input),
    };
    if word.out == Ok::<Option<Seq<char>>, Failure>(None) {
        string(input)
    } else {
        word
    }
}

/// Taking the pieces of a glued text, which stand with nothing between
/// them, as one text.
pub open spec fn pieces(input: Seq<Item>, place: Glued) -> Scan<Seq<char>>
    decreases input.len(),
{
    let next = piece(input, place);
    match next.out {
        Err(failure) => Scan::fail(failure, next.used),
        Ok(None) => Scan::done(Seq::empty(), next.used),
        Ok(Some(text)) => {
            proof {
                lemma_piece_bounds(input, place);
            }
            appended(text, next.used, pieces(input.skip(next.used as int), place))
        },
    }
}

/// Taking a glued text: its pieces, which must hold a character at least.
pub open spec fn glued(input: Seq<Item>, place: Glued) -> Scan<Option<Seq<char>>> {
    as_word(pieces(input, place))
}

/// Taking a part of a key path: words of a key and strings, glued.
pub open spec fn key_part(input: Seq<Item>) -> Scan<Option<Seq<char>>> {
    glued(input, Glued::Key)
}

/// Taking a fragment of a value in a list: words of a list and strings,
/// glued.
pub open spec fn list_part(input: Seq<Item>) -> Scan<Option<Seq<char>>> {
    glued(input, Glued::List)
}

/// The two kinds of fragments that join into a value.
#[derive(Clone, Copy, Debug, PartialEq, Eq)]
pub enum Fragment {
    /// A fragment of the value of a key, where one character may be set to
    /// end words.
    Value(Option<char>),
    /// A fragment of a value in a list.
    Item,
}

/// Taking one fragment of the given kind.
pub open spec fn fragment(input: Seq<Item>, kind: Fragment) -> Scan<Option<Seq<char>>> {
    match kind {
        Fragment::Value(stop) => value_part(input, stop),
        Fragment::Item => list_part(input),
    }
}

/// Taking one more fragment with the blanks before it, as one text. Where
/// no fragment follows the blanks, they are taken and nothing is found.
pub open spec fn spaced_fragment(input: Seq<Item>, kind: Fragment) -> Scan<Option<Seq<char>>> {
    let gap = blanks(input);
    match gap.out {
        Err(failure) => Scan::fail(failure, gap.used),
        Ok(blank) => {
            let part = fragment(input.skip(gap.used as int), kind);
            Scan {
                out: match part.out {
                    Ok(Some(text)) => Ok(Some(blank + text)),
                    Ok(None) => Ok(None),
                    Err(failure) => Err(failure),
                },
                used: gap.used + part.used,
            }
        },
    }
}

/// Taking the fragments that follow the first one on its line, each with
/// the blanks before it, as one text.
pub open spec fn more_fragments(input: Seq<Item>, kind: Fragment) -> Scan<Seq<char>>
    decreases input.len(),
{
    let next = spaced_fragment(input, kind);
    match next.out {
        Err(failure) => Scan::fail(failure, next.used),
        Ok(None) => Scan::done(Seq::empty(), next.used),
        Ok(Some(text)) => {
            proof {
                lemma_spaced_fragment_bounds(input, kind);
            }
            appended(text, next.used, more_fragments(input.skip(next.used as int), kind))
        },
    }
}

/// Taking a value: a first fragment and those that follow it on its line.
#[verifier::opaque]
pub open spec fn joined(input: Seq<Item>, kind: Fragment) -> Scan<Option<Seq<char>>> {
    let first = fragment(input, kind);
    match first.out {
        Ok(Some(text)) => {
            let more = more_fragments(input.skip(first.used as int), kind);
            Scan {
                out: match more.out {
                    Ok(rest) => Ok(Some(text + rest)),
                    Err(failure) => Err(failure),
                },
                used: first.used + more.used,
            }
        },
        _ => first,
    }
}

/// Taking the value of a key. `stop` ends its words.
pub open spec fn value(input: Seq<Item>, stop: Option<char>) -> Scan<Option<Seq<char>>> {
    joined(input, Fragment::Value(stop))
}

/// Taking a value in a list.
pub open spec fn list_value(input: Seq<Item>) -> Scan<Option<Seq<char>>> {
    joined(input, Fragment::Item)
}

/// Taking one more part of a key path: a `.` and the key part behind it,
/// or nothing where no `.` stands. A `.` that no key part follows is an
/// error.
pub open spec fn dotted_part(input: Seq<Item>) -> Scan<Option<Seq<char>>> {
    match peeked(input).out {
        Err(failure) => Scan::fail(failure, peeked(input).used),
        Ok(None) => Scan::done(None, 0),
        Ok(Some(c)) => if c == '.' {
            let part = key_part(input.skip(1));
            match part.out {
                Err(failure) => Scan::fail(failure, 1 + part.used),
                Ok(None) => Scan::fail(Failure::ExpectedKeyPartAfterKeySeparator, 1 + part.used),
                Ok(Some(text)) => Scan::done(Some(text), 1 + part.used),
            }
        } else {
            Scan::done(None, 0)
        },
    }
}

/// Taking the parts of a key path behind the first.
pub open spec fn more_key_parts(input: Seq<Item>) -> Scan<Seq<Seq<char>>>
    decreases input.len(),
{
    let next = dotted_part(input);
    match next.out {
        Err(failure) => Scan::fail(failure, next.used),
        Ok(None) => Scan::done(Seq::empty(), next.used),
        Ok(Some(text)) => {
            proof {
                lemma_dotted_part_bounds(input);
            }
            appended(seq![text], next.used, more_key_parts(input.skip(next.used as int)))
        },
    }
}

/// Taking a key path: key parts with a `.` between them.
#[verifier::opaque]
pub open spec fn key_path(input: Seq<Item>) -> Scan<Option<Seq<Seq<char>>>> {
    let first = key_part(input);
    match first.out {
        Err(failure) => Scan::fail(failure, first.used),
        Ok(None) => Scan::done(None, first.used),
        Ok(Some(text)) => {
            let more = more_key_parts(input.skip(first.used as int));
            Scan {
                out: match more.out {
                    Ok(parts) => Ok(Some(seq![text] + parts)),
                    Err(failure) => Err(failure),
                },
                used: first.used + more.used,
            }
        },
    }
}

/// A piece never reaches past the input; one that is there takes an item
/// at least, and where there is none nothing is taken.
pub proof fn lemma_piece_bounds(input: Seq<Item>, place: Glued)
    ensures
        piece(input, place).used <= input.len(),
        piece(input, place).out matches Ok(Some(_)) ==> piece(input, place).used > 0,
        piece(input, place).out == Ok::<Option<Seq<char>>, Failure>(None) ==> piece(
            input,
            place,
        ).used == 0,
{
    lemma_word_bounds(input, CharClass::KeyWord);
    lemma_word_bounds(input, CharClass::ListWord);
    lemma_string_bounds(input);
}

/// Glued pieces never reach past the input, and pieces that hold a
/// character take an item at least.
pub proof fn lemma_pieces_bounds(input: Seq<Item>, place: Glued)
    ensures
        pieces(input, place).used <= input.len(),
        pieces(input, place).out matches Ok(text) ==> text.len() > 0 ==> pieces(input, place).used
            > 0,
        input.len() == 0 ==> pieces(input, place) == Scan::<Seq<char>>::done(Seq::empty(), 0),
    decreases input.len(),
{
    lemma_piece_bounds(input, place);
    let next = piece(input, place);
    if next.out matches Ok(Some(_)) {
        lemma_pieces_bounds(input.skip(next.used as int), place);
    }
    if input.len() == 0 {
        lemma_string_bounds(input);
        assert(key_word(input).out == Ok::<Option<Seq<char>>, Failure>(None));
        assert(list_word(input).out == Ok::<Option<Seq<char>>, Failure>(None));
        assert(next == Scan::<Option<Seq<char>>>::done(None, 0));
    }
}

/// The pieces of a key part never reach past the input, and pieces that
/// hold a character take an item at least.
pub proof fn lemma_key_pieces_bounds(input: Seq<Item>)
    ensures
        key_part(input).used <= input.len(),
        key_part(input).out matches Ok(Some(_)) ==> key_part(input).used > 0,
{
    lemma_pieces_bounds(input, Glued::Key);
}

/// A fragment never reaches past the input, and one that is there takes an
/// item at least.
pub proof fn lemma_fragment_bounds(input: Seq<Item>, kind: Fragment)
    ensures
        fragment(input, kind).used <= input.len(),
        fragment(input, kind).out matches Ok(Some(_)) ==> fragment(input, kind).used > 0,
{
    match kind {
        Fragment::Value(stop) => {
            lemma_word_bounds(input, CharClass::Word(stop));
            lemma_string_bounds(input);
        },
        Fragment::Item => {
            lemma_pieces_bounds(input, Glued::List);
        },
    }
}

/// A fragment with its blanks never reaches past the input, and one that
/// is there takes an item at least.
pub proof fn lemma_spaced_fragment_bounds(input: Seq<Item>, kind: Fragment)
    ensures
        spaced_fragment(input, kind).used <= input.len(),
        spaced_fragment(input, kind).out matches Ok(Some(_)) ==> spaced_fragment(input, kind).used
            > 0,
{
    lemma_word_bounds(input, CharClass::Blank);
    lemma_fragment_bounds(input.skip(blanks(input).used as int), kind);
}

/// Further fragments never reach past the input.
pub proof fn lemma_more_fragments_bounds(input: Seq<Item>, kind: Fragment)
    ensures
        more_fragments(input, kind).used <= input.len(),
    decreases input.len(),
{
    lemma_spaced_fragment_bounds(input, kind);
    let next = spaced_fragment(input, kind);
    if next.out matches Ok(Some(_)) {
        lemma_more_fragments_bounds(input.skip(next.used as int), kind);
    }
}

/// A value never reaches past the input, and one that is there takes an
/// item at least.
pub proof fn lemma_joined_bounds(input: Seq<Item>, kind: Fragment)
    ensures
        joined(input, kind).used <= input.len(),
        joined(input, kind).out matches Ok(Some(_)) ==> joined(input, kind).used > 0,
{
    reveal(joined);
    lemma_fragment_bounds(input, kind);
    if fragment(input, kind).out matches Ok(Some(_)) {
        lemma_more_fragments_bounds(input.skip(fragment(input, kind).used as int), kind);
    }
}

/// A dotted part never reaches past the input, and one that is there takes
/// an item at least.
pub proof fn lemma_dotted_part_bounds(input: Seq<Item>)
    ensures
        dotted_part(input).used <= input.len(),
        dotted_part(input).out matches Ok(Some(_)) ==> dotted_part(input).used > 0,
{
    if input.len() > 0 {
        lemma_key_pieces_bounds(input.skip(1));
    }
}

/// Further key parts never reach past the input.
pub proof fn lemma_more_key_parts_bounds(input: Seq<Item>)
    ensures
        more_key_parts(input).used <= input.len(),
    decreases input.len(),
{
    lemma_dotted_part_bounds(input);
    let next = dotted_part(input);
    if next.out matches Ok(Some(_)) {
        lemma_more_key_parts_bounds(input.skip(next.used as int));
    }
}

/// A key path never reaches past the input; one that is there holds a part
/// at least and takes an item at least.
pub proof fn lemma_key_path_bounds(input: Seq<Item>)
    ensures
        key_path(input).used <= input.len(),
        key_path(input).out matches Ok(Some(parts)) ==> parts.len() > 0 && key_path(input).used
            > 0,
        input.len() == 0 ==> key_path(input) == Scan::<Option<Seq<Seq<char>>>>::done(None, 0),
{
    reveal(key_path);
    lemma_pieces_bounds(input, Glued::Key);
    if key_part(input).out matches Ok(Some(_)) {
        lemma_more_key_parts_bounds(input.skip(key_part(input).used as int));
    }
}

/// Reads a fragment of a value, a word or a string, from the stream.
pub fn read_value_part(stream: &mut CharStream, ignore_char: Option<char>) -> (result: Result<
    Option<String>,
    ParseError,
>)
    ensures
        outcome(result) == value_part(old(stream)@, ignore_char).out,
        final(stream)@ == old(stream)@.skip(value_part(old(stream)@, ignore_char).used as int),
{
    proof {
        lemma_word_bounds(stream@, CharClass::Word(ignore_char));
        lemma_skip_nothing(stream@);
    }
    if let Some(word) = read_word(stream, ignore_char)? {
        return Ok(Some(word));
    }
    read_string(stream)
}

fn read_piece(stream: &mut CharStream, place: Glued) -> (result: Result<
    Option<String>,
    ParseError,
>)
    ensures
        outcome(result) == piece(old(stream)@, place).out,
        final(stream)@ == old(stream)@.skip(piece(old(stream)@, place).used as int),
{
    proof {
        lemma_word_bounds(stream@, CharClass::KeyWord);
        lemma_word_bounds(stream@, CharClass::ListWord);
        lemma_skip_nothing(stream@);
    }
    let word = match place {
        Glued::Key => read_key_word(stream)?,
        Glued::List => read_list_word(stream)?,
    };
    if let Some(word) = word {
        return Ok(Some(word));
    }
    read_string(stream)
}

fn read_glued(stream: &mut CharStream, place: Glued) -> (result: Result<
    Option<String>,
    ParseError,
>)
    ensures
        outcome(result) == glued(old(stream)@, place).out,
        final(stream)@ == old(stream)@.skip(glued(old(stream)@, place).used as int),
{
    let ghost input = stream@;
    let ghost mut n: nat = 0;
    let mut result = String::new();
    proof {
        lemma_skip_nothing(input);
        lemma_appended_nothing(pieces(input, place));
    }
    loop
        invariant
            input == old(stream)@,
            n <= input.len(),
            stream@ == input.skip(n as int),
            pieces(input, place) == appended(result@, n, pieces(stream@, place)),
        decreases input.len() - n,
    {
        let ghost rest = stream@;
        let ghost before = result@;
        proof {
            lemma_piece_bounds(rest, place);
            lemma_skip_twice(input, n, piece(rest, place).used);
        }
        match read_piece(stream, place)? {
            Some(next) => {
                result.append(next.as_str());
                proof {
                    let used = piece(rest, place).used;
                    lemma_appended_twice(
                        before,
                        n,
                        next@,
                        used,
                        pieces(rest.skip(used as int), place),
                    );
                    n = n + used;
                }
            },
            None => {
                assert(before + Seq::<char>::empty() =~= before);
                if result.as_str().is_empty() {
                    return Ok(None);
                } else {
                    return Ok(Some(result));
                }
            },
        }
    }
}

/// Reads a part of a key path from the stream: words of a key and strings
/// with nothing between them.
pub fn read_key_part(stream: &mut CharStream) -> (result: Result<Option<String>, ParseError>)
    ensures
        outcome(result) == key_part(old(stream)@).out,
        final(stream)@ == old(stream)@.skip(key_part(old(stream)@).used as int),
{
    read_glued(stream, Glued::Key)
}

/// Reads a fragment of a value in a list from the stream: words of a list
/// and strings with nothing between them.
pub fn read_list_part(stream: &mut CharStream) -> (result: Result<Option<String>, ParseError>)
    ensures
        outcome(result) == list_part(old(stream)@).out,
        final(stream)@ == old(stream)@.skip(list_part(old(stream)@).used as int),
{
    read_glued(stream, Glued::List)
}

fn read_fragment(stream: &mut CharStream, kind: Fragment) -> (result: Result<
    Option<String>,
    ParseError,
>)
    ensures
        outcome(result) == fragment(old(stream)@, kind).out,
        final(stream)@ == old(stream)@.skip(fragment(old(stream)@, kind).used as int),
{
    match kind {
        Fragment::Value(ignore_char) => read_value_part(stream, ignore_char),
        Fragment::Item => read_list_part(stream),
    }
}

fn read_spaced_fragment(stream: &mut CharStream, kind: Fragment) -> (result: Result<
    Option<String>,
    ParseError,
>)
    ensures
        outcome(result) == spaced_fragment(old(stream)@, kind).out,
        final(stream)@ == old(stream)@.skip(spaced_fragment(old(stream)@, kind).used as int),
{
    let ghost input = stream@;
    proof {
        lemma_word_bounds(input, CharClass::Blank);
        let gap = blanks(input);
        lemma_fragment_bounds(input.skip(gap.used as int), kind);
        lemma_skip_twice(input, gap.used, fragment(input.skip(gap.used as int), kind).used);
    }
    let mut iws = read_iws(stream)?;
    match read_fragment(stream, kind)? {
        Some(part) => {
            iws.append(part.as_str());
            Ok(Some(iws))
        },
        None => Ok(None),
    }
}

fn read_joined(stream: &mut CharStream, kind: Fragment) -> (result: Result<
    Option<String>,
    ParseError,
>)
    ensures
        outcome(result) == joined(old(stream)@, kind).out,
        final(stream)@ == old(stream)@.skip(joined(old(stream)@, kind).used as int),
{
    let ghost input = stream@;
    proof {
        reveal(joined);
    }
    let mut result = match read_fragment(stream, kind)? {
        Some(first) => first,
        None => {
            return Ok(None);
        },
    };
    let ghost first = result@;
    let ghost tail = stream@;
    let ghost mut n: nat = 0;
    let ghost mut sofar: Seq<char> = Seq::empty();
    proof {
        lemma_fragment_bounds(input, kind);
        lemma_skip_nothing(tail);
        lemma_appended_nothing(more_fragments(tail, kind));
        assert(first + sofar =~= first);
    }
    loop
        invariant
            input == old(stream)@,
            fragment(input, kind).out == Ok::<Option<Seq<char>>, Failure>(Some(first)),
            fragment(input, kind).used <= input.len(),
            tail == input.skip(fragment(input, kind).used as int),
            n <= tail.len(),
            stream@ == tail.skip(n as int),
            result@ == first + sofar,
            more_fragments(tail, kind) == appended(sofar, n, more_fragments(stream@, kind)),
        decreases tail.len() - n,
    {
        let ghost rest = stream@;
        proof {
            reveal(joined);
            lemma_spaced_fragment_bounds(rest, kind);
            lemma_skip_twice(tail, n, spaced_fragment(rest, kind).used);
            lemma_skip_twice(
                input,
                fragment(input, kind).used,
                n + spaced_fragment(rest, kind).used,
            );
        }
        match read_spaced_fragment(stream, kind)? {
            Some(part) => {
                result.append(part.as_str());
                proof {
                    let used = spaced_fragment(rest, kind).used;
                    lemma_appended_twice(
                        sofar,
                        n,
                        part@,
                        used,
                        more_fragments(rest.skip(used as int), kind),
                    );
                    assert(first + (sofar + part@) =~= (first + sofar) + part@);
                    sofar = sofar + part@;
                    n = n + used;
                }
            },
            None => {
                assert(sofar + Seq::<char>::empty() =~= sofar);
                return Ok(Some(result));
            },
        }
    }
}

/// Reads the value of a key from the stream: fragments on one line, joined
/// with the blanks between them as they stand. `ignore_char` ends words.
pub fn read_value(stream: &mut CharStream, ignore_char: Option<char>) -> (result: Result<
    Option<String>,
    ParseError,
>)
    ensures
        outcome(result) == value(old(stream)@, ignore_char).out,
        final(stream)@ == old(stream)@.skip(value(old(stream)@, ignore_char).used as int),
{
    read_joined(stream, Fragment::Value(ignore_char))
}

/// Reads a value in a list from the stream: as [`read_value`], but its
/// fragments are glued words and strings, and no word holds a brace or a
/// bracket.
pub fn read_list_value(stream: &mut CharStream) -> (result: Result<Option<String>, ParseError>)
    ensures
        outcome(result) == list_value(old(stream)@).out,
        final(stream)@ == old(stream)@.skip(list_value(old(stream)@).used as int),
{
    read_joined(stream, Fragment::Item)
}

fn read_dotted_part(stream: &mut CharStream) -> (result: Result<Option<String>, ParseError>)
    ensures
        outcome(result) == dotted_part(old(stream)@).out,
        final(stream)@ == old(stream)@.skip(dotted_part(old(stream)@).used as int),
{
    let ghost input = stream@;
    proof {
        lemma_skip_nothing(input);
    }
    match peek(stream)? {
        Some(c) => if c == '.' {
            accept(stream);
        } else {
            return Ok(None);
        },
        None => {
            return Ok(None);
        },
    }
    proof {
        lemma_key_pieces_bounds(input.skip(1));
        lemma_skip_twice(input, 1, key_part(input.skip(1)).used);
    }
    match read_key_part(stream)? {
        Some(part) => Ok(Some(part)),
        None => Err(ParseError::ExpectedKeyPartAfterKeySeparator),
    }
}

/// Reads a key path from the stream: key parts with a `.` between them.
pub fn read_key_path(stream: &mut CharStream) -> (result: Result<Option<Vec<String>>, ParseError>)
    ensures
        outcome(result) == key_path(old(stream)@).out,
        final(stream)@ == old(stream)@.skip(key_path(old(stream)@).used as int),
{
    let ghost input = stream@;
    proof {
        reveal(key_path);
    }
    let first = match read_key_part(stream)? {
        Some(first) => first,
        None => {
            return Ok(None);
        },
    };
    let ghost head = first@;
    let ghost tail = stream@;
    let ghost mut n: nat = 0;
    let ghost mut sofar: Seq<Seq<char>> = Seq::empty();
    let mut result: Vec<String> = Vec::new();
    result.push(first);
    proof {
        lemma_key_pieces_bounds(input);
        lemma_skip_nothing(tail);
        lemma_appended_nothing(more_key_parts(tail));
        assert(result.deep_view() =~= seq![head] + sofar);
    }
    loop
        invariant
            input == old(stream)@,
            key_part(input).out == Ok::<Option<Seq<char>>, Failure>(Some(head)),
            key_part(input).used <= input.len(),
            tail == input.skip(key_part(input).used as int),
            n <= tail.len(),
            stream@ == tail.skip(n as int),
            result.deep_view() == seq![head] + sofar,
            more_key_parts(tail) == appended(sofar, n, more_key_parts(stream@)),
        decreases tail.len() - n,
    {
        let ghost rest = stream@;
        let ghost before = result.deep_view();
        proof {
            reveal(key_path);
            lemma_dotted_part_bounds(rest);
            lemma_skip_twice(tail, n, dotted_part(rest).used);
            lemma_skip_twice(input, key_part(input).used, n + dotted_part(rest).used);
        }
        match read_dotted_part(stream)? {
            Some(part) => {
                let ghost text = part@;
                result.push(part);
                proof {
                    let used = dotted_part(rest).used;
                    lemma_appended_twice(
                        sofar,
                        n,
                        seq![text],
                        used,
                        more_key_parts(rest.skip(used as int)),
                    );
                    assert(result.deep_view() =~= before.push(text));
                    assert(before.push(text) =~= seq![head] + (sofar + seq![text]));
                    sofar = sofar + seq![text];
                    n = n + used;
                }
            },
            None => {
                assert(sofar + Seq::<Seq<char>>::empty() =~= sofar);
                return Ok(Some(result));
            },
        }
    }
}

/// Two pieces that stand with nothing between them, and no third behind
/// them, are one text: a string glued to a word is part of the same key or
/// value.
pub proof fn lemma_two_pieces_glue(input: Seq<Item>, place: Glued)
    requires
        piece(input, place).out matches Ok(Some(_)),
        ({
            let rest = input.skip(piece(input, place).used as int);
            &&& piece(rest, place).out matches Ok(Some(_))
            &&& piece(rest.skip(piece(rest, place).used as int), place).out == Ok::<
                Option<Seq<char>>,
                Failure,
            >(None)
        }),
    ensures
        ({
            let rest = input.skip(piece(input, place).used as int);
            let text = piece(input, place).out->Ok_0->Some_0 + piece(rest, place).out->Ok_0->Some_0;
            glued(input, place).out == Ok::<Option<Seq<char>>, Failure>(
                if text.len() == 0 {
                    None
                } else {
                    Some(text)
                },
            )
        }),
{
    let first = piece(input, place);
    let rest = input.skip(first.used as int);
    let second = piece(rest, place);
    let a = first.out->Ok_0->Some_0;
    let b = second.out->Ok_0->Some_0;
    lemma_piece_bounds(input, place);
    lemma_piece_bounds(rest, place);
    assert(pieces(rest.skip(second.used as int), place).out == Ok::<Seq<char>, Failure>(
        Seq::empty(),
    ));
    assert(pieces(rest, place).out == Ok::<Seq<char>, Failure>(b + Seq::empty()));
    assert(a + (b + Seq::<char>::empty()) =~= a + b);
}

/// Two fragments on one line, with blanks between them and no third
/// behind them, are one value: the first, the blanks as they stand, and the
/// second.
pub proof fn lemma_two_fragments_join(input: Seq<Item>, kind: Fragment)
    requires
        fragment(input, kind).out matches Ok(Some(_)),
        ({
            let rest = input.skip(fragment(input, kind).used as int);
            let second = input.skip((fragment(input, kind).used + blanks(rest).used) as int);
            let third = rest.skip(spaced_fragment(rest, kind).used as int);
            &&& blanks(rest).out is Ok
            &&& fragment(second, kind).out matches Ok(Some(_))
            &&& spaced_fragment(third, kind).out == Ok::<Option<Seq<char>>, Failure>(None)
        }),
    ensures
        ({
            let rest = input.skip(fragment(input, kind).used as int);
            let second = input.skip((fragment(input, kind).used + blanks(rest).used) as int);
            joined(input, kind).out == Ok::<Option<Seq<char>>, Failure>(
                Some(
                    fragment(input, kind).out->Ok_0->Some_0 + blanks(rest).out->Ok_0 + fragment(
                        second,
                        kind,
                    ).out->Ok_0->Some_0,
                ),
            )
        }),
{
    reveal(joined);
    let first = fragment(input, kind);
    let rest = input.skip(first.used as int);
    let gap = blanks(rest);
    lemma_fragment_bounds(input, kind);
    lemma_word_bounds(rest, CharClass::Blank);
    lemma_skip_twice(input, first.used, gap.used);
    let second = fragment(rest.skip(gap.used as int), kind);
    let a = first.out->Ok_0->Some_0;
    let b = gap.out->Ok_0;
    let c = second.out->Ok_0->Some_0;
    let third = rest.skip(spaced_fragment(rest, kind).used as int);
    assert(more_fragments(third, kind).out == Ok::<Seq<char>, Failure>(Seq::empty()));
    lemma_spaced_fragment_bounds(rest, kind);
    assert(more_fragments(rest, kind).out == Ok::<Seq<char>, Failure>((b + c) + Seq::empty()));
    assert(a + ((b + c) + Seq::<char>::empty()) =~= a + b + c);
}

} // verus!
