//! The character cursor: one item of lookahead over a source that yields
//! characters and may fail at any point.

use std::collections::VecDeque;
use vstd::prelude::*;
use crate::error::{outcome, Failure, ParseError};

verus! {

/// One item of the input: a character, or the failure of the read that
/// should have produced one.
pub type Item = Result<char, std::io::Error>;

/// What a scanning step does on a given input: its result and how many
/// items it takes from the front of the input.
pub struct Scan<T> {
    pub out: Result<T, Failure>,
    pub used: nat,
}

/// The items that a source will yield, in order.
pub struct CharStream {
    items: VecDeque<Item>,
}

impl View for CharStream {
    type V = Seq<Item>;

    closed spec fn view(&self) -> Seq<Item> {
        self.items@
    }
}

/// The items of a text that is read without failures.
pub open spec fn text_items(text: Seq<char>) -> Seq<Item> {
    Seq::new(text.len(), |i: int| Ok(text[i]))
}

impl CharStream {
    /// A stream that yields `items` and then ends.
    pub fn new(items: Vec<Item>) -> (stream: CharStream)
        ensures
            stream@ == items@,
    {
        let mut queue: VecDeque<Item> = VecDeque::new();
        for item in iter: items
            invariant
                queue@ == iter.seq().take(iter.index() as int),
        {
            queue.push_back(item);
        }
        CharStream { items: queue }
    }

    /// A stream that yields the characters of `text` and then ends.
    pub fn from_text(text: &str) -> (stream: CharStream)
        ensures
            stream@ == text_items(text@),
    {
        let mut queue: VecDeque<Item> = VecDeque::new();
        for c in iter: text.chars()
            invariant
                queue@ == text_items(iter.seq().take(iter.index() as int)),
        {
            queue.push_back(Ok(c));
        }
        CharStream { items: queue }
    }
}

/// What [`peek`] does: it shows the next character without taking it, and
/// takes a failed read to report it.
pub open spec fn peeked(input: Seq<Item>) -> Scan<Option<char>> {
    if input.len() == 0 {
        Scan { out: Ok(None), used: 0 }
    } else {
        match input[0] {
            Ok(c) => Scan { out: Ok(Some(c)), used: 0 },
            Err(cause) => Scan { out: Err(Failure::ReadFailure(cause)), used: 1 },
        }
    }
}

/// What [`read`] does: it takes the next item, if there is one.
pub open spec fn taken(input: Seq<Item>) -> Scan<Option<char>> {
    if input.len() == 0 {
        Scan { out: Ok(None), used: 0 }
    } else {
        match input[0] {
            Ok(c) => Scan { out: Ok(Some(c)), used: 1 },
            Err(cause) => Scan { out: Err(Failure::ReadFailure(cause)), used: 1 },
        }
    }
}

/// Looks at the next character of the stream.
pub fn peek(stream: &mut CharStream) -> (result: Result<Option<char>, ParseError>)
    ensures
        outcome(result) == peeked(old(stream)@).out,
        final(stream)@ == old(stream)@.skip(peeked(old(stream)@).used as int),
{
    if stream.items.len() == 0 {
        return Ok(None);
    }
    match &stream.items[0] {
        Ok(c) => Ok(Some(*c)),
        Err(_) => match stream.items.pop_front() {
            Some(Err(cause)) => Err(ParseError::from(cause)),
            _ => unreached(),
        },
    }
}

/// Takes the character that [`peek`] has just shown.
pub fn accept(stream: &mut CharStream) -> (c: char)
    requires
        old(stream)@.len() > 0,
        old(stream)@[0] is Ok,
    ensures
        Ok::<char, std::io::Error>(c) == old(stream)@[0],
        final(stream)@ == old(stream)@.skip(1),
{
    match stream.items.pop_front() {
        Some(Ok(c)) => c,
        _ => unreached(),
    }
}

/// Takes the next character of the stream.
pub fn read(stream: &mut CharStream) -> (result: Result<Option<char>, ParseError>)
    ensures
        outcome(result) == taken(old(stream)@).out,
        final(stream)@ == old(stream)@.skip(taken(old(stream)@).used as int),
{
    match stream.items.pop_front() {
        Some(Ok(c)) => Ok(Some(c)),
        Some(Err(cause)) => Err(ParseError::from(cause)),
        None => Ok(None),
    }
}

impl<T> Scan<T> {
    /// A step that succeeds with `value`.
    pub open spec fn done(value: T, used: nat) -> Scan<T> {
        Scan { out: Ok(value), used }
    }

    /// A step that fails with `failure`.
    pub open spec fn fail(failure: Failure, used: nat) -> Scan<T> {
        Scan { out: Err(failure), used }
    }

    /// The same step, counted from `n` items further back.
    pub open spec fn after(self, n: nat) -> Scan<T> {
        Scan { out: self.out, used: self.used + n }
    }
}

/// The step `scan` after `n` items that gave `before`: what it gives is
/// appended to `before`.
pub open spec fn appended<A>(before: Seq<A>, n: nat, scan: Scan<Seq<A>>) -> Scan<Seq<A>> {
    Scan {
        out: match scan.out {
            Ok(more) => Ok(before + more),
            Err(failure) => Err(failure),
        },
        used: n + scan.used,
    }
}

/// Appending to nothing, after nothing, changes no step.
pub proof fn lemma_appended_nothing<A>(scan: Scan<Seq<A>>)
    ensures
        appended(Seq::empty(), 0, scan) == scan,
{
    if scan.out is Ok {
        assert(Seq::<A>::empty() + scan.out->Ok_0 =~= scan.out->Ok_0);
    }
}

/// Appending in two steps is appending once.
pub proof fn lemma_appended_twice<A>(
    before: Seq<A>,
    n: nat,
    middle: Seq<A>,
    m: nat,
    scan: Scan<Seq<A>>,
)
    ensures
        appended(before, n, appended(middle, m, scan)) == appended(before + middle, n + m, scan),
{
    if scan.out is Ok {
        assert(before + (middle + scan.out->Ok_0) =~= (before + middle) + scan.out->Ok_0);
    }
}

/// Skipping twice is skipping once by the sum.
pub proof fn lemma_skip_twice(input: Seq<Item>, a: nat, b: nat)
    requires
        a + b <= input.len(),
    ensures
        input.skip(a as int).skip(b as int) == input.skip((a + b) as int),
{
    assert(input.skip(a as int).skip(b as int) =~= input.skip((a + b) as int));
}

/// Skipping nothing changes nothing.
pub proof fn lemma_skip_nothing(input: Seq<Item>)
    ensures
        input.skip(0) == input,
{
    assert(input.skip(0) =~= input);
}

} // verus!
