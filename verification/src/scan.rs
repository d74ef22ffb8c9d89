//! Runs of characters: blank space, comments and words.

use vstd::prelude::*;
use crate::cursor::{accept, peek, CharStream, Item, Scan};
use crate::error::{outcome, Failure, ParseError};

verus! {

/// `String::push` appends one character to the text.
pub assume_specification[ String::push ](text: &mut String, c: char)
    ensures
        final(text)@ == old(text)@.push(c),
;

/// A space or a tab: blank space that stays within a line.
pub open spec fn is_blank(c: char) -> bool {
    c == ' ' || c == '\t'
}

/// A line terminator.
pub open spec fn is_newline(c: char) -> bool {
    c == '\r' || c == '\n'
}

/// A character that no word holds: blank space, a line terminator, a quote
/// or the start of a comment.
pub open spec fn ends_word(c: char) -> bool {
    is_blank(c) || is_newline(c) || c == '\'' || c == '"' || c == '#'
}

/// A brace or a bracket: what opens or closes a level or a list.
pub open spec fn is_bracket(c: char) -> bool {
    c == '{' || c == '}' || c == '[' || c == ']'
}

/// The kinds of runs that the scanner takes in one piece.
#[derive(Clone, Copy, Debug, PartialEq, Eq)]
pub enum CharClass {
    /// Spaces and tabs.
    Blank,
    /// The characters of a word in a value, where one more character may be
    /// set to end the word.
    Word(Option<char>),
    /// The characters of a word in a key: no brace, no bracket and no `.`,
    /// which parts the keys of a path.
    KeyWord,
    /// The characters of a word in a list: no brace and no bracket. A `.`
    /// is a character like any other there.
    ListWord,
}

impl CharClass {
    /// Whether `c` belongs to a run of this kind.
    pub open spec fn accepts(self, c: char) -> bool {
        match self {
            CharClass::Blank => is_blank(c),
            CharClass::Word(stop) => !ends_word(c) && stop != Some(c),
            CharClass::KeyWord => !ends_word(c) && !is_bracket(c) && c != '.',
            CharClass::ListWord => !ends_word(c) && !is_bracket(c),
        }
    }

    /// Decides whether `c` belongs to a run of this kind.
    pub fn holds(&self, c: char) -> (kept: bool)
        ensures
            kept == self.accepts(c),
    {
        let ends = c == ' ' || c == '\t' || c == '\r' || c == '\n' || c == '\'' || c == '"' || c
            == '#';
        match self {
            CharClass::Blank => c == ' ' || c == '\t',
            CharClass::Word(stop) => !ends && match stop {
                Some(s) => *s != c,
                None => true,
            },
            CharClass::KeyWord => !ends && !(c == '{' || c == '}' || c == '[' || c == ']' || c
                == '.'),
            CharClass::ListWord => !ends && !(c == '{' || c == '}' || c == '[' || c == ']'),
        }
    }
}

/// How many items at the front of `input` are characters of `class`.
pub open spec fn run(input: Seq<Item>, class: CharClass) -> nat
    decreases input.len(),
{
    if input.len() > 0 && input[0] is Ok && class.accepts(input[0]->Ok_0) {
        1 + run(input.skip(1), class)
    } else {
        0
    }
}

/// The first `n` items of `input` as characters.
pub open spec fn chars_of(input: Seq<Item>, n: nat) -> Seq<char> {
    Seq::new(n, |i: int| input[i]->Ok_0)
}

/// Taking the longest run of `class` from the front of `input`. The run
/// ends before the first character that is not of the class, or at the end
/// of the input; a failed read right after the run is taken and reported.
pub open spec fn longest_run(input: Seq<Item>, class: CharClass) -> Scan<Seq<char>> {
    let n = run(input, class);
    if n < input.len() && input[n as int] is Err {
        Scan { out: Err(Failure::ReadFailure(input[n as int]->Err_0)), used: n + 1 }
    } else {
        Scan { out: Ok(chars_of(input, n)), used: n }
    }
}

/// A run never reaches past the input, and all its items are characters of
/// the class.
pub proof fn lemma_run_bounds(input: Seq<Item>, class: CharClass)
    ensures
        run(input, class) <= input.len(),
        forall|i: int|
            0 <= i < run(input, class) ==> (#[trigger] input[i]) is Ok && class.accepts(
                input[i]->Ok_0,
            ),
        run(input, class) < input.len() ==> !(input[run(input, class) as int] is Ok
            && class.accepts(input[run(input, class) as int]->Ok_0)),
    decreases input.len(),
{
    if input.len() > 0 && input[0] is Ok && class.accepts(input[0]->Ok_0) {
        let rest = input.skip(1);
        lemma_run_bounds(rest, class);
        assert forall|i: int| 0 <= i < run(input, class) implies (#[trigger] input[i]) is Ok
            && class.accepts(input[i]->Ok_0) by {
            if i > 0 {
                assert(input[i] == rest[i - 1]);
            }
        }
        if run(input, class) < input.len() {
            assert(input[run(input, class) as int] == rest[run(rest, class) as int]);
        }
    }
}

/// A run that is known to hold `i` items goes on from there.
pub proof fn lemma_run_split(input: Seq<Item>, class: CharClass, i: nat)
    requires
        i <= input.len(),
        forall|j: int| 0 <= j < i ==> (#[trigger] input[j]) is Ok && class.accepts(input[j]->Ok_0),
    ensures
        run(input, class) == i + run(input.skip(i as int), class),
    decreases i,
{
    if i == 0 {
        assert(input.skip(0) =~= input);
    } else {
        let rest = input.skip(1);
        assert forall|j: int| 0 <= j < i - 1 implies (#[trigger] rest[j]) is Ok && class.accepts(
            rest[j]->Ok_0,
        ) by {
            assert(rest[j] == input[j + 1]);
        }
        lemma_run_split(rest, class, (i - 1) as nat);
        assert(rest.skip(i - 1) =~= input.skip(i as int));
        assert(input[0] is Ok && class.accepts(input[0]->Ok_0));
    }
}

/// Takes the longest run of `class` from the stream.
pub fn read_run(stream: &mut CharStream, class: CharClass) -> (result: Result<String, ParseError>)
    ensures
        outcome(result) == longest_run(old(stream)@, class).out,
        final(stream)@ == old(stream)@.skip(longest_run(old(stream)@, class).used as int),
{
    let ghost input = stream@;
    let ghost mut n: nat = 0;
    let mut text = String::new();
    loop
        invariant
            input == old(stream)@,
            n <= input.len(),
            stream@ == input.skip(n as int),
            text@ == chars_of(input, n),
            forall|j: int| 0 <= j < n ==> (#[trigger] input[j]) is Ok && class.accepts(input[j]->Ok_0),
        decreases input.len() - n,
    {
        proof {
            lemma_run_split(input, class, n);
        }
        match peek(stream) {
            Err(error) => {
                assert(input.skip(n as int).skip(1) =~= input.skip((n + 1) as int));
                return Err(error);
            },
            Ok(None) => {
                assert(text@ =~= chars_of(input, run(input, class)));
                return Ok(text);
            },
            Ok(Some(c)) => {
                if !class.holds(c) {
                    assert(text@ =~= chars_of(input, run(input, class)));
                    return Ok(text);
                }
                let c = accept(stream);
                text.push(c);
                proof {
                    assert(input.skip(n as int).skip(1) =~= input.skip((n + 1) as int));
                    assert(text@ =~= chars_of(input, n + 1));
                    n = n + 1;
                }
            },
        }
    }
}

/// Taking blank space within a line: the longest run of spaces and tabs.
pub open spec fn blanks(input: Seq<Item>) -> Scan<Seq<char>> {
    longest_run(input, CharClass::Blank)
}

/// A run as a word: an empty run is no word.
pub open spec fn as_word(scan: Scan<Seq<char>>) -> Scan<Option<Seq<char>>> {
    Scan {
        out: match scan.out {
            Ok(text) => Ok(if text.len() == 0 { None } else { Some(text) }),
            Err(failure) => Err(failure),
        },
        used: scan.used,
    }
}

/// Taking a word of a value: the longest run of characters that are not
/// blank space, line terminators, quotes, `#` or `stop`.
pub open spec fn word(input: Seq<Item>, stop: Option<char>) -> Scan<Option<Seq<char>>> {
    as_word(longest_run(input, CharClass::Word(stop)))
}

/// Taking a word of a key: the longest run of characters that are not
/// blank space, line terminators, quotes, `#`, braces, brackets or `.`.
pub open spec fn key_word(input: Seq<Item>) -> Scan<Option<Seq<char>>> {
    as_word(longest_run(input, CharClass::KeyWord))
}

/// Taking a word of a list: as [`key_word`], but a `.` belongs to the word.
pub open spec fn list_word(input: Seq<Item>) -> Scan<Option<Seq<char>>> {
    as_word(longest_run(input, CharClass::ListWord))
}

/// A word never reaches past the input; one that is there holds a
/// character at least, and where there is none nothing is taken.
pub proof fn lemma_word_bounds(input: Seq<Item>, class: CharClass)
    ensures
        longest_run(input, class).used <= input.len(),
        as_word(longest_run(input, class)).out matches Ok(Some(text)) ==> text.len() > 0
            && longest_run(input, class).used == text.len(),
        as_word(longest_run(input, class)).out == Ok::<Option<Seq<char>>, Failure>(None)
            ==> longest_run(input, class).used == 0,
{
    lemma_run_bounds(input, class);
}

/// Reads a run of spaces and tabs from the stream.
pub fn read_iws(stream: &mut CharStream) -> (result: Result<String, ParseError>)
    ensures
        outcome(result) == blanks(old(stream)@).out,
        final(stream)@ == old(stream)@.skip(blanks(old(stream)@).used as int),
{
    read_run(stream, CharClass::Blank)
}

/// Reads a word of a value from the stream. `ignore_char` ends the word
/// like blank space does.
pub fn read_word(stream: &mut CharStream, ignore_char: Option<char>) -> (result: Result<
    Option<String>,
    ParseError,
>)
    ensures
        outcome(result) == word(old(stream)@, ignore_char).out,
        final(stream)@ == old(stream)@.skip(word(old(stream)@, ignore_char).used as int),
{
    let text = read_run(stream, CharClass::Word(ignore_char))?;
    if text.as_str().is_empty() {
        Ok(None)
    } else {
        Ok(Some(text))
    }
}

/// Reads a word of a key from the stream.
pub fn read_key_word(stream: &mut CharStream) -> (result: Result<Option<String>, ParseError>)
    ensures
        outcome(result) == key_word(old(stream)@).out,
        final(stream)@ == old(stream)@.skip(key_word(old(stream)@).used as int),
{
    let text = read_run(stream, CharClass::KeyWord)?;
    if text.as_str().is_empty() {
        Ok(None)
    } else {
        Ok(Some(text))
    }
}

/// Reads a word of a list from the stream.
pub fn read_list_word(stream: &mut CharStream) -> (result: Result<Option<String>, ParseError>)
    ensures
        outcome(result) == list_word(old(stream)@).out,
        final(stream)@ == old(stream)@.skip(list_word(old(stream)@).used as int),
{
    let text = read_run(stream, CharClass::ListWord)?;
    if text.as_str().is_empty() {
        Ok(None)
    } else {
        Ok(Some(text))
    }
}

/// Taking everything that separates two tokens: blank space, line
/// terminators and comments, which run from a `#` to the end of the line.
/// `in_comment` says whether the input starts inside a comment. The result
/// says whether a line terminator was crossed.
pub open spec fn space(input: Seq<Item>, in_comment: bool) -> Scan<bool>
    decreases input.len(),
{
    if input.len() == 0 {
        Scan { out: Ok(false), used: 0 }
    } else {
        match input[0] {
            Err(cause) => Scan { out: Err(Failure::ReadFailure(cause)), used: 1 },
            Ok(c) => if is_newline(c) {
                crossing(space(input.skip(1), false), true).after(1)
            } else if in_comment || is_blank(c) {
                space(input.skip(1), in_comment).after(1)
            } else if c == '#' {
                space(input.skip(1), true).after(1)
            } else {
                Scan { out: Ok(false), used: 0 }
            },
        }
    }
}

/// The step `scan` where a line terminator may have been crossed before it.
pub open spec fn crossing(scan: Scan<bool>, crossed: bool) -> Scan<bool> {
    Scan {
        out: match scan.out {
            Ok(later) => Ok(crossed || later),
            Err(failure) => Err(failure),
        },
        used: scan.used,
    }
}

/// Taking the space between two tokens.
#[verifier::opaque]
pub open spec fn blank_space(input: Seq<Item>) -> Scan<bool> {
    space(input, false)
}

/// Space never reaches past the input.
pub proof fn lemma_space_bounds(input: Seq<Item>, in_comment: bool)
    ensures
        space(input, in_comment).used <= input.len(),
    decreases input.len(),
{
    if input.len() > 0 && input[0] is Ok {
        lemma_space_bounds(input.skip(1), false);
        lemma_space_bounds(input.skip(1), true);
    }
}

/// The space between two tokens never reaches past the input.
pub proof fn lemma_blank_space_bounds(input: Seq<Item>)
    ensures
        blank_space(input).used <= input.len(),
{
    reveal(blank_space);
    lemma_space_bounds(input, false);
}

/// Space starts with the blanks at the front of the input.
proof fn lemma_space_skips_blanks(input: Seq<Item>, in_comment: bool)
    ensures
        match blanks(input).out {
            Ok(_) => space(input, in_comment) == space(
                input.skip(blanks(input).used as int),
                in_comment,
            ).after(blanks(input).used),
            Err(failure) => space(input, in_comment) == Scan::<bool> {
                out: Err(failure),
                used: blanks(input).used,
            },
        },
    decreases input.len(),
{
    if input.len() > 0 && input[0] is Ok && is_blank(input[0]->Ok_0) {
        let rest = input.skip(1);
        lemma_space_skips_blanks(rest, in_comment);
        let n = run(rest, CharClass::Blank);
        lemma_run_bounds(rest, CharClass::Blank);
        if n < rest.len() {
            assert(rest[n as int] == input[(n + 1) as int]);
        }
        assert(rest.skip(n as int) =~= input.skip((n + 1) as int));
    } else {
        assert(input.skip(0) =~= input);
    }
}

/// Reads blank space, line terminators and comments from the stream, and
/// says whether a line terminator was among them.
pub fn read_nws(stream: &mut CharStream) -> (result: Result<bool, ParseError>)
    ensures
        outcome(result) == blank_space(old(stream)@).out,
        final(stream)@ == old(stream)@.skip(blank_space(old(stream)@).used as int),
{
    let ghost input = stream@;
    proof {
        reveal(blank_space);
        lemma_space_skips_blanks(input, false);
        lemma_run_bounds(input, CharClass::Blank);
    }
    read_iws(stream)?;
    let ghost mut n: nat = blanks(input).used;
    let mut has_newline = false;
    let mut in_comment = false;
    loop
        invariant
            input == old(stream)@,
            n <= input.len(),
            stream@ == input.skip(n as int),
            blank_space(input) == space(input, false),
            space(input, false) == crossing(space(stream@, in_comment), has_newline).after(n),
            in_comment || run(stream@, CharClass::Blank) == 0,
        decreases input.len() - n,
    {
        let ghost rest = stream@;
        proof {
            assert(rest.skip(0) =~= rest);
            if rest.len() > 0 {
                assert(rest.skip(1) =~= input.skip((n + 1) as int));
            }
        }
        let c = match peek(stream)? {
            Some(c) => c,
            None => {
                return Ok(has_newline);
            },
        };
        if c == '\r' || c == '\n' {
            accept(stream);
            in_comment = false;
            has_newline = true;
        } else if in_comment {
            accept(stream);
            proof {
                n = n + 1;
            }
            continue ;
        } else if c == '#' {
            accept(stream);
            in_comment = true;
        } else {
            assert(!is_blank(c)) by {
                reveal_with_fuel(run, 1);
            }
            return Ok(has_newline);
        }
        proof {
            lemma_space_skips_blanks(rest.skip(1), in_comment);
            lemma_run_bounds(rest.skip(1), CharClass::Blank);
        }
        let ghost m = blanks(rest.skip(1)).used;
        read_iws(stream)?;
        proof {
            assert(rest.skip(1).skip(m as int) =~= input.skip((n + 1 + m) as int));
            lemma_run_bounds(stream@, CharClass::Blank);
            n = n + 1 + m;
        }
    }
}

} // verus!
