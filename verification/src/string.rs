//! Quoted strings and their escapes.

use vstd::prelude::*;
use vstd::string::StringExecFns;
use vstd::std_specs::bits::u8_leading_ones;
use vstd::utf8::{decode_utf8, valid_utf8};
use crate::cursor::{
    accept, appended, lemma_appended_nothing, lemma_appended_twice, lemma_skip_nothing,
    lemma_skip_twice, peek, peeked, read, CharStream, Item, Scan,
};
use crate::error::{outcome, Failure, ParseError};

verus! {

/// The value of a hexadecimal digit, in either case.
pub open spec fn hex_value(c: char) -> Option<u8> {
    if 'a' <= c <= 'f' {
        Some((c as u8 - 'a' as u8 + 10) as u8)
    } else if 'A' <= c <= 'F' {
        Some((c as u8 - 'A' as u8 + 10) as u8)
    } else if '0' <= c <= '9' {
        Some((c as u8 - '0' as u8) as u8)
    } else {
        None
    }
}

/// The byte that two hexadecimal digits write, the high digit first.
pub open spec fn hex_byte(high: char, low: char) -> Option<u8> {
    match (hex_value(high), hex_value(low)) {
        (Some(h), Some(l)) => Some((h * 16 + l) as u8),
        _ => None,
    }
}

/// The 16-bit number that four hexadecimal digits write, the highest first.
pub open spec fn hex_unit(c1: char, c2: char, c3: char, c4: char) -> Option<u16> {
    match (hex_byte(c1, c2), hex_byte(c3, c4)) {
        (Some(h), Some(l)) => Some((h * 256 + l) as u16),
        _ => None,
    }
}

fn u4_from_hex_char(ch: char) -> (digit: Option<u8>)
    ensures
        digit == hex_value(ch),
        digit matches Some(d) ==> d < 16,
{
    if ch >= 'a' && ch <= 'f' {
        Some(ch as u8 - 'a' as u8 + 10)
    } else if ch >= 'A' && ch <= 'F' {
        Some(ch as u8 - 'A' as u8 + 10)
    } else if ch >= '0' && ch <= '9' {
        Some(ch as u8 - '0' as u8)
    } else {
        None
    }
}

fn u8_from_2_hex_chars(ch1: char, ch2: char) -> (byte: Option<u8>)
    ensures
        byte == hex_byte(ch1, ch2),
{
    let high = u4_from_hex_char(ch1)?;
    let low = u4_from_hex_char(ch2)?;
    assert(high << 4 | low == high * 16 + low) by (bit_vector)
        requires
            high < 16,
            low < 16,
    ;
    Some(high << 4 | low)
}

fn u16_from_4_hex_chars(ch1: char, ch2: char, ch3: char, ch4: char) -> (unit: Option<u16>)
    ensures
        unit == hex_unit(ch1, ch2, ch3, ch4),
{
    let high = u8_from_2_hex_chars(ch1, ch2)?;
    let low = u8_from_2_hex_chars(ch3, ch4)?;
    assert((high as u16) << 8 | (low as u16) == high * 256 + low) by (bit_vector);
    Some((high as u16) << 8 | low as u16)
}

/// The character that a one-letter escape stands for.
pub open spec fn simple_escape(letter: char) -> Option<char> {
    if letter == '"' || letter == '\\' || letter == '\'' {
        Some(letter)
    } else if letter == '0' {
        Some('\0')
    } else if letter == 'a' || letter == 'A' {
        Some('\x07')
    } else if letter == 'b' || letter == 'B' {
        Some('\x08')
    } else if letter == 't' || letter == 'T' {
        Some('\t')
    } else if letter == 'n' || letter == 'N' {
        Some('\n')
    } else if letter == 'v' || letter == 'V' {
        Some('\x0b')
    } else if letter == 'f' || letter == 'F' {
        Some('\x0c')
    } else if letter == 'r' || letter == 'R' {
        Some('\r')
    } else {
        None
    }
}

/// The first scalar value that a sequence of UTF-16 code units encodes:
/// a unit outside the surrogate range stands for itself, a high surrogate
/// pairs with the low surrogate after it, and any other surrogate encodes
/// nothing.
pub open spec fn utf16_first(units: Seq<u16>) -> Option<char> {
    if units.len() == 0 {
        None
    } else if units[0] < 0xD800 || units[0] > 0xDFFF {
        Some(units[0] as char)
    } else if units[0] <= 0xDBFF && units.len() > 1 && 0xDC00 <= units[1] <= 0xDFFF {
        Some((0x10000 + (units[0] - 0xD800) * 0x400 + (units[1] - 0xDC00)) as char)
    } else {
        None
    }
}

/// `char::decode_utf16`, asked for its first item only: the scalar value
/// that the code units start with, or nothing where they start with an
/// unpaired surrogate or are empty.
#[verifier::external_body]
fn decode_utf16_first(units: Vec<u16>) -> (scalar: Option<char>)
    ensures
        scalar == utf16_first(units@),
{
    match char::decode_utf16(units).next() {
        Some(Ok(c)) => Some(c),
        _ => None,
    }
}

/// `String::from_utf8`: the text that the bytes encode, where they are
/// well-formed UTF-8, and nothing where they are not.
#[verifier::external_body]
fn text_from_utf8(bytes: Vec<u8>) -> (text: Option<String>)
    ensures
        text is Some <==> valid_utf8(bytes@),
        text matches Some(t) ==> t@ == decode_utf8(bytes@),
{
    String::from_utf8(bytes).ok()
}

/// Taking one character inside a string, where the end of the input is an
/// error.
pub open spec fn string_char(input: Seq<Item>) -> Scan<char> {
    if input.len() == 0 {
        Scan::fail(Failure::UnexpectedStringEnd, 0)
    } else {
        match input[0] {
            Ok(c) => Scan::done(c, 1),
            Err(cause) => Scan::fail(Failure::ReadFailure(cause), 1),
        }
    }
}

/// Taking two characters inside a string.
pub open spec fn string_pair(input: Seq<Item>) -> Scan<(char, char)> {
    match string_char(input).out {
        Err(failure) => Scan::fail(failure, string_char(input).used),
        Ok(first) => match string_char(input.skip(1)).out {
            Err(failure) => Scan::fail(failure, 1 + string_char(input.skip(1)).used),
            Ok(second) => Scan::done((first, second), 2),
        },
    }
}

/// Taking the two hexadecimal digits of a byte.
pub open spec fn byte_digits(input: Seq<Item>) -> Scan<u8> {
    match string_pair(input).out {
        Err(failure) => Scan::fail(failure, string_pair(input).used),
        Ok((high, low)) => match hex_byte(high, low) {
            Some(byte) => Scan::done(byte, 2),
            None => Scan::fail(Failure::UnexpectedCharInByteEscape, 2),
        },
    }
}

/// Taking one more escaped byte: `\x` and two hexadecimal digits.
pub open spec fn continuation(input: Seq<Item>) -> Scan<u8> {
    match string_pair(input).out {
        Err(failure) => Scan::fail(failure, string_pair(input).used),
        Ok((slash, letter)) => if slash == '\\' && (letter == 'x' || letter == 'X') {
            byte_digits(input.skip(2)).after(2)
        } else {
            Scan::fail(Failure::UnexpectedCharInByteEscape, 2)
        },
    }
}

/// Taking `count` escaped bytes in a row.
pub open spec fn continuations(input: Seq<Item>, count: nat) -> Scan<Seq<u8>>
    decreases count,
{
    if count == 0 {
        Scan::done(Seq::empty(), 0)
    } else {
        let before = continuations(input, (count - 1) as nat);
        match before.out {
            Err(failure) => before,
            Ok(bytes) => {
                let last = continuation(input.skip(before.used as int));
                match last.out {
                    Err(failure) => Scan::fail(failure, before.used + last.used),
                    Ok(byte) => Scan::done(bytes.push(byte), before.used + last.used),
                }
            },
        }
    }
}

/// Taking a byte escape, from behind its `\x`: the two digits of a first
/// byte, then as many escaped bytes as the first byte has leading one bits.
/// All of them together must be UTF-8, and the escape stands for the text
/// that they encode.
pub open spec fn byte_escape(input: Seq<Item>) -> Scan<Seq<char>> {
    match byte_digits(input).out {
        Err(failure) => Scan::fail(failure, byte_digits(input).used),
        Ok(first) => {
            let more = continuations(input.skip(2), u8_leading_ones(first) as nat);
            match more.out {
                Err(failure) => Scan::fail(failure, 2 + more.used),
                Ok(bytes) => if valid_utf8(seq![first] + bytes) {
                    Scan::done(decode_utf8(seq![first] + bytes), 2 + more.used)
                } else {
                    Scan::fail(Failure::UnexpectedCharInByteEscape, 2 + more.used)
                },
            }
        },
    }
}

/// Escaped bytes never reach past the input.
pub proof fn lemma_continuations_bounds(input: Seq<Item>, count: nat)
    ensures
        continuations(input, count).used <= input.len(),
    decreases count,
{
    if count > 0 {
        lemma_continuations_bounds(input, (count - 1) as nat);
    }
}

/// Once an escaped byte is missing, asking for more changes nothing.
pub proof fn lemma_continuations_fail(input: Seq<Item>, count: nat, more: nat)
    requires
        count <= more,
        continuations(input, count).out is Err,
    ensures
        continuations(input, more) == continuations(input, count),
    decreases more,
{
    if count < more {
        lemma_continuations_fail(input, count, (more - 1) as nat);
    }
}

/// A byte escape never reaches past the input.
pub proof fn lemma_byte_escape_bounds(input: Seq<Item>)
    ensures
        byte_escape(input).used <= input.len(),
{
    if byte_digits(input).out is Ok {
        lemma_continuations_bounds(input.skip(2), u8_leading_ones(byte_digits(input).out->Ok_0) as nat);
    }
}

/// Taking the four hexadecimal digits of a UTF-16 code unit.
pub open spec fn code_unit(input: Seq<Item>) -> Scan<u16> {
    match string_pair(input).out {
        Err(failure) => Scan::fail(failure, string_pair(input).used),
        Ok((c1, c2)) => match string_pair(input.skip(2)).out {
            Err(failure) => Scan::fail(failure, 2 + string_pair(input.skip(2)).used),
            Ok((c3, c4)) => match hex_unit(c1, c2, c3, c4) {
                Some(unit) => Scan::done(unit, 4),
                None => Scan::fail(Failure::UnexpectedCharInUnicodeEscape, 4),
            },
        },
    }
}

/// Taking a unicode escape, from behind its `\u`: one code unit, which
/// stands for itself unless it is a surrogate; a surrogate needs a second
/// `\u` escape right behind it, and the two must form a pair.
pub open spec fn unicode_escape(input: Seq<Item>) -> Scan<char> {
    match code_unit(input).out {
        Err(failure) => Scan::fail(failure, code_unit(input).used),
        Ok(first) => match utf16_first(seq![first]) {
            Some(c) => Scan::done(c, 4),
            None => match string_pair(input.skip(4)).out {
                Err(failure) => Scan::fail(failure, 4 + string_pair(input.skip(4)).used),
                Ok((slash, letter)) => if slash == '\\' && (letter == 'u' || letter == 'U') {
                    match code_unit(input.skip(6)).out {
                        Err(failure) => Scan::fail(failure, 6 + code_unit(input.skip(6)).used),
                        Ok(second) => match utf16_first(seq![first, second]) {
                            Some(c) => Scan::done(c, 10),
                            None => Scan::fail(Failure::UnexpectedCharInUnicodeEscape, 10),
                        },
                    }
                } else {
                    Scan::fail(Failure::UnexpectedCharInUnicodeEscape, 6)
                },
            },
        },
    }
}

/// A unicode escape never reaches past the input.
pub proof fn lemma_unicode_escape_bounds(input: Seq<Item>)
    ensures
        unicode_escape(input).used <= input.len(),
{
}

/// Taking an escape, from behind its `\`, and the text it stands for.
pub open spec fn escape(input: Seq<Item>) -> Scan<Seq<char>> {
    if input.len() == 0 {
        Scan::fail(Failure::UnexpectedCharEscapeEnd, 0)
    } else {
        match input[0] {
            Err(cause) => Scan::fail(Failure::ReadFailure(cause), 1),
            Ok(letter) => match simple_escape(letter) {
                Some(c) => Scan::done(seq![c], 1),
                None => if letter == 'x' || letter == 'X' {
                    byte_escape(input.skip(1)).after(1)
                } else if letter == 'u' || letter == 'U' {
                    let unicode = unicode_escape(input.skip(1));
                    Scan {
                        out: match unicode.out {
                            Ok(c) => Ok(seq![c]),
                            Err(failure) => Err(failure),
                        },
                        used: 1 + unicode.used,
                    }
                } else {
                    Scan::fail(Failure::UnexpectedCharEscapeEnd, 1)
                },
            },
        }
    }
}

/// An escape never reaches past the input.
pub proof fn lemma_escape_bounds(input: Seq<Item>)
    ensures
        escape(input).used <= input.len(),
{
    if input.len() > 0 && input[0] is Ok {
        let letter = input[0]->Ok_0;
        let rest = input.skip(1);
        if simple_escape(letter) is None {
            if letter == 'x' || letter == 'X' {
                lemma_byte_escape_bounds(rest);
            } else if letter == 'u' || letter == 'U' {
                lemma_unicode_escape_bounds(rest);
            }
        }
    }
}

/// Taking the rest of a string up to and with its closing quote, and the
/// text it holds. A `\` starts an escape; every other character but the
/// closing quote stands for itself.
pub open spec fn string_body(input: Seq<Item>, closing: char) -> Scan<Seq<char>>
    decreases input.len(),
{
    if input.len() == 0 {
        Scan::fail(Failure::UnexpectedStringEnd, 0)
    } else {
        match input[0] {
            Err(cause) => Scan::fail(Failure::ReadFailure(cause), 1),
            Ok(c) => if c == '\\' {
                let escaped = escape(input.skip(1));
                match escaped.out {
                    Err(failure) => Scan::fail(failure, 1 + escaped.used),
                    Ok(text) => {
                        proof {
                            lemma_escape_bounds(input.skip(1));
                        }
                        appended(
                            text,
                            1 + escaped.used,
                            string_body(input.skip((1 + escaped.used) as int), closing),
                        )
                    },
                }
            } else if c == closing {
                Scan::done(Seq::empty(), 1)
            } else {
                appended(seq![c], 1, string_body(input.skip(1), closing))
            },
        }
    }
}

/// The step `body` behind an opening quote, as a string.
pub open spec fn quoted(body: Scan<Seq<char>>) -> Scan<Option<Seq<char>>> {
    Scan {
        out: match body.out {
            Ok(text) => Ok(Some(text)),
            Err(failure) => Err(failure),
        },
        used: 1 + body.used,
    }
}

/// Taking a string: a quote, `"` or `'`, and everything up to and with the
/// next such quote outside an escape. Input that starts otherwise holds no
/// string.
#[verifier::opaque]
pub open spec fn string(input: Seq<Item>) -> Scan<Option<Seq<char>>> {
    match peeked(input).out {
        Err(failure) => Scan::fail(failure, peeked(input).used),
        Ok(Some(quote)) => if quote == '"' || quote == '\'' {
            quoted(string_body(input.skip(1), quote))
        } else {
            Scan::done(None, 0)
        },
        Ok(None) => Scan::done(None, 0),
    }
}

fn next_in_string(stream: &mut CharStream) -> (result: Result<char, ParseError>)
    ensures
        outcome(result) == string_char(old(stream)@).out,
        final(stream)@ == old(stream)@.skip(string_char(old(stream)@).used as int),
{
    assert(stream@.skip(0) =~= stream@);
    match read(stream)? {
        Some(c) => Ok(c),
        None => Err(ParseError::UnexpectedStringEnd),
    }
}

fn read_pair(stream: &mut CharStream) -> (result: Result<(char, char), ParseError>)
    ensures
        outcome(result) == string_pair(old(stream)@).out,
        final(stream)@ == old(stream)@.skip(string_pair(old(stream)@).used as int),
        string_pair(old(stream)@).used <= old(stream)@.len(),
{
    let ghost input = stream@;
    let first = next_in_string(stream)?;
    proof {
        lemma_skip_twice(input, 1, string_char(input.skip(1)).used);
    }
    let second = next_in_string(stream)?;
    Ok((first, second))
}

fn read_byte_digits(stream: &mut CharStream) -> (result: Result<u8, ParseError>)
    ensures
        outcome(result) == byte_digits(old(stream)@).out,
        final(stream)@ == old(stream)@.skip(byte_digits(old(stream)@).used as int),
        byte_digits(old(stream)@).used <= old(stream)@.len(),
{
    let (high, low) = read_pair(stream)?;
    match u8_from_2_hex_chars(high, low) {
        Some(byte) => Ok(byte),
        None => Err(ParseError::UnexpectedCharInByteEscape),
    }
}

fn read_continuation(stream: &mut CharStream) -> (result: Result<u8, ParseError>)
    ensures
        outcome(result) == continuation(old(stream)@).out,
        final(stream)@ == old(stream)@.skip(continuation(old(stream)@).used as int),
        continuation(old(stream)@).used <= old(stream)@.len(),
{
    let ghost input = stream@;
    let (slash, letter) = read_pair(stream)?;
    if !(slash == '\\' && (letter == 'x' || letter == 'X')) {
        return Err(ParseError::UnexpectedCharInByteEscape);
    }
    proof {
        lemma_skip_twice(input, 2, byte_digits(input.skip(2)).used);
    }
    read_byte_digits(stream)
}

fn read_byte_escape(stream: &mut CharStream) -> (result: Result<String, ParseError>)
    ensures
        outcome(result) == byte_escape(old(stream)@).out,
        final(stream)@ == old(stream)@.skip(byte_escape(old(stream)@).used as int),
{
    let ghost input = stream@;
    let first_byte = read_byte_digits(stream)?;
    let ghost tail = stream@;
    let mut bytes: Vec<u8> = Vec::new();
    bytes.push(first_byte);
    let count = first_byte.leading_ones();
    let mut i: u32 = 0;
    assert(tail.skip(0) =~= tail);
    assert(bytes@.skip(1) =~= Seq::<u8>::empty());
    while i < count
        invariant
            input == old(stream)@,
            tail == input.skip(2),
            2 <= input.len(),
            byte_digits(input).out == Ok::<u8, Failure>(first_byte),
            count == u8_leading_ones(first_byte),
            i <= count,
            bytes@.len() == i + 1,
            bytes@[0] == first_byte,
            continuations(tail, i as nat) == Scan::done(bytes@.skip(1), continuations(tail, i as nat).used),
            stream@ == tail.skip(continuations(tail, i as nat).used as int),
        decreases count - i,
    {
        proof {
            lemma_continuations_bounds(tail, i as nat);
            lemma_continuations_bounds(tail, (i + 1) as nat);
            let used = continuations(tail, i as nat).used;
            lemma_skip_twice(tail, used, continuation(tail.skip(used as int)).used);
            lemma_skip_twice(input, 2, continuations(tail, (i + 1) as nat).used);
        }
        let ghost before = bytes@;
        proof {
            if continuations(tail, (i + 1) as nat).out is Err {
                lemma_continuations_fail(tail, (i + 1) as nat, count as nat);
            }
        }
        let byte = read_continuation(stream)?;
        bytes.push(byte);
        i += 1;
        assert(bytes@.skip(1) =~= before.skip(1).push(byte));
    }
    proof {
        lemma_continuations_bounds(tail, count as nat);
        lemma_skip_twice(input, 2, continuations(tail, count as nat).used);
        assert(bytes@ =~= seq![first_byte] + bytes@.skip(1));
    }
    match text_from_utf8(bytes) {
        Some(text) => Ok(text),
        None => Err(ParseError::UnexpectedCharInByteEscape),
    }
}

fn read_code_unit(stream: &mut CharStream) -> (result: Result<u16, ParseError>)
    ensures
        outcome(result) == code_unit(old(stream)@).out,
        final(stream)@ == old(stream)@.skip(code_unit(old(stream)@).used as int),
        code_unit(old(stream)@).used <= old(stream)@.len(),
{
    let ghost input = stream@;
    let (ch1, ch2) = read_pair(stream)?;
    proof {
        lemma_skip_twice(input, 2, string_pair(input.skip(2)).used);
    }
    let (ch3, ch4) = read_pair(stream)?;
    match u16_from_4_hex_chars(ch1, ch2, ch3, ch4) {
        Some(unit) => Ok(unit),
        None => Err(ParseError::UnexpectedCharInUnicodeEscape),
    }
}

fn read_unicode_escape(stream: &mut CharStream) -> (result: Result<char, ParseError>)
    ensures
        outcome(result) == unicode_escape(old(stream)@).out,
        final(stream)@ == old(stream)@.skip(unicode_escape(old(stream)@).used as int),
{
    let ghost input = stream@;
    let first_surrogate = read_code_unit(stream)?;
    let mut alone: Vec<u16> = Vec::new();
    alone.push(first_surrogate);
    assert(alone@ =~= seq![first_surrogate]);
    if let Some(c) = decode_utf16_first(alone) {
        return Ok(c);
    }
    proof {
        lemma_skip_twice(input, 4, string_pair(input.skip(4)).used);
    }
    let (slash, letter) = read_pair(stream)?;
    if !(slash == '\\' && (letter == 'u' || letter == 'U')) {
        return Err(ParseError::UnexpectedCharInUnicodeEscape);
    }
    proof {
        lemma_skip_twice(input, 6, code_unit(input.skip(6)).used);
    }
    let second_surrogate = read_code_unit(stream)?;
    let mut pair: Vec<u16> = Vec::new();
    pair.push(first_surrogate);
    pair.push(second_surrogate);
    assert(pair@ =~= seq![first_surrogate, second_surrogate]);
    match decode_utf16_first(pair) {
        Some(c) => Ok(c),
        None => Err(ParseError::UnexpectedCharInUnicodeEscape),
    }
}

fn one_char(c: char) -> (text: String)
    ensures
        text@ == seq![c],
{
    let mut text = String::new();
    text.push(c);
    assert(text@ =~= seq![c]);
    text
}

fn read_escape(stream: &mut CharStream) -> (result: Result<String, ParseError>)
    ensures
        outcome(result) == escape(old(stream)@).out,
        final(stream)@ == old(stream)@.skip(escape(old(stream)@).used as int),
{
    let ghost input = stream@;
    assert(input.skip(0) =~= input);
    let letter = match read(stream)? {
        Some(letter) => letter,
        None => {
            return Err(ParseError::UnexpectedCharEscapeEnd);
        },
    };
    proof {
        lemma_byte_escape_bounds(input.skip(1));
        lemma_unicode_escape_bounds(input.skip(1));
        lemma_skip_twice(input, 1, byte_escape(input.skip(1)).used);
        lemma_skip_twice(input, 1, unicode_escape(input.skip(1)).used);
    }
    if letter == '"' || letter == '\\' || letter == '\'' {
        Ok(one_char(letter))
    } else if letter == '0' {
        Ok(one_char('\0'))
    } else if letter == 'a' || letter == 'A' {
        Ok(one_char('\x07'))
    } else if letter == 'b' || letter == 'B' {
        Ok(one_char('\x08'))
    } else if letter == 't' || letter == 'T' {
        Ok(one_char('\t'))
    } else if letter == 'n' || letter == 'N' {
        Ok(one_char('\n'))
    } else if letter == 'v' || letter == 'V' {
        Ok(one_char('\x0b'))
    } else if letter == 'f' || letter == 'F' {
        Ok(one_char('\x0c'))
    } else if letter == 'r' || letter == 'R' {
        Ok(one_char('\r'))
    } else if letter == 'x' || letter == 'X' {
        read_byte_escape(stream)
    } else if letter == 'u' || letter == 'U' {
        Ok(one_char(read_unicode_escape(stream)?))
    } else {
        Err(ParseError::UnexpectedCharEscapeEnd)
    }
}

/// A string body never reaches past the input.
pub proof fn lemma_string_body_bounds(input: Seq<Item>, closing: char)
    ensures
        string_body(input, closing).used <= input.len(),
    decreases input.len(),
{
    if input.len() > 0 && input[0] is Ok {
        let c = input[0]->Ok_0;
        if c == '\\' {
            let escaped = escape(input.skip(1));
            lemma_escape_bounds(input.skip(1));
            if escaped.out is Ok {
                lemma_string_body_bounds(input.skip((1 + escaped.used) as int), closing);
            }
        } else if c != closing {
            lemma_string_body_bounds(input.skip(1), closing);
        }
    }
}

/// A string never reaches past the input; one that is there holds its two
/// quotes at least, and where there is none nothing is taken.
pub proof fn lemma_string_bounds(input: Seq<Item>)
    ensures
        string(input).used <= input.len(),
        string(input).out matches Ok(Some(_)) ==> string(input).used >= 2,
        string(input).out == Ok::<Option<Seq<char>>, Failure>(None) ==> string(input).used == 0,
        input.len() == 0 ==> string(input) == Scan::<Option<Seq<char>>>::done(None, 0),
{
    reveal(string);
    if input.len() > 0 && input[0] is Ok {
        lemma_string_body_bounds(input.skip(1), input[0]->Ok_0);
        lemma_string_body_progress(input.skip(1), input[0]->Ok_0);
    }
}

/// A string body that is complete holds its closing quote.
pub proof fn lemma_string_body_progress(input: Seq<Item>, closing: char)
    ensures
        string_body(input, closing).out is Ok ==> string_body(input, closing).used >= 1,
{
}

/// Reads a string, opened and closed by `"` or by `'`, from the stream.
pub fn read_string(stream: &mut CharStream) -> (result: Result<Option<String>, ParseError>)
    ensures
        outcome(result) == string(old(stream)@).out,
        final(stream)@ == old(stream)@.skip(string(old(stream)@).used as int),
{
    let ghost input = stream@;
    proof {
        reveal(string);
        lemma_skip_nothing(input);
    }
    let closing_char = match peek(stream)? {
        Some(c) => if c == '"' || c == '\'' {
            accept(stream)
        } else {
            return Ok(None);
        },
        None => {
            return Ok(None);
        },
    };
    let ghost body = stream@;
    let ghost mut n: nat = 0;
    let mut result = String::new();
    proof {
        lemma_skip_nothing(body);
        lemma_appended_nothing(string_body(body, closing_char));
    }
    loop
        invariant
            input == old(stream)@,
            input.len() > 0,
            body == input.skip(1),
            n <= body.len(),
            stream@ == body.skip(n as int),
            string(input) == quoted(string_body(body, closing_char)),
            string_body(body, closing_char) == appended(
                result@,
                n,
                string_body(stream@, closing_char),
            ),
        decreases body.len() - n,
    {
        let ghost rest = stream@;
        let ghost before = result@;
        proof {
            lemma_string_body_bounds(rest, closing_char);
            lemma_skip_twice(body, n, string_body(rest, closing_char).used);
            lemma_skip_twice(input, 1, n + string_body(rest, closing_char).used);
        }
        let c = next_in_string(stream)?;
        if c == '\\' {
            proof {
                lemma_escape_bounds(rest.skip(1));
                lemma_skip_twice(rest, 1, escape(rest.skip(1)).used);
            }
            let escaped = read_escape(stream)?;
            result.append(escaped.as_str());
            proof {
                let used = 1 + escape(rest.skip(1)).used;
                lemma_skip_twice(body, n, used);
                lemma_appended_twice(
                    before,
                    n,
                    escaped@,
                    used,
                    string_body(rest.skip(used as int), closing_char),
                );
                n = n + used;
            }
        } else if c == closing_char {
            assert(before + Seq::<char>::empty() =~= before);
            return Ok(Some(result));
        } else {
            result.push(c);
            proof {
                lemma_skip_twice(body, n, 1);
                lemma_appended_twice(
                    before,
                    n,
                    seq![c],
                    1,
                    string_body(rest.skip(1), closing_char),
                );
                assert(before.push(c) =~= before + seq![c]);
                n = n + 1;
            }
        }
    }
}

/// Where the input ends within the digits of an escape, or where an
/// escaped byte is due, the string has ended too early.
pub proof fn lemma_cut_escape_is_string_end(input: Seq<Item>)
    requires
        forall|i: int| 0 <= i < input.len() ==> (#[trigger] input[i]) is Ok,
    ensures
        input.len() < 2 ==> byte_digits(input).out == Err::<u8, Failure>(
            Failure::UnexpectedStringEnd,
        ) && continuation(input).out == Err::<u8, Failure>(Failure::UnexpectedStringEnd),
        input.len() < 4 ==> code_unit(input).out == Err::<u16, Failure>(
            Failure::UnexpectedStringEnd,
        ),
{
    if input.len() >= 2 {
        let rest = input.skip(2);
        assert(forall|i: int| 0 <= i < rest.len() ==> rest[i] == input[i + 2]);
        if rest.len() == 1 {
            assert(rest[0] == input[2]);
        }
    }
    if input.len() == 1 {
        assert(input.skip(1).len() == 0);
    }
}

/// A byte escape stands for text only where its first byte has no leading
/// one bit, or two, three or four of them: a first byte with one leading
/// one bit or with more than four starts no UTF-8, whatever bytes follow.
pub proof fn lemma_byte_escape_needs_a_first_byte(input: Seq<Item>)
    requires
        byte_digits(input).out matches Ok(first) && (u8_leading_ones(first) == 1
            || u8_leading_ones(first) > 4),
    ensures
        byte_escape(input).out is Err,
{
    let first = byte_digits(input).out->Ok_0;
    let ones = u8_leading_ones(first);
    vstd::std_specs::bits::axiom_u8_leading_ones(first);
    let more = continuations(input.skip(2), ones as nat);
    if more.out is Ok {
        let bytes = seq![first] + more.out->Ok_0;
        assert(bytes[0] == first);
        if ones == 1 {
            assert((first >> 7u8) & 1u8 == 1u8);
            assert((first >> 6u8) & 1u8 == 0u8);
            assert(0x80 <= first <= 0xbf) by (bit_vector)
                requires
                    (first >> 7u8) & 1u8 == 1u8,
                    (first >> 6u8) & 1u8 == 0u8,
            ;
        } else {
            assert((first >> 7u8) & 1u8 == 1u8);
            assert((first >> 6u8) & 1u8 == 1u8);
            assert((first >> 5u8) & 1u8 == 1u8);
            assert((first >> 4u8) & 1u8 == 1u8);
            assert((first >> 3u8) & 1u8 == 1u8);
            assert(first >= 0xf8) by (bit_vector)
                requires
                    (first >> 7u8) & 1u8 == 1u8,
                    (first >> 6u8) & 1u8 == 1u8,
                    (first >> 5u8) & 1u8 == 1u8,
                    (first >> 4u8) & 1u8 == 1u8,
                    (first >> 3u8) & 1u8 == 1u8,
            ;
        }
        assert(!vstd::utf8::valid_first_scalar(bytes));
        assert(!valid_utf8(bytes));
    }
}

} // verus!
