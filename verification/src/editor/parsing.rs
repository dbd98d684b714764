//! The command words and number arguments typed into the editor.
use vstd::prelude::*;
use vstd::string::StringSliceAdditionalSpecFns;
use vstd::utf8::*;

use crate::editor::{char_digit, to_digit, SbyteError};
use crate::text::{chars_of, push_char};
use std::num::ParseIntError;

verus! {

#[verifier::external_type_specification]
#[verifier::external_body]
pub struct ExParseIntError(std::num::ParseIntError);

/// A character that ends a word or opens a quoted one.
pub open spec fn is_delimiter(c: char) -> bool {
    c == ' ' || c == '"' || c == '\''
}

/// Where the word splitter stands: the words so far, the word being read,
/// the character that will close it (a space for a bare word) and whether
/// the last character was a backslash.
pub type WordState = (Seq<Seq<char>>, Seq<char>, Option<char>, bool);

/// The word splitter after reading `c`. Inside a word a backslash escapes
/// the next character (kept with its backslash unless it is a space or a
/// quote) and the closing character ends the word; between words a quote
/// opens a quoted word and any other character but a space starts a bare
/// one.
pub open spec fn word_step(st: WordState, c: char) -> WordState {
    let words = st.0;
    let word = st.1;
    match st.2 {
        Some(o) => if !st.3 {
            if c == '\\' {
                (words, word, st.2, true)
            } else if is_delimiter(c) && c == o {
                (
                    if word.len() > 0 {
                        words.push(word)
                    } else {
                        words
                    },
                    seq![],
                    None,
                    false,
                )
            } else {
                (words, word.push(c), st.2, false)
            }
        } else {
            let w = if is_delimiter(c) {
                word
            } else {
                word.push('\\')
            };
            (words, w.push(c), st.2, false)
        },
        None => if st.3 {
            let w = if is_delimiter(c) {
                word
            } else {
                word.push('\\')
            };
            (words, w.push(c), Some(' '), false)
        } else if c == '\\' {
            (words, word, None, true)
        } else if c != ' ' {
            if c != '"' && c != '\'' {
                (words, word.push(c), Some(' '), false)
            } else {
                (words, word, Some(c), false)
            }
        } else {
            st
        },
    }
}

/// The word splitter after the first `n` characters of `s`.
pub open spec fn words_after(s: Seq<char>, n: nat) -> WordState
    decreases n,
{
    if n == 0 || n > s.len() {
        (seq![], seq![], None, false)
    } else {
        word_step(words_after(s, (n - 1) as nat), s[n - 1])
    }
}

/// The words of `s`: split at spaces, with quoted words and escapes.
pub open spec fn split_words(s: Seq<char>) -> Seq<Seq<char>> {
    let st = words_after(s, s.len());
    if st.1.len() > 0 {
        st.0.push(st.1)
    } else {
        st.0
    }
}

/// Splits what was typed into words: spaces separate words, `"` and `'`
/// quote words that hold spaces, and a backslash escapes the next
/// character.
pub fn parse_words(input_string: &str) -> (r: Vec<String>)
    ensures
        r@.map_values(|w: String| w@) == split_words(input_string@),
{
    let chars = chars_of(input_string);
    let ghost s = input_string@;
    let mut output: Vec<String> = Vec::new();
    let mut working_word = String::new();
    let mut opener: Option<char> = None;
    let mut is_escaped = false;
    let mut i: usize = 0;
    while i < chars.len()
        invariant
            chars@ == s,
            i <= s.len(),
            words_after(s, i as nat) == (
                output@.map_values(|w: String| w@),
                working_word@,
                opener,
                is_escaped,
            ),
        decreases s.len() - i,
    {
        let c = chars[i];
        let ghost before = output@;
        proof {
            assert(words_after(s, (i + 1) as nat) == word_step(words_after(s, i as nat), c));
        }
        match opener {
            Some(o_c) => {
                if !is_escaped {
                    if c == '\\' {
                        is_escaped = true;
                    } else if (c == ' ' || c == '"' || c == '\'') && c == o_c {
                        opener = None;
                        if !working_word.as_str().is_empty() {
                            output.push(working_word.clone());
                            proof {
                                assert(output@.map_values(|w: String| w@) =~= before.map_values(
                                    |w: String| w@,
                                ).push(working_word@));
                            }
                        }
                        working_word = String::new();
                    } else {
                        push_char(&mut working_word, c);
                    }
                } else {
                    if !(c == ' ' || c == '"' || c == '\'') {
                        push_char(&mut working_word, '\\');
                    }
                    push_char(&mut working_word, c);
                    is_escaped = false;
                }
            },
            None => {
                if is_escaped {
                    if !(c == ' ' || c == '"' || c == '\'') {
                        push_char(&mut working_word, '\\');
                    }
                    opener = Some(' ');
                    push_char(&mut working_word, c);
                    is_escaped = false;
                } else {
                    if c == '\\' {
                        is_escaped = true;
                    } else if c != ' ' {
                        if c != '"' && c != '\'' {
                            opener = Some(' ');
                            push_char(&mut working_word, c);
                        } else {
                            opener = Some(c);
                        }
                    }
                }
            },
        }
        i += 1;
    }
    if !working_word.as_str().is_empty() {
        let ghost before = output@;
        output.push(working_word.clone());
        proof {
            assert(output@.map_values(|w: String| w@) =~= before.map_values(|w: String| w@).push(
                working_word@,
            ));
        }
    }
    output
}

/// The digits `from_str_radix` reads: the text without a leading `+`.
pub open spec fn radix_digits(s: Seq<char>) -> Seq<char> {
    if s.len() > 0 && s[0] == '+' {
        s.drop_first()
    } else {
        s
    }
}

/// Whether `s` is an optional `+` and one or more digits of base `radix`.
pub open spec fn parses_in(s: Seq<char>, radix: u32) -> bool {
    let d = radix_digits(s);
    &&& d.len() > 0
    &&& forall|i: int| 0 <= i < d.len() ==> char_digit(#[trigger] d[i], radix) is Some
}

/// The number the base-`radix` digits `d` spell, most significant first.
pub open spec fn digits_number(d: Seq<char>, radix: u32) -> nat
    decreases d.len(),
{
    if d.len() == 0 {
        0
    } else {
        (digits_number(d.drop_last(), radix) * radix + match char_digit(d.last(), radix) {
            Some(v) => v as nat,
            None => 0,
        }) as nat
    }
}

/// `usize::from_str_radix`: its documentation reads the text as an
/// optional `+` followed by one or more digits (`0-9`, `a-z`, `A-Z` below
/// the radix) and fails on anything else or on a value past `usize::MAX`.
/// It panics for a radix outside 2..=36, which `requires` leaves out.
#[verifier::external_body]
fn usize_from_str_radix(s: &str, radix: u32) -> (r: Result<usize, ParseIntError>)
    requires
        2 <= radix <= 36,
    ensures
        match r {
            Ok(v) => parses_in(s@, radix) && v == digits_number(radix_digits(s@), radix),
            Err(_) => !parses_in(s@, radix) || digits_number(radix_digits(s@), radix) > usize::MAX,
        },
{
    usize::from_str_radix(s, radix)
}

/// The base a number argument is written in: `\b` binary, `\x`
/// hexadecimal, otherwise decimal (the marker counts only in front of
/// more text).
pub open spec fn integer_radix(b: Seq<u8>) -> u32 {
    if b.len() > 2 && b[0] == 92 {
        if b[1] == 98 {
            2
        } else if b[1] == 120 {
            16
        } else {
            10
        }
    } else {
        10
    }
}

/// The text of a number argument after its two-byte base marker, if it
/// has one.
pub open spec fn integer_text(s: Seq<char>) -> Seq<char> {
    let b = encode_utf8(s);
    if b.len() > 2 && b[0] == 92 {
        decode_utf8(b.subrange(2, b.len() as int))
    } else {
        s
    }
}

/// Whether the marker of a number argument can be cut off: a text longer
/// than two bytes that starts with a backslash must not have its third
/// byte inside a character.
pub open spec fn integer_cuttable(s: Seq<char>) -> bool {
    let b = encode_utf8(s);
    b.len() > 2 && b[0] == 92 ==> is_char_boundary(b, 2)
}

/// The text `s` without its first `at` bytes (cut on a character boundary).
fn text_after(s: &str, at: usize) -> (r: &str)
    requires
        is_char_boundary(s.spec_bytes(), at as int),
    ensures
        r@ == decode_utf8(encode_utf8(s@).subrange(at as int, encode_utf8(s@).len() as int)),
{
    let (_, rest) = s.split_at(at);
    proof {
        encode_utf8_decode_utf8(rest@);
    }
    rest
}

/// What reading the number argument `s` gives: its digits in the base its
/// marker names, read as a number, when they are digits of that base and
/// the number fits a `usize`; an error otherwise.
pub open spec fn reads_integer(s: Seq<char>, r: Result<usize, ParseIntError>) -> bool {
    let radix = integer_radix(encode_utf8(s));
    let text = integer_text(s);
    &&& r is Ok <==> parses_in(text, radix) && digits_number(radix_digits(text), radix) <= usize::MAX
    &&& r matches Ok(v) ==> v == digits_number(radix_digits(text), radix)
}

/// Reads a number argument: decimal, or binary after `\b`, or hexadecimal
/// after `\x` (any other character after a backslash: decimal).
pub fn string_to_integer(input_string: &str) -> (r: Result<usize, ParseIntError>)
    requires
        integer_cuttable(input_string@),
    ensures
        reads_integer(input_string@, r),
{
    let input_bytes = input_string.as_bytes();
    let mut radix: u32 = 10;
    let marked = input_bytes.len() > 2 && input_bytes[0] == 92;
    if marked {
        if input_bytes[1] == 98 {
            radix = 2;
        } else if input_bytes[1] == 120 {
            radix = 16;
        }
        usize_from_str_radix(text_after(input_string, 2), radix)
    } else {
        usize_from_str_radix(input_string, radix)
    }
}

/// The minimal big-endian bytes of `n` (none for 0).
pub open spec fn big_endian_bytes(n: nat) -> Seq<u8>
    decreases n,
{
    if n == 0 {
        seq![]
    } else {
        big_endian_bytes(n / 256).push((n % 256) as u8)
    }
}

/// The base a bytes argument is written in: `\b` binary, `\d` decimal,
/// `\x` hexadecimal, or 0 for raw text.
pub open spec fn bytes_radix(b: Seq<u8>) -> u32 {
    if b.len() > 2 && b[0] == 92 {
        if b[1] == 98 {
            2
        } else if b[1] == 100 {
            10
        } else if b[1] == 120 {
            16
        } else {
            0
        }
    } else {
        0
    }
}

/// A text whose first two characters are ASCII can be cut after them.
pub(crate) proof fn lemma_ascii_pair_boundary(b: Seq<u8>)
    requires
        valid_utf8(b),
        b.len() > 2,
        b[0] < 128,
        b[1] < 128,
    ensures
        is_char_boundary(b, 2),
{
    is_char_boundary_iff_not_is_continuation_byte(b, 2);
    if is_continuation_byte(b[2]) {
        reveal_with_fuel(valid_utf8, 3);
        let b1 = pop_first_scalar(b);
        assert(b1 =~= b.subrange(1, b.len() as int));
        let b2 = pop_first_scalar(b1);
        assert(b2 =~= b.subrange(2, b.len() as int));
        assert(valid_first_scalar(b2));
        assert(false);
    }
}

/// What reading the bytes argument `s` gives: after `\b`, `\d` or `\x`
/// the big-endian bytes of the number written (one zero byte for 0), or
/// the error for that base when it is not a number that fits a `usize`;
/// without such a marker, the text's own bytes.
pub open spec fn reads_bytes(s: Seq<char>, r: Result<Vec<u8>, SbyteError>) -> bool {
    let b = encode_utf8(s);
    let radix = bytes_radix(b);
    let text = decode_utf8(b.subrange(2, b.len() as int));
    let n = digits_number(radix_digits(text), radix);
    &&& radix == 0 ==> (r matches Ok(v) && v@ == b)
    &&& radix != 0 && parses_in(text, radix) && n <= usize::MAX ==> (r matches Ok(v) && v@ == if n == 0 {
        seq![0u8]
    } else {
        big_endian_bytes(n)
    })
    &&& radix != 0 && !(parses_in(text, radix) && n <= usize::MAX) ==> match radix {
        16 => r matches Err(SbyteError::InvalidHexidecimal(m)) && m@ == s,
        2 => r matches Err(SbyteError::InvalidBinary(m)) && m@ == s,
        _ => r matches Err(SbyteError::InvalidDecimal(m)) && m@ == s,
    }
}

/// Reads a bytes argument: `\b`, `\d` or `\x` and a number give its
/// big-endian bytes (one zero byte for 0), anything else its text's bytes.
pub fn string_to_bytes(input_string: &str) -> (r: Result<Vec<u8>, SbyteError>)
    ensures
        reads_bytes(input_string@, r),
{
    let input_bytes = input_string.as_bytes();
    proof {
        encode_utf8_valid_utf8(input_string@);
    }
    let mut radix: u32 = 0;
    if input_bytes.len() > 2 && input_bytes[0] == 92 {
        if input_bytes[1] == 98 {
            radix = 2;
        } else if input_bytes[1] == 100 {
            radix = 10;
        } else if input_bytes[1] == 120 {
            radix = 16;
        }
    }
    if radix != 0 {
        proof {
            lemma_ascii_pair_boundary(input_bytes@);
        }
        match usize_from_str_radix(text_after(input_string, 2), radix) {
            Ok(number) => {
                if number == 0 {
                    let mut zero: Vec<u8> = Vec::new();
                    zero.push(0);
                    Ok(zero)
                } else {
                    let mut bytes: Vec<u8> = Vec::new();
                    let mut rest = number;
                    while rest > 0
                        invariant
                            big_endian_bytes(number as nat) == big_endian_bytes(rest as nat) + bytes@,
                        decreases rest,
                    {
                        let ghost before = bytes@;
                        bytes.insert(0, (rest % 256) as u8);
                        proof {
                            assert(big_endian_bytes(rest as nat) == big_endian_bytes((rest / 256) as nat).push(
                                (rest % 256) as u8,
                            ));
                            assert(bytes@ =~= seq![(rest % 256) as u8] + before);
                            assert(big_endian_bytes((rest / 256) as nat).push((rest % 256) as u8) + before
                                =~= big_endian_bytes((rest / 256) as nat) + bytes@);
                        }
                        rest = rest / 256;
                    }
                    proof {
                        assert(big_endian_bytes(0) + bytes@ =~= bytes@);
                    }
                    Ok(bytes)
                }
            },
            Err(_) => {
                if radix == 16 {
                    Err(SbyteError::InvalidHexidecimal(input_string.to_owned()))
                } else if radix == 2 {
                    Err(SbyteError::InvalidBinary(input_string.to_owned()))
                } else {
                    Err(SbyteError::InvalidDecimal(input_string.to_owned()))
                }
            },
        }
    } else {
        let mut out: Vec<u8> = Vec::new();
        let mut k: usize = 0;
        while k < input_bytes.len()
            invariant
                k <= input_bytes@.len(),
                out@ =~= input_bytes@.subrange(0, k as int),
            decreases input_bytes@.len() - k,
        {
            out.push(input_bytes[k]);
            k += 1;
        }
        proof {
            assert(input_bytes@.subrange(0, input_bytes@.len() as int) =~= input_bytes@);
        }
        Ok(out)
    }
}

} // verus!
