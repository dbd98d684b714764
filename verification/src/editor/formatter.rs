//! How bytes are shown: as hexadecimal, binary or decimal digits in the
//! numeric view, and as text in the text view.
use vstd::prelude::*;

verus! {

#[derive(PartialEq, Clone, Copy, Debug, Eq)]
pub enum FormatterRef {
    HEX,
    BIN,
    DEC,
}

#[derive(Debug, PartialEq, Eq)]
pub enum FormatterError {
    InvalidDigit(FormatterRef),
}

#[derive(Debug, PartialEq, Eq)]
pub enum FormatterResponse {
    Done,
    Next(usize),
    Failure,
}

/// The digit characters `0-9A-F`, as ASCII.
pub open spec fn hex_digit(n: int) -> u8 {
    if n < 10 { (48 + n) as u8 } else { (55 + n) as u8 }
}

/// The value of an upper-case hexadecimal digit character, if it is one.
pub open spec fn hex_digit_value(c: u8) -> Option<u8> {
    if 48 <= c <= 57 {
        Some((c - 48) as u8)
    } else if 65 <= c <= 70 {
        Some((c - 55) as u8)
    } else {
        None
    }
}

/// The value of a decimal digit character, if it is one.
pub open spec fn dec_digit_value(c: u8) -> Option<u8> {
    if 48 <= c <= 57 { Some((c - 48) as u8) } else { None }
}

/// A byte as two upper-case hexadecimal digits.
pub open spec fn hex_rendering(b: u8) -> Seq<u8> {
    seq![hex_digit((b / 16) as int), hex_digit((b % 16) as int)]
}

/// The character for bit `i` of `b`.
pub open spec fn bit_char(b: u8, i: u8) -> u8 {
    if b & (1u8 << i) == 0 { 48u8 } else { 49u8 }
}

/// A byte as eight binary digits, most significant first.
pub open spec fn binary_rendering(b: u8) -> Seq<u8> {
    Seq::new(8, |k: int| bit_char(b, (7 - k) as u8))
}

/// A byte as three decimal digits.
pub open spec fn decimal_rendering(b: u8) -> Seq<u8> {
    seq![(48 + (b / 100) % 10) as u8, (48 + (b / 10) % 10) as u8, (48 + b % 10) as u8]
}

/// A byte as text: printable ASCII as itself, a line feed as the UTF-8
/// encoding of a return arrow, anything else as a dot.
pub open spec fn human_rendering(b: u8) -> Seq<u8> {
    if b == 10 {
        seq![226u8, 134u8, 178u8]
    } else if b <= 31 || b >= 127 {
        seq![46u8]
    } else {
        seq![b]
    }
}

/// The decimal digits of `n`, least significant first.
pub open spec fn reversed_decimal(n: nat) -> Seq<u8>
    decreases n,
{
    if n < 10 {
        seq![(48 + n) as u8]
    } else {
        seq![(48 + n % 10) as u8] + reversed_decimal(n / 10)
    }
}

/// How a byte is shown in one of the numeric views.
pub trait Formatter {
    spec fn rendering(&self, byte: u8) -> Seq<u8>;

    spec fn base(&self) -> u8;

    /// Return a list of bytes to display.
    fn read_in(&self, next_byte: u8) -> (r: Vec<u8>)
        ensures
            r@ == self.rendering(next_byte),
    ;

    fn radix(&self) -> (r: u8)
        ensures
            r == self.base(),
    ;
}

/// How a byte is shown in the text view.
pub trait HumanFormatter {
    spec fn rendering(&self, byte: u8) -> Seq<u8>;

    fn read_in(&self, next_byte: u8) -> (r: (Vec<u8>, FormatterResponse))
        ensures
            r.0@ == self.rendering(next_byte),
            r.1 == FormatterResponse::Done,
    ;
}

pub struct HexFormatter {}

pub struct BinaryFormatter {}

pub struct DecFormatter {}

pub struct OneToOneFormatter {}

fn hex_digit_char(n: u8) -> (r: u8)
    requires
        n < 16,
    ensures
        r == hex_digit(n as int),
{
    if n < 10 { 48 + n } else { 55 + n }
}

impl HexFormatter {
    fn hex_char_to_dec_int(&self, hex_char: u8) -> (r: Result<u8, FormatterError>)
        ensures
            r == match hex_digit_value(hex_char) {
                Some(v) => Ok::<u8, FormatterError>(v),
                None => Err::<u8, FormatterError>(FormatterError::InvalidDigit(FormatterRef::HEX)),
            },
    {
        if 48 <= hex_char && hex_char <= 57 {
            Ok(hex_char - 48)
        } else if 65 <= hex_char && hex_char <= 70 {
            Ok(hex_char - 55)
        } else {
            Err(FormatterError::InvalidDigit(FormatterRef::HEX))
        }
    }

    fn encode_byte(&self, byte: u8) -> (r: Vec<u8>)
        ensures
            r@ == hex_rendering(byte),
    {
        let mut output = Vec::new();
        output.push(hex_digit_char(byte / 16));
        output.push(hex_digit_char(byte % 16));
        output
    }
}

impl Formatter for HexFormatter {
    open spec fn rendering(&self, byte: u8) -> Seq<u8> {
        hex_rendering(byte)
    }

    open spec fn base(&self) -> u8 {
        16
    }

    fn read_in(&self, next_byte: u8) -> (r: Vec<u8>) {
        self.encode_byte(next_byte)
    }

    fn radix(&self) -> (r: u8) {
        16
    }
}

impl BinaryFormatter {
    fn encode_byte(&self, byte: u8) -> (r: Vec<u8>)
        ensures
            r@ == binary_rendering(byte),
    {
        let mut output: Vec<u8> = Vec::new();
        let mut i: u8 = 0;
        while i < 8
            invariant
                i <= 8,
                output@ =~= Seq::new(i as nat, |k: int| bit_char(byte, (i - 1 - k) as u8)),
            decreases 8 - i,
        {
            let c = if byte & (1u8 << i) == 0 { 48u8 } else { 49u8 };
            output.insert(0, c);
            i += 1;
        }
        output
    }
}

impl Formatter for BinaryFormatter {
    open spec fn rendering(&self, byte: u8) -> Seq<u8> {
        binary_rendering(byte)
    }

    open spec fn base(&self) -> u8 {
        2
    }

    fn read_in(&self, next_byte: u8) -> (r: Vec<u8>) {
        self.encode_byte(next_byte)
    }

    fn radix(&self) -> (r: u8) {
        2
    }
}

fn dec_char_value(dec_char: u8) -> (r: Result<u8, FormatterError>)
    ensures
        r == match dec_digit_value(dec_char) {
            Some(v) => Ok::<u8, FormatterError>(v),
            None => Err::<u8, FormatterError>(FormatterError::InvalidDigit(FormatterRef::DEC)),
        },
{
    if 48 <= dec_char && dec_char <= 57 {
        Ok(dec_char - 48)
    } else {
        Err(FormatterError::InvalidDigit(FormatterRef::DEC))
    }
}

impl DecFormatter {
    fn dec_char_to_dec_int(&self, hex_char: u8) -> (r: Result<u8, FormatterError>)
        ensures
            r == match dec_digit_value(hex_char) {
                Some(v) => Ok::<u8, FormatterError>(v),
                None => Err::<u8, FormatterError>(FormatterError::InvalidDigit(FormatterRef::DEC)),
            },
    {
        dec_char_value(hex_char)
    }

    fn encode_byte(&self, byte: u8) -> (r: Vec<u8>)
        ensures
            r@ == decimal_rendering(byte),
    {
        let mut output = Vec::new();
        output.push(48 + (byte / 100) % 10);
        output.push(48 + (byte / 10) % 10);
        output.push(48 + byte % 10);
        output
    }
}

impl Formatter for DecFormatter {
    open spec fn rendering(&self, byte: u8) -> Seq<u8> {
        decimal_rendering(byte)
    }

    open spec fn base(&self) -> u8 {
        10
    }

    fn read_in(&self, next_byte: u8) -> (r: Vec<u8>) {
        self.encode_byte(next_byte)
    }

    fn radix(&self) -> (r: u8) {
        10
    }
}

impl OneToOneFormatter {
    fn dec_char_to_dec_int(&self, dec_char: u8) -> (r: Result<u8, FormatterError>)
        ensures
            r == match dec_digit_value(dec_char) {
                Some(v) => Ok::<u8, FormatterError>(v),
                None => Err::<u8, FormatterError>(FormatterError::InvalidDigit(FormatterRef::DEC)),
            },
    {
        dec_char_value(dec_char)
    }

    fn encode_byte(&self, byte: u8) -> (r: Vec<u8>)
        ensures
            r@ == human_rendering(byte),
    {
        let mut output = Vec::new();
        if byte == 10 {
            output.push(226);
            output.push(134);
            output.push(178);
        } else if byte <= 31 {
            output.push(46);
        } else if byte >= 127 {
            output.push(46);
        } else {
            output.push(byte);
        }
        output
    }

    /// The decimal digits of `integer`, least significant first.
    fn encode_integer(&self, integer: usize) -> (r: Vec<u8>)
        ensures
            r@ == reversed_decimal(integer as nat),
    {
        let mut integer = integer;
        let ghost n0 = integer as nat;
        let mut did_first_pass = false;
        let mut output: Vec<u8> = Vec::new();
        while integer > 0 || !did_first_pass
            invariant
                did_first_pass ==> output@ + (if integer > 0 {
                    reversed_decimal(integer as nat)
                } else {
                    Seq::<u8>::empty()
                }) =~= reversed_decimal(n0),
                !did_first_pass ==> integer == n0 && output@.len() == 0,
            decreases integer, if did_first_pass { 0int } else { 1int },
        {
            let test_byte = integer % 10;
            output.push(48 + test_byte as u8);
            proof {
                if integer >= 10 {
                    assert(reversed_decimal(integer as nat) =~= seq![(48 + integer % 10) as u8]
                        + reversed_decimal((integer / 10) as nat));
                }
            }
            integer /= 10;
            did_first_pass = true;
        }
        output
    }
}

impl HumanFormatter for OneToOneFormatter {
    open spec fn rendering(&self, byte: u8) -> Seq<u8> {
        human_rendering(byte)
    }

    fn read_in(&self, next_byte: u8) -> (r: (Vec<u8>, FormatterResponse)) {
        (self.encode_byte(next_byte), FormatterResponse::Done)
    }
}

} // verus!

verus! {

/// A formatter reference dispatches to the formatter it names.
impl Formatter for FormatterRef {
    open spec fn rendering(&self, byte: u8) -> Seq<u8> {
        match self {
            FormatterRef::HEX => hex_rendering(byte),
            FormatterRef::BIN => binary_rendering(byte),
            FormatterRef::DEC => decimal_rendering(byte),
        }
    }

    open spec fn base(&self) -> u8 {
        match self {
            FormatterRef::HEX => 16,
            FormatterRef::BIN => 2,
            FormatterRef::DEC => 10,
        }
    }

    fn read_in(&self, next_byte: u8) -> (r: Vec<u8>) {
        match self {
            FormatterRef::HEX => HexFormatter {}.read_in(next_byte),
            FormatterRef::BIN => BinaryFormatter {}.read_in(next_byte),
            FormatterRef::DEC => DecFormatter {}.read_in(next_byte),
        }
    }

    fn radix(&self) -> (r: u8) {
        match self {
            FormatterRef::HEX => 16,
            FormatterRef::BIN => 2,
            FormatterRef::DEC => 10,
        }
    }
}

} // verus!
