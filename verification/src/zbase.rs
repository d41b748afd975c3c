//! Bytes as text: the digits of one of seven alphabets behind a character
//! that names the alphabet.
//!
//! The bytes are read as one number, the first byte the most significant,
//! and written in the radix of the alphabet. A zero byte in front is kept as
//! one zero digit in front, so that no byte is lost on the way back.

use crate::input::chars_of;
use crate::input::deeper;
use crate::input::ErrorKind;
use crate::input::InputLength;
use crate::input::is_suffix;
use crate::input::lemma_skip_is_suffix;
use crate::input::lemma_suffix_of_suffix;
use crate::input::lemma_suffix_whole;
use crate::input::rank;
use crate::input::strip_char;
use crate::input::tail_str;
use crate::radix::convert;
use crate::radix::digits_in;
use crate::radix::lemma_convert_round_trip;
use vstd::prelude::*;
use vstd::slice::slice_subrange;
use vstd::string::StringExecFns;

verus! {

/// One of the seven alphabets.
#[derive(Clone, Copy, Debug, PartialEq, Eq, Structural)]
pub enum ZBase {
    Z2,
    Z8,
    Z10,
    Z16,
    Z32,
    Z58,
    Z64,
}

impl Default for ZBase {
    fn default() -> (base: Self)
        ensures
            base == ZBase::Z32,
    {
        ZBase::Z32
    }
}

/// Why a text could not be read as digits, with the text that was left where
/// reading stopped.
#[derive(Clone, Debug, PartialEq, Eq)]
pub enum ZBaseError<I> {
    /// A character is no digit of the alphabet.
    InvalidEncoding(I, ZBase),
    /// A plain failure of the given kind.
    NomErr(I, ErrorKind),
}

impl<I: View> View for ZBaseError<I> {
    type V = ZBaseError<I::V>;

    open spec fn view(&self) -> ZBaseError<I::V> {
        match self {
            ZBaseError::InvalidEncoding(i, base) => ZBaseError::InvalidEncoding(i@, *base),
            ZBaseError::NomErr(i, kind) => ZBaseError::NomErr(i@, *kind),
        }
    }
}

impl<I> ZBaseError<I> {
    /// The input that was left where reading stopped.
    pub open spec fn spec_rest(self) -> I {
        match self {
            ZBaseError::InvalidEncoding(i, _) => i,
            ZBaseError::NomErr(i, _) => i,
        }
    }

    /// The input that was left where reading stopped.
    pub fn rest(self) -> (i: I)
        ensures
            i == self.spec_rest(),
    {
        match self {
            ZBaseError::InvalidEncoding(i, _) => i,
            ZBaseError::NomErr(i, _) => i,
        }
    }

    /// The plain failure of a kind at an input.
    pub fn from_error_kind(input: I, kind: ErrorKind) -> (e: Self)
        ensures
            e == ZBaseError::NomErr(input, kind),
    {
        ZBaseError::NomErr(input, kind)
    }
}

impl<I: InputLength> ZBaseError<I> {
    /// How much input was left where reading stopped.
    pub open spec fn spec_rest_len(self) -> nat {
        self.spec_rest().spec_input_len()
    }

    fn rest_len(&self) -> (n: usize)
        ensures
            n == self.spec_rest_len(),
    {
        match self {
            ZBaseError::InvalidEncoding(i, _) => i.input_len(),
            ZBaseError::NomErr(i, _) => i.input_len(),
        }
    }

    /// The error of a parser that failed at `i` with kind `k` over an inner
    /// error: the outer one only if it lies deeper in the input than the
    /// inner.
    pub fn append(i: I, k: ErrorKind, other: Self) -> (e: Self)
        ensures
            e == deeper(ZBaseError::NomErr(i, k), i.spec_input_len(), other, other.spec_rest_len()),
    {
        let left = i.input_len();
        let other_left = other.rest_len();
        rank(ZBaseError::NomErr(i, k), left, other, other_left)
    }

    /// Of the errors of two alternatives, the one that lies deeper in the
    /// input; the second where they lie equally deep.
    pub fn or(self, other: Self) -> (e: Self)
        ensures
            e == deeper(self, self.spec_rest_len(), other, other.spec_rest_len()),
    {
        let left = self.rest_len();
        let other_left = other.rest_len();
        rank(self, left, other, other_left)
    }
}

impl<I: Copy> ZBaseError<I> {
    /// The input that was left where reading stopped, without giving the
    /// error up.
    pub fn rest_copy(&self) -> (i: I)
        ensures
            i == self.spec_rest(),
    {
        match self {
            ZBaseError::InvalidEncoding(i, _) => *i,
            ZBaseError::NomErr(i, _) => *i,
        }
    }
}

impl<'a> ZBaseError<&'a [char]> {
    /// The same error over the string that the characters were taken from.
    pub(crate) fn in_str<'b>(self, text: &'b str, total: usize) -> (e: ZBaseError<&'b str>)
        requires
            total == text@.len(),
            is_suffix(self@.spec_rest(), text@),
        ensures
            e@ == self@,
    {
        match self {
            ZBaseError::InvalidEncoding(i, base) => ZBaseError::InvalidEncoding(
                tail_str(text, total, i.len()),
                base,
            ),
            ZBaseError::NomErr(i, kind) => ZBaseError::NomErr(tail_str(text, total, i.len()), kind),
        }
    }
}

/// The place of a digit in an alphabet.
pub open spec fn digit_index(alphabet: Seq<char>, digit: char) -> nat {
    alphabet.index_of(digit) as nat
}

/// Whether every character of the text is a digit of the alphabet.
pub open spec fn all_digits(alphabet: Seq<char>, text: Seq<char>) -> bool {
    forall|i: int| 0 <= i < text.len() ==> alphabet.contains(#[trigger] text[i])
}

/// Bytes as digits of radix 256.
pub open spec fn bytes_as_digits(bytes: Seq<u8>) -> Seq<nat> {
    Seq::new(bytes.len(), |i: int| bytes[i] as nat)
}

/// Digits of radix 256 as bytes.
pub open spec fn digits_as_bytes(digits: Seq<nat>) -> Seq<u8> {
    Seq::new(digits.len(), |i: int| digits[i] as u8)
}

/// Digits written with the characters of an alphabet.
pub open spec fn digits_as_text(alphabet: Seq<char>, digits: Seq<nat>) -> Seq<char> {
    Seq::new(digits.len(), |i: int| alphabet[digits[i] as int])
}

/// The digits that the characters of a text stand for in an alphabet.
pub open spec fn text_as_digits(alphabet: Seq<char>, text: Seq<char>) -> Seq<nat> {
    Seq::new(text.len(), |i: int| digit_index(alphabet, text[i]))
}

/// The text that stands for the bytes in an alphabet: the bytes, as digits
/// of radix 256, carried to the radix of the alphabet and written with its
/// characters.
pub open spec fn encode_digits(alphabet: Seq<char>, bytes: Seq<u8>) -> Seq<char> {
    digits_as_text(alphabet, convert(bytes_as_digits(bytes), 256, alphabet.len()))
}

/// The bytes that a text of digits of an alphabet stands for.
pub open spec fn decode_digits(alphabet: Seq<char>, text: Seq<char>) -> Seq<u8> {
    digits_as_bytes(convert(text_as_digits(alphabet, text), alphabet.len(), 256))
}

/// What is written for some bytes in an alphabet consists of digits of the
/// alphabet and is read back as those bytes.
pub proof fn lemma_digits_round_trip(alphabet: Seq<char>, bytes: Seq<u8>)
    requires
        alphabet.len() >= 2,
        alphabet.no_duplicates(),
    ensures
        all_digits(alphabet, encode_digits(alphabet, bytes)),
        decode_digits(alphabet, encode_digits(alphabet, bytes)) == bytes,
{
    let digits = bytes_as_digits(bytes);
    let radix = alphabet.len();
    let carried = convert(digits, 256, radix);
    let text = digits_as_text(alphabet, carried);
    assert(digits_in(digits, 256));
    lemma_convert_round_trip(digits, 256, radix);
    assert forall|i: int| 0 <= i < text.len() implies alphabet.contains(#[trigger] text[i])
        && digit_index(alphabet, text[i]) == carried[i] by {
        let k = carried[i] as int;
        assert(0 <= k < alphabet.len() && alphabet[k] == text[i]);
    }
    assert(text_as_digits(alphabet, text) =~= carried);
    assert(digits_as_bytes(digits) =~= bytes);
}

/// `base_x::DecodeError`, which `base_x::decode` returns where a character
/// is no digit of the alphabet. Nothing is known of a value of it.
#[verifier::external_type_specification]
#[verifier::external_body]
pub struct ExDecodeError(base_x::DecodeError);

/// Calls `base_x::encode` with an alphabet given as a string.
///
/// Trusted, not proved: for an alphabet of at least two different ASCII
/// characters, the text returned is `encode_digits`. That is: one character
/// `alphabet[0]` for each zero byte in front of the input, then the digits,
/// most significant first and without a zero digit in front, of the number
/// that the input spells as big-endian bytes, each digit `d` written as
/// `alphabet[d]`.
#[verifier::external_body]
fn radix_encode(alphabet: &str, input: &[u8]) -> (text: String)
    requires
        alphabet@.len() >= 2,
        alphabet@.no_duplicates(),
        alphabet.is_ascii(),
    ensures
        text@ == encode_digits(alphabet@, input@),
{
    base_x::encode(alphabet, input)
}

/// Calls `base_x::decode` with an alphabet given as a string, on the text
/// that the characters of `input` make.
///
/// Trusted, not proved: for an alphabet of at least two different ASCII
/// characters, the call fails exactly if some character of the input is not
/// in the alphabet, and otherwise returns `decode_digits`. That is: one zero
/// byte for each character `alphabet[0]` in front of the input, then the
/// big-endian bytes, without a zero byte in front, of the number that the
/// input spells, where a character stands for its place in the alphabet.
#[verifier::external_body]
fn radix_decode(alphabet: &str, input: &[char]) -> (r: Result<Vec<u8>, base_x::DecodeError>)
    requires
        alphabet@.len() >= 2,
        alphabet@.no_duplicates(),
        alphabet.is_ascii(),
    ensures
        r is Ok <==> all_digits(alphabet@, input@),
        r is Ok ==> r->Ok_0@ == decode_digits(alphabet@, input@),
{
    let text: String = input.iter().collect();
    base_x::decode(alphabet, &text)
}

impl ZBase {
    /// The digits of the alphabet, in the order of their worth.
    pub open spec fn alphabet(self) -> Seq<char> {
        match self {
            ZBase::Z2 => "01"@,
            ZBase::Z8 => "01234567"@,
            ZBase::Z10 => "0123456789"@,
            ZBase::Z16 => "0123456789abcdef"@,
            ZBase::Z32 => "ybndrfg8ejkmcpqxot1uwisza345h769"@,
            ZBase::Z58 => "123456789ABCDEFGHJKLMNPQRSTUVWXYZabcdefghijkmnopqrstuvwxyz"@,
            ZBase::Z64 => "ABCDEFGHIJKLMNOPQRSTUVWXYZabcdefghijklmnopqrstuvwxyz0123456789-_"@,
        }
    }

    /// The number of digits of the alphabet.
    pub open spec fn radix(self) -> nat {
        match self {
            ZBase::Z2 => 2,
            ZBase::Z8 => 8,
            ZBase::Z10 => 10,
            ZBase::Z16 => 16,
            ZBase::Z32 => 32,
            ZBase::Z58 => 58,
            ZBase::Z64 => 64,
        }
    }

    /// The character that names the alphabet in front of its digits.
    pub open spec fn spec_code(self) -> char {
        match self {
            ZBase::Z2 => 'b',
            ZBase::Z8 => 'o',
            ZBase::Z10 => 'd',
            ZBase::Z16 => 'x',
            ZBase::Z32 => 'v',
            ZBase::Z58 => 'I',
            ZBase::Z64 => '~',
        }
    }

    /// The alphabet that a character names, if it names one.
    pub open spec fn of_code(c: char) -> Option<ZBase> {
        if c == 'b' {
            Some(ZBase::Z2)
        } else if c == 'o' {
            Some(ZBase::Z8)
        } else if c == 'd' {
            Some(ZBase::Z10)
        } else if c == 'x' {
            Some(ZBase::Z16)
        } else if c == 'v' {
            Some(ZBase::Z32)
        } else if c == 'I' {
            Some(ZBase::Z58)
        } else if c == '~' {
            Some(ZBase::Z64)
        } else {
            None
        }
    }

    /// The name of the alphabet for a reader.
    pub open spec fn name(self) -> Seq<char> {
        match self {
            ZBase::Z2 => "zbase-2"@,
            ZBase::Z8 => "zbase-8"@,
            ZBase::Z10 => "zbase-10"@,
            ZBase::Z16 => "zbase-16"@,
            ZBase::Z32 => "zbase-32"@,
            ZBase::Z58 => "zbase-58"@,
            ZBase::Z64 => "zbase-64"@,
        }
    }

    /// The text that stands for the bytes in this alphabet, without the
    /// character that names the alphabet.
    pub open spec fn spec_encode(self, bytes: Seq<u8>) -> Seq<char> {
        encode_digits(self.alphabet(), bytes)
    }

    /// How many characters at the front of a text are digits of this
    /// alphabet.
    pub open spec fn digit_run(self, text: Seq<char>) -> nat
        decreases text.len(),
    {
        if text.len() > 0 && self.alphabet().contains(text[0]) {
            1 + self.digit_run(text.drop_first())
        } else {
            0
        }
    }

    /// What `decode` gives: the bytes that the digits at the front of the
    /// text stand for, and the text after them. It never fails: a text that
    /// begins with no digit stands for no bytes.
    pub open spec fn spec_decode(self, text: Seq<char>) -> Result<
        (Seq<char>, Seq<u8>),
        ZBaseError<Seq<char>>,
    > {
        let run = self.digit_run(text) as int;
        Ok((text.skip(run), decode_digits(self.alphabet(), text.take(run))))
    }

    /// What `parse_code` gives: the alphabet that the first character names,
    /// and the text after that character.
    pub open spec fn spec_parse_code(text: Seq<char>) -> Result<
        (Seq<char>, ZBase),
        ZBaseError<Seq<char>>,
    > {
        if text.len() > 0 && Self::of_code(text[0]) is Some {
            Ok((text.skip(1), Self::of_code(text[0])->0))
        } else {
            Err(ZBaseError::NomErr(text, ErrorKind::Tag))
        }
    }

    /// Each alphabet has as many digits as its name says, no digit twice,
    /// and only characters of ASCII.
    pub proof fn lemma_alphabet(self)
        ensures
            self.alphabet().len() == self.radix(),
            self.alphabet().no_duplicates(),
            vstd::utf8::is_ascii_chars(self.alphabet()),
    {
        reveal_strlit("01");
        reveal_strlit("01234567");
        reveal_strlit("0123456789");
        reveal_strlit("0123456789abcdef");
        reveal_strlit("ybndrfg8ejkmcpqxot1uwisza345h769");
        reveal_strlit("123456789ABCDEFGHJKLMNPQRSTUVWXYZabcdefghijkmnopqrstuvwxyz");
        reveal_strlit("ABCDEFGHIJKLMNOPQRSTUVWXYZabcdefghijklmnopqrstuvwxyz0123456789-_");
    }

    /// The characters that name the alphabets differ: each names its own
    /// alphabet and no other.
    pub proof fn lemma_code_names(self)
        ensures
            Self::of_code(self.spec_code()) == Some(self),
    {
    }

    /// The digits at the front of a text are digits, and what follows them
    /// is the end of the text or no digit.
    pub proof fn lemma_digit_run(self, text: Seq<char>)
        ensures
            self.digit_run(text) <= text.len(),
            all_digits(self.alphabet(), text.take(self.digit_run(text) as int)),
            self.digit_run(text) < text.len() ==> !self.alphabet().contains(
                text[self.digit_run(text) as int],
            ),
        decreases text.len(),
    {
        if text.len() > 0 && self.alphabet().contains(text[0]) {
            let others = text.drop_first();
            self.lemma_digit_run(others);
            let run = self.digit_run(text) as int;
            assert forall|i: int| 0 <= i < run implies self.alphabet().contains(
                #[trigger] text.take(run)[i],
            ) by {
                if i > 0 {
                    assert(text.take(run)[i] == others.take(run - 1)[i - 1]);
                }
            }
        }
    }

    /// Digits followed by the end or by no digit are the digits at the front.
    pub proof fn lemma_digit_run_of(self, digits: Seq<char>, tail: Seq<char>)
        requires
            all_digits(self.alphabet(), digits),
            tail.len() > 0 ==> !self.alphabet().contains(tail[0]),
        ensures
            self.digit_run(digits + tail) == digits.len(),
        decreases digits.len(),
    {
        let text = digits + tail;
        if digits.len() > 0 {
            assert(text[0] == digits[0]);
            assert(text.drop_first() =~= digits.drop_first() + tail);
            assert forall|i: int| 0 <= i < digits.drop_first().len() implies self.alphabet().contains(
                #[trigger] digits.drop_first()[i],
            ) by {
                assert(digits.drop_first()[i] == digits[i + 1]);
            }
            self.lemma_digit_run_of(digits.drop_first(), tail);
        } else {
            assert(text =~= tail);
        }
    }

    /// The name of the alphabet for a reader.
    pub fn to_string(&self) -> (name: String)
        ensures
            name@ == self.name(),
    {
        match self {
            ZBase::Z2 => String::from_str("zbase-2"),
            ZBase::Z8 => String::from_str("zbase-8"),
            ZBase::Z10 => String::from_str("zbase-10"),
            ZBase::Z16 => String::from_str("zbase-16"),
            ZBase::Z32 => String::from_str("zbase-32"),
            ZBase::Z58 => String::from_str("zbase-58"),
            ZBase::Z64 => String::from_str("zbase-64"),
        }
    }

    /// The character that names the alphabet in front of its digits.
    pub fn code(&self) -> (c: char)
        ensures
            c == self.spec_code(),
    {
        match self {
            ZBase::Z2 => 'b',
            ZBase::Z8 => 'o',
            ZBase::Z10 => 'd',
            ZBase::Z16 => 'x',
            ZBase::Z32 => 'v',
            ZBase::Z58 => 'I',
            ZBase::Z64 => '~',
        }
    }

    /// The digits of the alphabet, in the order of their worth.
    pub fn base_digits(&self) -> (digits: &'static str)
        ensures
            digits@ == self.alphabet(),
    {
        match self {
            ZBase::Z2 => "01",
            ZBase::Z8 => "01234567",
            ZBase::Z10 => "0123456789",
            ZBase::Z16 => "0123456789abcdef",
            ZBase::Z32 => "ybndrfg8ejkmcpqxot1uwisza345h769",
            ZBase::Z58 => "123456789ABCDEFGHJKLMNPQRSTUVWXYZabcdefghijkmnopqrstuvwxyz",
            ZBase::Z64 => "ABCDEFGHIJKLMNOPQRSTUVWXYZabcdefghijklmnopqrstuvwxyz0123456789-_",
        }
    }

    /// Whether the character is a digit of the alphabet.
    pub fn is_digit(&self, x: char) -> (b: bool)
        ensures
            b == self.alphabet().contains(x),
    {
        let digits = self.base_digits();
        let mut found = false;
        for y in it: digits.chars()
            invariant
                it.seq() == digits@,
                found == digits@.take(it.index() as int).contains(x),
        {
            proof {
                let k = it.index() as int;
                let before = digits@.take(k);
                let after = digits@.take(k + 1);
                assert(after =~= before.push(y));
                if before.contains(x) {
                    let j = choose|j: int| 0 <= j < before.len() && before[j] == x;
                    assert(after[j] == x);
                }
                if y == x {
                    assert(after[k] == x);
                }
            }
            found = found || x == y;
        }
        proof {
            assert(digits@.take(digits@.len() as int) =~= digits@);
        }
        found
    }

    /// The text that stands for the bytes in this alphabet, without the
    /// character that names the alphabet.
    pub fn encode(&self, input: &[u8]) -> (text: String)
        ensures
            text@ == self.spec_encode(input@),
    {
        proof {
            self.lemma_alphabet();
        }
        radix_encode(self.base_digits(), input)
    }
}

impl ZBase {
    /// Reads the character that names an alphabet from the front of the
    /// input. The seven names are tried in turn; where none is there, the
    /// failure is the deepest of theirs, which is a missing `Tag` at the
    /// input.
    pub fn parse_code_chars<'a>(i: &'a [char]) -> (r: Result<
        (&'a [char], ZBase),
        ZBaseError<&'a [char]>,
    >)
        ensures
            match r {
                Ok((rest, base)) => Self::spec_parse_code(i@) == Ok::<
                    (Seq<char>, ZBase),
                    ZBaseError<Seq<char>>,
                >((rest@, base)),
                Err(e) => Self::spec_parse_code(i@) == Err::<
                    (Seq<char>, ZBase),
                    ZBaseError<Seq<char>>,
                >(e@),
            },
    {
        let bases = [
            ZBase::Z2,
            ZBase::Z8,
            ZBase::Z10,
            ZBase::Z16,
            ZBase::Z32,
            ZBase::Z58,
            ZBase::Z64,
        ];
        let mut err = ZBaseError::from_error_kind(i, ErrorKind::Tag);
        let mut k: usize = 0;
        while k < 7
            invariant
                k <= 7,
                bases@ == seq![
                    ZBase::Z2,
                    ZBase::Z8,
                    ZBase::Z10,
                    ZBase::Z16,
                    ZBase::Z32,
                    ZBase::Z58,
                    ZBase::Z64,
                ],
                err == ZBaseError::NomErr(i, ErrorKind::Tag),
                forall|j: int| 0 <= j < k ==> !(i@.len() > 0 && i@[0] == bases@[j].spec_code()),
            decreases 7 - k,
        {
            let base = bases[k];
            match strip_char(i, base.code()) {
                Some(rest) => {
                    proof {
                        base.lemma_code_names();
                    }
                    return Ok((rest, base));
                },
                None => {
                    let e = ZBaseError::from_error_kind(i, ErrorKind::Tag);
                    if k == 0 {
                        err = e;
                    } else {
                        err = err.or(e);
                    }
                },
            }
            k += 1;
        }
        proof {
            if i@.len() > 0 {
                assert(i@[0] != bases@[0].spec_code());
                assert(i@[0] != bases@[1].spec_code());
                assert(i@[0] != bases@[2].spec_code());
                assert(i@[0] != bases@[3].spec_code());
                assert(i@[0] != bases@[4].spec_code());
                assert(i@[0] != bases@[5].spec_code());
                assert(i@[0] != bases@[6].spec_code());
            }
        }
        Err(ZBaseError::append(i, ErrorKind::Alt, err))
    }

    /// Reads the digits of this alphabet at the front of the input, as many
    /// as there are, and returns the bytes that they stand for and the input
    /// after them.
    pub fn decode_chars<'a>(&self, input: &'a [char]) -> (r: Result<
        (&'a [char], Vec<u8>),
        ZBaseError<&'a [char]>,
    >)
        ensures
            match r {
                Ok((rest, bytes)) => self.spec_decode(input@) == Ok::<
                    (Seq<char>, Seq<u8>),
                    ZBaseError<Seq<char>>,
                >((rest@, bytes@)),
                Err(e) => false,
            },
    {
        let mut k: usize = 0;
        proof {
            assert(input@.skip(0) =~= input@);
        }
        while k < input.len()
            invariant
                k <= input@.len(),
                self.digit_run(input@) == k + self.digit_run(input@.skip(k as int)),
            ensures
                k <= input@.len(),
                self.digit_run(input@) == k,
            decreases input@.len() - k,
        {
            if !self.is_digit(input[k]) {
                break ;
            }
            proof {
                assert(input@.skip(k as int).drop_first() =~= input@.skip(k + 1));
            }
            k += 1;
        }
        let o = slice_subrange(input, 0, k);
        let i = slice_subrange(input, k, input.len());
        proof {
            self.lemma_alphabet();
            self.lemma_digit_run(input@);
        }
        // Every character of `o` is a digit, so the digits are always read.
        match radix_decode(self.base_digits(), o) {
            Ok(bytes) => Ok((i, bytes)),
            Err(_) => Err(ZBaseError::InvalidEncoding(i, *self)),
        }
    }

    /// Reads the character that names an alphabet from the front of the
    /// text.
    pub fn parse_code<'a>(i: &'a str) -> (r: Result<(&'a str, ZBase), ZBaseError<&'a str>>)
        ensures
            match r {
                Ok((rest, base)) => Self::spec_parse_code(i@) == Ok::<
                    (Seq<char>, ZBase),
                    ZBaseError<Seq<char>>,
                >((rest@, base)),
                Err(e) => Self::spec_parse_code(i@) == Err::<
                    (Seq<char>, ZBase),
                    ZBaseError<Seq<char>>,
                >(e@),
            },
    {
        let chars = chars_of(i);
        proof {
            lemma_parse_code_within(i@);
        }
        match Self::parse_code_chars(chars.as_slice()) {
            Ok((rest, base)) => Ok((tail_str(i, chars.len(), rest.len()), base)),
            Err(e) => Err(e.in_str(i, chars.len())),
        }
    }

    /// Reads the digits of this alphabet at the front of the text, as many
    /// as there are, and returns the bytes that they stand for and the text
    /// after them.
    pub fn decode<'a>(&self, input: &'a str) -> (r: Result<
        (&'a str, Vec<u8>),
        ZBaseError<&'a str>,
    >)
        ensures
            match r {
                Ok((rest, bytes)) => self.spec_decode(input@) == Ok::<
                    (Seq<char>, Seq<u8>),
                    ZBaseError<Seq<char>>,
                >((rest@, bytes@)),
                Err(e) => false,
            },
    {
        let chars = chars_of(input);
        proof {
            self.lemma_digit_run(input@);
        }
        match self.decode_chars(chars.as_slice()) {
            Ok((rest, bytes)) => Ok((tail_str(input, chars.len(), rest.len()), bytes)),
            Err(e) => Err(e.in_str(input, chars.len())),
        }
    }
}

/// What `parse` gives: the alphabet that the first character names and the
/// bytes that the digits after it stand for, with the text that follows the
/// digits.
pub open spec fn spec_parse(text: Seq<char>) -> Result<
    (Seq<char>, (ZBase, Seq<u8>)),
    ZBaseError<Seq<char>>,
> {
    match ZBase::spec_parse_code(text) {
        Err(e) => Err(e),
        Ok((rest, base)) => match base.spec_decode(rest) {
            Err(e) => Err(e),
            Ok((rest, bytes)) => Ok((rest, (base, bytes))),
        },
    }
}

/// What `encode` gives: the character that names the alphabet, then the
/// digits that stand for the bytes.
pub open spec fn spec_encode(base: ZBase, bytes: Seq<u8>) -> Seq<char> {
    seq![base.spec_code()] + base.spec_encode(bytes)
}

/// What `decode` gives for a whole text: the alphabet that the first
/// character names and the bytes that the rest of the text stands for. It
/// fails on an empty text, on a first character that names no alphabet, with
/// the text after that character, and on a character that is no digit of
/// the alphabet, with the text from that character on.
pub open spec fn spec_decode(text: Seq<char>) -> Result<(ZBase, Seq<u8>), ZBaseError<Seq<char>>> {
    if text.len() == 0 {
        Err(ZBaseError::NomErr(text, ErrorKind::Eof))
    } else {
        match ZBase::of_code(text[0]) {
            None => Err(ZBaseError::NomErr(text.skip(1), ErrorKind::Tag)),
            Some(base) => {
                let digits = text.skip(1);
                let run = base.digit_run(digits);
                if run == digits.len() {
                    Ok((base, decode_digits(base.alphabet(), digits)))
                } else {
                    Err(ZBaseError::InvalidEncoding(digits.skip(run as int), base))
                }
            },
        }
    }
}

/// Whatever reading the name of an alphabet returns holds a suffix of the
/// text.
pub proof fn lemma_parse_code_within(text: Seq<char>)
    ensures
        match ZBase::spec_parse_code(text) {
            Ok((rest, _)) => is_suffix(rest, text) && rest.len() < text.len(),
            Err(e) => is_suffix(e.spec_rest(), text),
        },
{
    lemma_suffix_whole(text);
    if text.len() > 0 {
        lemma_skip_is_suffix(text, 1);
    }
}

/// Whatever `parse` returns holds a suffix of the text, and a proper one
/// where it succeeds.
pub proof fn lemma_parse_within(text: Seq<char>)
    ensures
        match spec_parse(text) {
            Ok((rest, _)) => is_suffix(rest, text) && rest.len() < text.len(),
            Err(e) => is_suffix(e.spec_rest(), text),
        },
{
    lemma_parse_code_within(text);
    match ZBase::spec_parse_code(text) {
        Err(e) => {},
        Ok((rest, base)) => {
            base.lemma_digit_run(rest);
            let run = base.digit_run(rest) as int;
            lemma_skip_is_suffix(rest, run);
            lemma_suffix_of_suffix(rest.skip(run), rest, text);
        },
    }
}

/// Reads an alphabet's name and the digits after it from the front of the
/// input.
pub fn parse_chars<'a>(input: &'a [char]) -> (r: Result<
    (&'a [char], (ZBase, Vec<u8>)),
    ZBaseError<&'a [char]>,
>)
    ensures
        match r {
            Ok((rest, (base, bytes))) => spec_parse(input@) == Ok::<
                (Seq<char>, (ZBase, Seq<u8>)),
                ZBaseError<Seq<char>>,
            >((rest@, (base, bytes@))),
            Err(e) => spec_parse(input@) == Err::<
                (Seq<char>, (ZBase, Seq<u8>)),
                ZBaseError<Seq<char>>,
            >(e@),
        },
{
    let (i, base) = match ZBase::parse_code_chars(input) {
        Ok(found) => found,
        Err(e) => {
            return Err(e);
        },
    };
    let (i, bytes) = match base.decode_chars(i) {
        Ok(found) => found,
        Err(e) => {
            return Err(e);
        },
    };
    Ok((i, (base, bytes)))
}

/// Reads an alphabet's name and the digits after it from the front of the
/// text, and leaves what follows the digits.
pub fn parse<'a>(input: &'a str) -> (r: Result<
    (&'a str, (ZBase, Vec<u8>)),
    ZBaseError<&'a str>,
>)
    ensures
        match r {
            Ok((rest, (base, bytes))) => spec_parse(input@) == Ok::<
                (Seq<char>, (ZBase, Seq<u8>)),
                ZBaseError<Seq<char>>,
            >((rest@, (base, bytes@))),
            Err(e) => spec_parse(input@) == Err::<
                (Seq<char>, (ZBase, Seq<u8>)),
                ZBaseError<Seq<char>>,
            >(e@),
        },
{
    let chars = chars_of(input);
    proof {
        lemma_parse_within(input@);
    }
    match parse_chars(chars.as_slice()) {
        Ok((rest, found)) => Ok((tail_str(input, chars.len(), rest.len()), found)),
        Err(e) => Err(e.in_str(input, chars.len())),
    }
}

/// Writes the bytes in an alphabet: the character that names the alphabet,
/// then the digits.
pub fn encode(base: ZBase, input: &[u8]) -> (text: String)
    ensures
        text@ == spec_encode(base, input@),
        text@.len() >= 1,
        text@[0] == base.spec_code(),
{
    let code = match base {
        ZBase::Z2 => "b",
        ZBase::Z8 => "o",
        ZBase::Z10 => "d",
        ZBase::Z16 => "x",
        ZBase::Z32 => "v",
        ZBase::Z58 => "I",
        ZBase::Z64 => "~",
    };
    proof {
        reveal_strlit("b");
        reveal_strlit("o");
        reveal_strlit("d");
        reveal_strlit("x");
        reveal_strlit("v");
        reveal_strlit("I");
        reveal_strlit("~");
        assert(code@ =~= seq![base.spec_code()]);
    }
    let digits = base.encode(input);
    String::from_str(code).concat(digits.as_str())
}

/// Reads a whole text as an alphabet's name and digits of that alphabet.
pub fn decode<'a>(input: &'a str) -> (r: Result<(ZBase, Vec<u8>), ZBaseError<&'a str>>)
    ensures
        match r {
            Ok((base, bytes)) => spec_decode(input@) == Ok::<
                (ZBase, Seq<u8>),
                ZBaseError<Seq<char>>,
            >((base, bytes@)),
            Err(e) => spec_decode(input@) == Err::<(ZBase, Seq<u8>), ZBaseError<Seq<char>>>(e@),
        },
{
    let chars = chars_of(input);
    let total = chars.len();
    if total == 0 {
        proof {
            lemma_suffix_whole(input@);
        }
        return Err(ZBaseError::NomErr(tail_str(input, total, 0), ErrorKind::Eof));
    }
    match ZBase::parse_code_chars(chars.as_slice()) {
        Err(_) => Err(ZBaseError::NomErr(tail_str(input, total, total - 1), ErrorKind::Tag)),
        Ok((digits, base)) => match base.decode_chars(digits) {
            Ok((rest, bytes)) => {
                proof {
                    base.lemma_digit_run(digits@);
                }
                if rest.len() == 0 {
                    proof {
                        assert(digits@.take(digits@.len() as int) =~= digits@);
                    }
                    Ok((base, bytes))
                } else {
                    proof {
                        let run = base.digit_run(digits@) as int;
                        assert(digits@.skip(run) =~= input@.skip(1 + run));
                    }
                    Err(ZBaseError::InvalidEncoding(tail_str(input, total, rest.len()), base))
                }
            },
            Err(e) => Err(e.in_str(input, total)),
        },
    }
}

/// Round trip of the text form of bytes: what `encode` writes, followed by
/// the end of the text or by a character that is no digit of the alphabet,
/// is read by `parse` as the alphabet and the bytes, and what followed is
/// left.
pub proof fn lemma_encode_parse(base: ZBase, bytes: Seq<u8>, tail: Seq<char>)
    requires
        tail.len() > 0 ==> !base.alphabet().contains(tail[0]),
    ensures
        spec_parse(spec_encode(base, bytes) + tail) == Ok::<
            (Seq<char>, (ZBase, Seq<u8>)),
            ZBaseError<Seq<char>>,
        >((tail, (base, bytes))),
{
    let digits = base.spec_encode(bytes);
    let text = spec_encode(base, bytes) + tail;
    base.lemma_code_names();
    base.lemma_alphabet();
    lemma_digits_round_trip(base.alphabet(), bytes);
    assert(text[0] == base.spec_code());
    assert(text.skip(1) =~= digits + tail);
    base.lemma_digit_run_of(digits, tail);
    assert((digits + tail).take(digits.len() as int) =~= digits);
    assert((digits + tail).skip(digits.len() as int) =~= tail);
}

/// Round trip of the text form of bytes: what `encode` writes in an
/// alphabet is read by `decode` as that alphabet and those bytes.
pub proof fn lemma_encode_decode(base: ZBase, bytes: Seq<u8>)
    ensures
        spec_decode(spec_encode(base, bytes)) == Ok::<(ZBase, Seq<u8>), ZBaseError<Seq<char>>>(
            (base, bytes),
        ),
{
    let digits = base.spec_encode(bytes);
    let text = spec_encode(base, bytes);
    base.lemma_code_names();
    base.lemma_alphabet();
    lemma_digits_round_trip(base.alphabet(), bytes);
    assert(text[0] == base.spec_code());
    assert(text.skip(1) =~= digits);
    base.lemma_digit_run_of(digits, Seq::empty());
    assert(digits + Seq::<char>::empty() =~= digits);
}

} // verus!
