//! The eight kinds of atom, each with an optional width in bytes.

use crate::input::chars_of;
use crate::input::deeper;
use crate::input::ErrorKind;
use crate::input::InputLength;
use crate::input::is_suffix;
use crate::input::lemma_skip_is_suffix;
use crate::input::lemma_suffix_of_suffix;
use crate::input::lemma_suffix_whole;
use crate::input::rank;
use crate::input::strip_word;
use crate::input::tail_str;
use crate::radix::digits_value;
use crate::zbase::all_digits;
use crate::zbase::text_as_digits;
use crate::zbase::ZBase;
use vstd::prelude::*;
use vstd::slice::slice_subrange;
use vstd::string::StringExecFns;

verus! {

/// The kind of an atom's payload, with the width in bytes that the payload is
/// declared to have, if any. The width is advice: nothing here holds a payload
/// to it.
#[derive(Clone, Copy, Debug, PartialEq, Eq, Structural)]
pub enum ZType {
    Bytes(Option<u64>),
    Symbol(Option<u64>),
    Nat(Option<u64>),
    Int(Option<u64>),
    Float(Option<u64>),
    Text(Option<u64>),
    Char(Option<u64>),
    Hash(Option<u64>),
}

impl ZType {
    /// The byte that stands for the kind on the wire, 0 to 7.
    pub open spec fn tag(self) -> u8 {
        match self {
            ZType::Bytes(_) => 0,
            ZType::Symbol(_) => 1,
            ZType::Nat(_) => 2,
            ZType::Int(_) => 3,
            ZType::Float(_) => 4,
            ZType::Text(_) => 5,
            ZType::Char(_) => 6,
            ZType::Hash(_) => 7,
        }
    }

    /// The declared width in bytes.
    pub open spec fn width(self) -> Option<u64> {
        match self {
            ZType::Bytes(w) => w,
            ZType::Symbol(w) => w,
            ZType::Nat(w) => w,
            ZType::Int(w) => w,
            ZType::Float(w) => w,
            ZType::Text(w) => w,
            ZType::Char(w) => w,
            ZType::Hash(w) => w,
        }
    }

    /// The type with the given tag byte and width; none for a byte above 7.
    pub open spec fn from_tag(tag: u8, width: Option<u64>) -> Option<ZType> {
        if tag == 0 {
            Some(ZType::Bytes(width))
        } else if tag == 1 {
            Some(ZType::Symbol(width))
        } else if tag == 2 {
            Some(ZType::Nat(width))
        } else if tag == 3 {
            Some(ZType::Int(width))
        } else if tag == 4 {
            Some(ZType::Float(width))
        } else if tag == 5 {
            Some(ZType::Text(width))
        } else if tag == 6 {
            Some(ZType::Char(width))
        } else if tag == 7 {
            Some(ZType::Hash(width))
        } else {
            None
        }
    }

    /// What `deserialize` returns: the type named by a one-byte code.
    pub open spec fn spec_deserialize(code: Seq<u8>, width: Option<u64>) -> Option<ZType> {
        if code.len() == 1 {
            Self::from_tag(code[0], width)
        } else {
            None
        }
    }

    /// The tag of the kind as the bytes that go on the wire. The width is not
    /// part of it.
    pub fn serialize(&self) -> (code: &'static [u8])
        ensures
            code@ == seq![self.tag()],
    {
        match self {
            ZType::Bytes(_) => &[0x00],
            ZType::Symbol(_) => &[0x01],
            ZType::Nat(_) => &[0x02],
            ZType::Int(_) => &[0x03],
            ZType::Float(_) => &[0x04],
            ZType::Text(_) => &[0x05],
            ZType::Char(_) => &[0x06],
            ZType::Hash(_) => &[0x07],
        }
    }

    /// The type that a tag code names, with the width given from outside.
    /// Only the single bytes 0 to 7 name a type.
    pub fn deserialize(i: &[u8], len: Option<u64>) -> (r: Option<Self>)
        ensures
            r == Self::spec_deserialize(i@, len),
    {
        if i.len() != 1 {
            return None;
        }
        let tag: u8 = i[0];
        if tag == 0x00 {
            Some(ZType::Bytes(len))
        } else if tag == 0x01 {
            Some(ZType::Symbol(len))
        } else if tag == 0x02 {
            Some(ZType::Nat(len))
        } else if tag == 0x03 {
            Some(ZType::Int(len))
        } else if tag == 0x04 {
            Some(ZType::Float(len))
        } else if tag == 0x05 {
            Some(ZType::Text(len))
        } else if tag == 0x06 {
            Some(ZType::Char(len))
        } else if tag == 0x07 {
            Some(ZType::Hash(len))
        } else {
            None
        }
    }

    /// Whether a width is declared.
    pub fn is_some_len(&self) -> (b: bool)
        ensures
            b == self.width().is_some(),
    {
        match self {
            ZType::Bytes(Some(_)) => true,
            ZType::Symbol(Some(_)) => true,
            ZType::Nat(Some(_)) => true,
            ZType::Int(Some(_)) => true,
            ZType::Float(Some(_)) => true,
            ZType::Text(Some(_)) => true,
            ZType::Char(Some(_)) => true,
            ZType::Hash(Some(_)) => true,
            _ => false,
        }
    }

    /// A tag code and a width name at most one type, and that type gives them
    /// back.
    pub proof fn lemma_tag_round_trip(self)
        ensures
            Self::spec_deserialize(seq![self.tag()], self.width()) == Some(self),
    {
    }
}

/// Why a text could not be read as a type, with the text that was left where
/// reading stopped.
#[derive(Clone, Debug, PartialEq, Eq)]
pub enum ZTypeError<I> {
    /// The width is a number of bits that is no multiple of 8. Holds the
    /// number.
    UnalignedTypeIndex(I, u64),
    /// The width is a number too large for 64 bits.
    InvalidU64TypeIndex(I),
    /// A plain failure of the given kind.
    NomErr(I, ErrorKind),
}

impl<I: View> View for ZTypeError<I> {
    type V = ZTypeError<I::V>;

    open spec fn view(&self) -> ZTypeError<I::V> {
        match self {
            ZTypeError::UnalignedTypeIndex(i, bits) => ZTypeError::UnalignedTypeIndex(i@, *bits),
            ZTypeError::InvalidU64TypeIndex(i) => ZTypeError::InvalidU64TypeIndex(i@),
            ZTypeError::NomErr(i, kind) => ZTypeError::NomErr(i@, *kind),
        }
    }
}

impl<I> ZTypeError<I> {
    /// The input that was left where reading stopped.
    pub open spec fn spec_rest(self) -> I {
        match self {
            ZTypeError::UnalignedTypeIndex(i, _) => i,
            ZTypeError::InvalidU64TypeIndex(i) => i,
            ZTypeError::NomErr(i, _) => i,
        }
    }

    /// The input that was left where reading stopped.
    pub fn rest(self) -> (i: I)
        ensures
            i == self.spec_rest(),
    {
        match self {
            ZTypeError::UnalignedTypeIndex(i, _) => i,
            ZTypeError::InvalidU64TypeIndex(i) => i,
            ZTypeError::NomErr(i, _) => i,
        }
    }

    /// The plain failure of a kind at an input.
    pub fn from_error_kind(input: I, kind: ErrorKind) -> (e: Self)
        ensures
            e == ZTypeError::NomErr(input, kind),
    {
        ZTypeError::NomErr(input, kind)
    }

    /// An error of this type met inside a parser stays what it is.
    pub fn from_external_error(input: I, kind: ErrorKind, e: Self) -> (r: Self)
        ensures
            r == e,
    {
        e
    }
}

impl<I: InputLength> ZTypeError<I> {
    /// How much input was left where reading stopped.
    pub open spec fn spec_rest_len(self) -> nat {
        self.spec_rest().spec_input_len()
    }

    fn rest_len(&self) -> (n: usize)
        ensures
            n == self.spec_rest_len(),
    {
        match self {
            ZTypeError::UnalignedTypeIndex(i, _) => i.input_len(),
            ZTypeError::InvalidU64TypeIndex(i) => i.input_len(),
            ZTypeError::NomErr(i, _) => i.input_len(),
        }
    }

    /// The error of a parser that failed at `i` with kind `k` over an inner
    /// error: the outer one only if it lies deeper in the input than the
    /// inner.
    pub fn append(i: I, k: ErrorKind, other: Self) -> (e: Self)
        ensures
            e == deeper(ZTypeError::NomErr(i, k), i.spec_input_len(), other, other.spec_rest_len()),
    {
        let left = i.input_len();
        let other_left = other.rest_len();
        rank(ZTypeError::NomErr(i, k), left, other, other_left)
    }

    /// Of the errors of two alternatives, the one that lies deeper in the
    /// input; the second where they lie equally deep.
    pub fn or(self, other: Self) -> (e: Self)
        ensures
            e == deeper(self, self.spec_rest_len(), other, other.spec_rest_len()),
    {
        let left = self.rest_len();
        let other_left = other.rest_len();
        rank(self, left, other, other_left)
    }
}

impl<I: Copy> ZTypeError<I> {
    /// The input that was left where reading stopped, without giving the
    /// error up.
    pub fn rest_copy(&self) -> (i: I)
        ensures
            i == self.spec_rest(),
    {
        match self {
            ZTypeError::UnalignedTypeIndex(i, _) => *i,
            ZTypeError::InvalidU64TypeIndex(i) => *i,
            ZTypeError::NomErr(i, _) => *i,
        }
    }
}

impl<'a> ZTypeError<&'a [char]> {
    /// The same error over the string that the characters were taken from.
    pub(crate) fn in_str<'b>(self, text: &'b str, total: usize) -> (e: ZTypeError<&'b str>)
        requires
            total == text@.len(),
            is_suffix(self@.spec_rest(), text@),
        ensures
            e@ == self@,
    {
        match self {
            ZTypeError::UnalignedTypeIndex(i, bits) => ZTypeError::UnalignedTypeIndex(
                tail_str(text, total, i.len()),
                bits,
            ),
            ZTypeError::InvalidU64TypeIndex(i) => ZTypeError::InvalidU64TypeIndex(
                tail_str(text, total, i.len()),
            ),
            ZTypeError::NomErr(i, kind) => ZTypeError::NomErr(tail_str(text, total, i.len()), kind),
        }
    }
}

/// The ten digits in which a width is written.
pub open spec fn decimal_digits() -> Seq<char> {
    ZBase::Z10.alphabet()
}

/// A number in decimal digits, without a zero in front; zero is one zero.
pub open spec fn decimal(n: nat) -> Seq<char>
    decreases n,
{
    if n < 10 {
        seq![decimal_digits()[n as int]]
    } else {
        decimal(n / 10).push(decimal_digits()[(n % 10) as int])
    }
}

/// The number that decimal digits spell.
pub open spec fn decimal_value(text: Seq<char>) -> nat {
    digits_value(text_as_digits(decimal_digits(), text), 10)
}

/// What `parse_index` gives: the width that the decimal digits at the front
/// of the text name, and the text after them. No digits name no width.
/// Digits name a number of bits: it must fit in 64 bits and be a multiple of
/// 8, and the width is its eighth.
pub open spec fn spec_parse_index(text: Seq<char>) -> Result<
    (Seq<char>, Option<u64>),
    ZTypeError<Seq<char>>,
> {
    let run = ZBase::Z10.digit_run(text) as int;
    let rest = text.skip(run);
    let bits = decimal_value(text.take(run));
    if run == 0 {
        Ok((rest, None))
    } else if bits > u64::MAX {
        Err(ZTypeError::InvalidU64TypeIndex(rest))
    } else if bits % 8 == 0 {
        Ok((rest, Some((bits / 8) as u64)))
    } else {
        Err(ZTypeError::UnalignedTypeIndex(rest, bits as u64))
    }
}

/// Whatever `parse_index` returns holds a suffix of the text.
pub proof fn lemma_parse_index_within(text: Seq<char>)
    ensures
        match spec_parse_index(text) {
            Ok((rest, _)) => is_suffix(rest, text),
            Err(e) => is_suffix(e.spec_rest(), text),
        },
{
    ZBase::Z10.lemma_digit_run(text);
    lemma_skip_is_suffix(text, ZBase::Z10.digit_run(text) as int);
}

/// The decimal digits are the characters from `0` to `9`, each at the place
/// of its worth.
pub proof fn lemma_decimal_digits()
    ensures
        decimal_digits().len() == 10,
        decimal_digits().no_duplicates(),
        forall|c: char| decimal_digits().contains(c) <==> '0' <= c <= '9',
        forall|d: int| 0 <= d < 10 ==> decimal_digits()[d] as int == '0' as int + d,
{
    reveal_strlit("0123456789");
    let digits = decimal_digits();
    assert forall|c: char| '0' <= c <= '9' implies digits.contains(c) by {
        let d = c as int - '0' as int;
        assert(digits[d] == c);
    }
}

/// The worth of a decimal digit is its distance from `0`.
pub proof fn lemma_decimal_digit_worth(c: char)
    requires
        '0' <= c <= '9',
    ensures
        crate::zbase::digit_index(decimal_digits(), c) == c as int - '0' as int,
{
    lemma_decimal_digits();
    let d = c as int - '0' as int;
    assert(decimal_digits()[d] == c);
}

/// A number written in decimal consists of decimal digits and spells the
/// number.
pub proof fn lemma_decimal_round_trip(n: nat)
    ensures
        decimal(n).len() > 0,
        all_digits(decimal_digits(), decimal(n)),
        decimal_value(decimal(n)) == n,
    decreases n,
{
    lemma_decimal_digits();
    let digits = decimal_digits();
    if n < 10 {
        let c = digits[n as int];
        lemma_decimal_digit_worth(c);
        let text = decimal(n);
        assert(text_as_digits(digits, text) =~= seq![n]);
        assert(seq![n].drop_last() =~= Seq::<nat>::empty());
        assert(digits_value(seq![n], 10) == n) by {
            reveal_with_fuel(digits_value, 2);
        }
    } else {
        lemma_decimal_round_trip(n / 10);
        let c = digits[(n % 10) as int];
        lemma_decimal_digit_worth(c);
        let high = decimal(n / 10);
        let text = decimal(n);
        assert(text_as_digits(digits, text).drop_last() =~= text_as_digits(digits, high));
        assert(text_as_digits(digits, text).last() == n % 10);
    }
}

impl ZType {
    /// The word that names the kind in text.
    pub open spec fn keyword(self) -> Seq<char> {
        match self {
            ZType::Bytes(_) => "bytes"@,
            ZType::Symbol(_) => "symbol"@,
            ZType::Nat(_) => "nat"@,
            ZType::Int(_) => "int"@,
            ZType::Float(_) => "float"@,
            ZType::Text(_) => "text"@,
            ZType::Char(_) => "char"@,
            ZType::Hash(_) => "hash"@,
        }
    }

    /// The type of the same kind with another width.
    pub open spec fn spec_with_width(self, width: Option<u64>) -> ZType {
        match self {
            ZType::Bytes(_) => ZType::Bytes(width),
            ZType::Symbol(_) => ZType::Symbol(width),
            ZType::Nat(_) => ZType::Nat(width),
            ZType::Int(_) => ZType::Int(width),
            ZType::Float(_) => ZType::Float(width),
            ZType::Text(_) => ZType::Text(width),
            ZType::Char(_) => ZType::Char(width),
            ZType::Hash(_) => ZType::Hash(width),
        }
    }

    /// The kinds in the order in which a text is tried for their words.
    pub open spec fn kinds() -> Seq<ZType> {
        seq![
            ZType::Bytes(None),
            ZType::Symbol(None),
            ZType::Nat(None),
            ZType::Int(None),
            ZType::Float(None),
            ZType::Text(None),
            ZType::Char(None),
            ZType::Hash(None),
        ]
    }

    /// The kind with whose word the text begins, if it begins with one.
    #[verifier::opaque]
    pub open spec fn kind_of(text: Seq<char>) -> Option<ZType> {
        if ZType::Bytes(None).keyword().is_prefix_of(text) {
            Some(ZType::Bytes(None))
        } else if ZType::Symbol(None).keyword().is_prefix_of(text) {
            Some(ZType::Symbol(None))
        } else if ZType::Nat(None).keyword().is_prefix_of(text) {
            Some(ZType::Nat(None))
        } else if ZType::Int(None).keyword().is_prefix_of(text) {
            Some(ZType::Int(None))
        } else if ZType::Float(None).keyword().is_prefix_of(text) {
            Some(ZType::Float(None))
        } else if ZType::Text(None).keyword().is_prefix_of(text) {
            Some(ZType::Text(None))
        } else if ZType::Char(None).keyword().is_prefix_of(text) {
            Some(ZType::Char(None))
        } else if ZType::Hash(None).keyword().is_prefix_of(text) {
            Some(ZType::Hash(None))
        } else {
            None
        }
    }

    /// The text form: the word of the kind, then the width in bits in
    /// decimal, if there is a width.
    pub open spec fn spec_text(self) -> Seq<char> {
        self.keyword() + spec_index_text(self.width())
    }

    /// The words of the kinds begin with eight different letters.
    pub proof fn lemma_keywords()
        ensures
            forall|i: int|
                0 <= i < 8 ==> 3 <= (#[trigger] Self::kinds()[i]).keyword().len() <= 6,
            forall|i: int, j: int|
                0 <= i < 8 && 0 <= j < 8 && i != j ==> Self::kinds()[i].keyword()[0]
                    != Self::kinds()[j].keyword()[0],
            forall|i: int, j: int|
                0 <= i < 8 && 0 <= j < (#[trigger] Self::kinds()[i]).keyword().len()
                    ==> !decimal_digits().contains(#[trigger] Self::kinds()[i].keyword()[j]),
    {
        reveal_strlit("bytes");
        reveal_strlit("symbol");
        reveal_strlit("nat");
        reveal_strlit("int");
        reveal_strlit("float");
        reveal_strlit("text");
        reveal_strlit("char");
        reveal_strlit("hash");
        lemma_decimal_digits();
    }

    /// A text begins with the word of one kind at most.
    pub proof fn lemma_kind_of(text: Seq<char>, i: int)
        requires
            0 <= i < 8,
        ensures
            Self::kinds()[i].keyword().is_prefix_of(text) <==> Self::kind_of(text) == Some(
                Self::kinds()[i],
            ),
    {
        reveal(ZType::kind_of);
        Self::lemma_keywords();
        let word = Self::kinds()[i].keyword();
        if word.is_prefix_of(text) {
            assert(text.subrange(0, word.len() as int)[0] == word[0]);
            assert forall|j: int| 0 <= j < 8 && j != i implies !(#[trigger] Self::kinds()[j]).keyword().is_prefix_of(
                text,
            ) by {
                let other = Self::kinds()[j].keyword();
                if other.is_prefix_of(text) {
                    assert(text.subrange(0, other.len() as int)[0] == other[0]);
                }
            }
            assert(!Self::kinds()[0].keyword().is_prefix_of(text) || i == 0);
            assert(!Self::kinds()[1].keyword().is_prefix_of(text) || i == 1);
            assert(!Self::kinds()[2].keyword().is_prefix_of(text) || i == 2);
            assert(!Self::kinds()[3].keyword().is_prefix_of(text) || i == 3);
            assert(!Self::kinds()[4].keyword().is_prefix_of(text) || i == 4);
            assert(!Self::kinds()[5].keyword().is_prefix_of(text) || i == 5);
            assert(!Self::kinds()[6].keyword().is_prefix_of(text) || i == 6);
            assert(!Self::kinds()[7].keyword().is_prefix_of(text) || i == 7);
        }
    }
}

/// What `parse` gives: the type that the text names, with the text after the
/// name. The text must begin with the word of a kind. What follows the word
/// is read as a width and may fail as a width does.
pub open spec fn spec_parse(text: Seq<char>) -> Result<(Seq<char>, ZType), ZTypeError<Seq<char>>> {
    match ZType::kind_of(text) {
        None => Err(ZTypeError::NomErr(text, ErrorKind::Tag)),
        Some(kind) => match spec_parse_index(text.skip(kind.keyword().len() as int)) {
            Ok((rest, width)) => Ok((rest, kind.spec_with_width(width))),
            Err(e) => Err(e),
        },
    }
}

/// The kind found at the front of a text has its word there.
pub proof fn lemma_kind_found(text: Seq<char>)
    ensures
        match ZType::kind_of(text) {
            Some(kind) => kind.keyword().is_prefix_of(text) && 3 <= kind.keyword().len() <= 6,
            None => true,
        },
{
    reveal(ZType::kind_of);
    reveal_strlit("bytes");
    reveal_strlit("symbol");
    reveal_strlit("nat");
    reveal_strlit("int");
    reveal_strlit("float");
    reveal_strlit("text");
    reveal_strlit("char");
    reveal_strlit("hash");
}

/// A text that begins with the word of no kind is of no kind.
pub proof fn lemma_kind_missing(text: Seq<char>)
    requires
        forall|i: int| 0 <= i < 8 ==> !(#[trigger] ZType::kinds()[i]).keyword().is_prefix_of(text),
    ensures
        ZType::kind_of(text) is None,
{
    reveal(ZType::kind_of);
    assert(!ZType::kinds()[0].keyword().is_prefix_of(text));
    assert(!ZType::kinds()[1].keyword().is_prefix_of(text));
    assert(!ZType::kinds()[2].keyword().is_prefix_of(text));
    assert(!ZType::kinds()[3].keyword().is_prefix_of(text));
    assert(!ZType::kinds()[4].keyword().is_prefix_of(text));
    assert(!ZType::kinds()[5].keyword().is_prefix_of(text));
    assert(!ZType::kinds()[6].keyword().is_prefix_of(text));
    assert(!ZType::kinds()[7].keyword().is_prefix_of(text));
}

/// Whatever `parse` returns holds a suffix of the text, and a proper one
/// unless it is the failure to find the word of a kind.
pub proof fn lemma_parse_within(text: Seq<char>)
    ensures
        match spec_parse(text) {
            Ok((rest, _)) => is_suffix(rest, text) && rest.len() < text.len(),
            Err(e) => is_suffix(e.spec_rest(), text) && (e.spec_rest().len() < text.len() || e
                == ZTypeError::NomErr(text, ErrorKind::Tag)),
        },
{
    lemma_suffix_whole(text);
    lemma_kind_found(text);
    match ZType::kind_of(text) {
        None => {},
        Some(kind) => {
            let n = kind.keyword().len() as int;
            let after = text.skip(n);
            lemma_skip_is_suffix(text, n);
            lemma_parse_index_within(after);
            match spec_parse_index(after) {
                Ok((rest, _)) => lemma_suffix_of_suffix(rest, after, text),
                Err(e) => lemma_suffix_of_suffix(e.spec_rest(), after, text),
            }
        },
    }
}

fn is_decimal_digit(c: char) -> (b: bool)
    ensures
        b == decimal_digits().contains(c),
        b == ('0' <= c <= '9'),
{
    proof {
        lemma_decimal_digits();
    }
    c >= '0' && c <= '9'
}

/// Reads a width from the front of the input: the decimal digits there, as
/// a number of bits.
pub fn parse_index_chars<'a>(i: &'a [char]) -> (r: Result<
    (&'a [char], Option<u64>),
    ZTypeError<&'a [char]>,
>)
    ensures
        match r {
            Ok((rest, width)) => spec_parse_index(i@) == Ok::<
                (Seq<char>, Option<u64>),
                ZTypeError<Seq<char>>,
            >((rest@, width)),
            Err(e) => spec_parse_index(i@) == Err::<
                (Seq<char>, Option<u64>),
                ZTypeError<Seq<char>>,
            >(e@),
        },
{
    let mut k: usize = 0;
    let mut x: u64 = 0;
    let mut fits: bool = true;
    proof {
        assert(i@.skip(0) =~= i@);
        assert(text_as_digits(decimal_digits(), i@.take(0)) =~= Seq::<nat>::empty());
    }
    while k < i.len()
        invariant
            k <= i@.len(),
            ZBase::Z10.digit_run(i@) == k + ZBase::Z10.digit_run(i@.skip(k as int)),
            fits ==> x == decimal_value(i@.take(k as int)),
            !fits ==> decimal_value(i@.take(k as int)) > u64::MAX,
        ensures
            k <= i@.len(),
            ZBase::Z10.digit_run(i@) == k,
            fits ==> x == decimal_value(i@.take(k as int)),
            !fits ==> decimal_value(i@.take(k as int)) > u64::MAX,
        decreases i@.len() - k,
    {
        let c = i[k];
        if !is_decimal_digit(c) {
            break ;
        }
        let d: u64 = (c as u32 - '0' as u32) as u64;
        proof {
            lemma_decimal_digit_worth(c);
            let before = text_as_digits(decimal_digits(), i@.take(k as int));
            let after = text_as_digits(decimal_digits(), i@.take(k + 1));
            assert(after.drop_last() =~= before);
            assert(after.last() == d);
            assert(i@.skip(k as int).drop_first() =~= i@.skip(k + 1));
        }
        if fits {
            match x.checked_mul(10) {
                Some(high) => match high.checked_add(d) {
                    Some(all) => {
                        x = all;
                    },
                    None => {
                        fits = false;
                    },
                },
                None => {
                    fits = false;
                },
            }
        }
        k += 1;
    }
    let rest = slice_subrange(i, k, i.len());
    if k == 0 {
        Ok((rest, None))
    } else if !fits {
        Err(ZTypeError::InvalidU64TypeIndex(rest))
    } else if x % 8 == 0 {
        Ok((rest, Some(x / 8)))
    } else {
        Err(ZTypeError::UnalignedTypeIndex(rest, x))
    }
}

/// Reads a width from the front of the text: the decimal digits there, as a
/// number of bits. Returns the width in bytes, or none where no digit
/// stands, and the text after the digits.
pub fn parse_index<'a>(i: &'a str) -> (r: Result<(&'a str, Option<u64>), ZTypeError<&'a str>>)
    ensures
        match r {
            Ok((rest, width)) => spec_parse_index(i@) == Ok::<
                (Seq<char>, Option<u64>),
                ZTypeError<Seq<char>>,
            >((rest@, width)),
            Err(e) => spec_parse_index(i@) == Err::<
                (Seq<char>, Option<u64>),
                ZTypeError<Seq<char>>,
            >(e@),
        },
{
    let chars = chars_of(i);
    proof {
        lemma_parse_index_within(i@);
    }
    match parse_index_chars(chars.as_slice()) {
        Ok((rest, width)) => Ok((tail_str(i, chars.len(), rest.len()), width)),
        Err(e) => Err(e.in_str(i, chars.len())),
    }
}

impl ZType {
    /// The declared width in bytes.
    pub fn index(&self) -> (w: Option<u64>)
        ensures
            w == self.width(),
    {
        match self {
            ZType::Bytes(w) => *w,
            ZType::Symbol(w) => *w,
            ZType::Nat(w) => *w,
            ZType::Int(w) => *w,
            ZType::Float(w) => *w,
            ZType::Text(w) => *w,
            ZType::Char(w) => *w,
            ZType::Hash(w) => *w,
        }
    }

    /// The type of the same kind with another width.
    pub fn with_width(&self, width: Option<u64>) -> (ty: ZType)
        ensures
            ty == self.spec_with_width(width),
    {
        match self {
            ZType::Bytes(_) => ZType::Bytes(width),
            ZType::Symbol(_) => ZType::Symbol(width),
            ZType::Nat(_) => ZType::Nat(width),
            ZType::Int(_) => ZType::Int(width),
            ZType::Float(_) => ZType::Float(width),
            ZType::Text(_) => ZType::Text(width),
            ZType::Char(_) => ZType::Char(width),
            ZType::Hash(_) => ZType::Hash(width),
        }
    }

    /// The word that names the kind in text.
    pub fn word(&self) -> (word: &'static str)
        ensures
            word@ == self.keyword(),
    {
        match self {
            ZType::Bytes(_) => "bytes",
            ZType::Symbol(_) => "symbol",
            ZType::Nat(_) => "nat",
            ZType::Int(_) => "int",
            ZType::Float(_) => "float",
            ZType::Text(_) => "text",
            ZType::Char(_) => "char",
            ZType::Hash(_) => "hash",
        }
    }

    /// The text form: the word of the kind, then the width in bits in
    /// decimal, if there is a width.
    pub fn to_string(&self) -> (text: String)
        ensures
            text@ == self.spec_text(),
    {
        let index = match self.index() {
            Some(a) => decimal_string(a as u128 * 8),
            None => {
                proof {
                    reveal_strlit("");
                }
                String::from_str("")
            },
        };
        String::from_str(self.word()).concat(index.as_str())
    }
}

/// A number in decimal digits.
pub fn decimal_string(n: u128) -> (text: String)
    ensures
        text@ == decimal(n as nat),
    decreases n,
{
    let low: u128 = n % 10;
    let digit = if low == 0 {
        "0"
    } else if low == 1 {
        "1"
    } else if low == 2 {
        "2"
    } else if low == 3 {
        "3"
    } else if low == 4 {
        "4"
    } else if low == 5 {
        "5"
    } else if low == 6 {
        "6"
    } else if low == 7 {
        "7"
    } else if low == 8 {
        "8"
    } else {
        "9"
    };
    proof {
        reveal_strlit("0");
        reveal_strlit("1");
        reveal_strlit("2");
        reveal_strlit("3");
        reveal_strlit("4");
        reveal_strlit("5");
        reveal_strlit("6");
        reveal_strlit("7");
        reveal_strlit("8");
        reveal_strlit("9");
        reveal_strlit("0123456789");
        assert(digit@ =~= seq![decimal_digits()[low as int]]);
    }
    if n < 10 {
        String::from_str(digit)
    } else {
        let text = decimal_string(n / 10).concat(digit);
        proof {
            assert(text@ =~= decimal((n / 10) as nat).push(decimal_digits()[low as int]));
        }
        text
    }
}

/// Reads a type from the front of the input. The words of the kinds are
/// tried in turn, each with the width after it; where none leads to a type,
/// the failure that lies deepest in the input is returned.
pub fn parse_chars<'a>(input: &'a [char]) -> (r: Result<
    (&'a [char], ZType),
    ZTypeError<&'a [char]>,
>)
    ensures
        match r {
            Ok((rest, ty)) => spec_parse(input@) == Ok::<(Seq<char>, ZType), ZTypeError<Seq<char>>>(
                (rest@, ty),
            ),
            Err(e) => spec_parse(input@) == Err::<(Seq<char>, ZType), ZTypeError<Seq<char>>>(e@),
        },
{
    let kinds = [
        ZType::Bytes(None),
        ZType::Symbol(None),
        ZType::Nat(None),
        ZType::Int(None),
        ZType::Float(None),
        ZType::Text(None),
        ZType::Char(None),
        ZType::Hash(None),
    ];
    let mut err = ZTypeError::from_error_kind(input, ErrorKind::Tag);
    let mut k: usize = 0;
    proof {
        assert(kinds@ =~= ZType::kinds());
        lemma_parse_within(input@);
    }
    while k < 8
        invariant
            k <= 8,
            kinds@ == ZType::kinds(),
            forall|j: int|
                0 <= j < k && (#[trigger] kinds@[j]).keyword().is_prefix_of(input@) ==> spec_parse(
                    input@,
                ) == Err::<(Seq<char>, ZType), ZTypeError<Seq<char>>>(err@) && err@.spec_rest().len()
                    < input@.len(),
            (forall|j: int| 0 <= j < k ==> !(#[trigger] kinds@[j]).keyword().is_prefix_of(input@))
                ==> err == ZTypeError::NomErr(input, ErrorKind::Tag),
            match spec_parse(input@) {
                Ok(_) => true,
                Err(e) => e.spec_rest().len() < input@.len() || e == ZTypeError::NomErr(
                    input@,
                    ErrorKind::Tag,
                ),
            },
        decreases 8 - k,
    {
        let kind = kinds[k];
        proof {
            ZType::lemma_kind_of(input@, k as int);
            assert forall|j: int| 0 <= j < k implies !(#[trigger] kinds@[j]).keyword().is_prefix_of(
                input@,
            ) || !kind.keyword().is_prefix_of(input@) by {
                ZType::lemma_kind_of(input@, j);
            }
        }
        let e = match strip_word(input, kind.word()) {
            Some(rest) => match parse_index_chars(rest) {
                Ok((rest, width)) => {
                    return Ok((rest, kind.with_width(width)));
                },
                Err(e) => e,
            },
            None => ZTypeError::from_error_kind(input, ErrorKind::Tag),
        };
        if k == 0 {
            err = e;
        } else {
            err = err.or(e);
        }
        k += 1;
    }
    proof {
        if forall|j: int| 0 <= j < 8 ==> !(#[trigger] kinds@[j]).keyword().is_prefix_of(input@) {
            lemma_kind_missing(input@);
        }
    }
    Err(ZTypeError::append(input, ErrorKind::Alt, err))
}

/// Reads a type from the front of the text: the word of a kind, then a
/// width or none. Returns the type and the text after it.
pub fn parse<'a>(input: &'a str) -> (r: Result<(&'a str, ZType), ZTypeError<&'a str>>)
    ensures
        match r {
            Ok((rest, ty)) => spec_parse(input@) == Ok::<(Seq<char>, ZType), ZTypeError<Seq<char>>>(
                (rest@, ty),
            ),
            Err(e) => spec_parse(input@) == Err::<(Seq<char>, ZType), ZTypeError<Seq<char>>>(e@),
        },
{
    let chars = chars_of(input);
    proof {
        lemma_parse_within(input@);
    }
    match parse_chars(chars.as_slice()) {
        Ok((rest, ty)) => Ok((tail_str(input, chars.len(), rest.len()), ty)),
        Err(e) => Err(e.in_str(input, chars.len())),
    }
}

/// Digits that spell a number of bits that is no multiple of 8 are
/// rejected as a width, with the number they spell and the text after them.
pub proof fn lemma_unaligned_width(digits: Seq<char>, tail: Seq<char>)
    requires
        digits.len() > 0,
        all_digits(decimal_digits(), digits),
        decimal_value(digits) <= u64::MAX,
        decimal_value(digits) % 8 != 0,
        tail.len() > 0 ==> !decimal_digits().contains(tail[0]),
    ensures
        spec_parse_index(digits + tail) == Err::<(Seq<char>, Option<u64>), ZTypeError<Seq<char>>>(
            ZTypeError::UnalignedTypeIndex(tail, decimal_value(digits) as u64),
        ),
{
    let text = digits + tail;
    ZBase::Z10.lemma_digit_run_of(digits, tail);
    assert(text.take(digits.len() as int) =~= digits);
    assert(text.skip(digits.len() as int) =~= tail);
}

/// The text form of a width, which is empty where there is none.
pub open spec fn spec_index_text(width: Option<u64>) -> Seq<char> {
    match width {
        Some(w) => decimal((w * 8) as nat),
        None => Seq::empty(),
    }
}

/// What is written for a width, followed by the end of the text or by a
/// character that is no decimal digit, is read as the width.
pub proof fn lemma_index_text_parse(width: Option<u64>, tail: Seq<char>)
    requires
        match width {
            Some(w) => w * 8 <= u64::MAX,
            None => true,
        },
        tail.len() > 0 ==> !decimal_digits().contains(tail[0]),
    ensures
        spec_parse_index(spec_index_text(width) + tail) == Ok::<
            (Seq<char>, Option<u64>),
            ZTypeError<Seq<char>>,
        >((tail, width)),
{
    let digits = spec_index_text(width);
    let text = digits + tail;
    match width {
        None => {},
        Some(w) => {
            lemma_decimal_round_trip((w * 8) as nat);
        },
    }
    ZBase::Z10.lemma_digit_run_of(digits, tail);
    assert(text.take(digits.len() as int) =~= digits);
    assert(text.skip(digits.len() as int) =~= tail);
}

/// A text that begins with the word of a kind is of that kind.
pub proof fn lemma_word_found(ty: ZType, rest: Seq<char>)
    ensures
        ZType::kind_of(ty.keyword() + rest) == Some(ty.spec_with_width(None)),
        (ty.keyword() + rest).skip(ty.keyword().len() as int) == rest,
{
    let word = ty.keyword();
    let text = word + rest;
    let i = ty.tag() as int;
    assert(ZType::kinds()[i] == ty.spec_with_width(None));
    assert(ZType::kinds()[i].keyword() == word);
    assert(text.subrange(0, word.len() as int) =~= word);
    ZType::lemma_kind_of(text, i);
    assert(text.skip(word.len() as int) =~= rest);
}

/// Round trip of the text form of a type: what is written for a type,
/// followed by the end of the text or by a character that is no decimal
/// digit, is read as the type, and what followed is left. The width in bits
/// must fit in 64 bits, as every width does that was read from a text.
pub proof fn lemma_text_parse(ty: ZType, tail: Seq<char>)
    requires
        match ty.width() {
            Some(w) => w * 8 <= u64::MAX,
            None => true,
        },
        tail.len() > 0 ==> !decimal_digits().contains(tail[0]),
    ensures
        spec_parse(ty.spec_text() + tail) == Ok::<(Seq<char>, ZType), ZTypeError<Seq<char>>>(
            (tail, ty),
        ),
{
    let after = spec_index_text(ty.width()) + tail;
    assert(ty.spec_text() + tail =~= ty.keyword() + after);
    lemma_word_found(ty, after);
    lemma_index_text_parse(ty.width(), tail);
    assert(ty.spec_with_width(None).keyword() == ty.keyword());
    assert(ty.spec_with_width(None).spec_with_width(ty.width()) == ty);
}

} // verus!
