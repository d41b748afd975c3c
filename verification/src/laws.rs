//! What holds of the codecs as a whole: each form of a value is read back as
//! the value, and the choices that the forms leave open are made in one way.
//!
//! The statements are over the functions that say what the codecs return:
//! `zbase::spec_encode` for `zbase::encode`, `Expr::serialize` for
//! `ZExpr::serialize`, and so on. The modules hold the same statements in a
//! more general form, with text or bytes after the value.

use crate::length::byte_width;
use crate::length::lemma_byte_width_is_least;
use crate::length::lemma_byte_width_minimal;
use crate::zbase::ZBase;
use crate::zbase::ZBaseError;
use crate::zbase;
use crate::zexpr::DeserialFailure;
use crate::zexpr::Expr;
use crate::zexpr::ZExprError;
use crate::ztype::ZType;
use crate::ztype::ZTypeError;
use crate::ztype;
use vstd::arithmetic::power::pow;
use vstd::prelude::*;

verus! {

/// Bytes written in an alphabet are read back as the alphabet and the
/// bytes, by `decode` and by `parse`, and `parse` leaves nothing.
pub proof fn base_round_trip(base: ZBase, bytes: Seq<u8>)
    ensures
        zbase::spec_decode(zbase::spec_encode(base, bytes)) == Ok::<
            (ZBase, Seq<u8>),
            ZBaseError<Seq<char>>,
        >((base, bytes)),
        zbase::spec_parse(zbase::spec_encode(base, bytes)) == Ok::<
            (Seq<char>, (ZBase, Seq<u8>)),
            ZBaseError<Seq<char>>,
        >((Seq::empty(), (base, bytes))),
{
    zbase::lemma_encode_decode(base, bytes);
    zbase::lemma_encode_parse(base, bytes, Seq::empty());
    assert(zbase::spec_encode(base, bytes) + Seq::<char>::empty() =~= zbase::spec_encode(
        base,
        bytes,
    ));
}

/// A type written as text is read back as the type, and nothing is left.
/// This holds of the types whose width in bits fits in 64 bits; the text of
/// a wider type is rejected as too large a number.
pub proof fn type_round_trip(ty: ZType)
    requires
        match ty.width() {
            Some(w) => w * 8 <= u64::MAX,
            None => true,
        },
    ensures
        ztype::spec_parse(ty.spec_text()) == Ok::<(Seq<char>, ZType), ZTypeError<Seq<char>>>(
            (Seq::empty(), ty),
        ),
{
    ztype::lemma_text_parse(ty, Seq::empty());
    assert(ty.spec_text() + Seq::<char>::empty() =~= ty.spec_text());
}

/// An expression written as text is read back as the expression, and
/// nothing is left. This holds of the expressions whose types can be read
/// back from their text.
pub proof fn text_round_trip(x: Expr)
    requires
        x.printable(),
    ensures
        Expr::parse(x.print()) == Ok::<(Seq<char>, Expr), ZExprError<Seq<char>>>(
            (Seq::empty(), x),
        ),
{
    x.lemma_print_parse(Seq::empty());
    assert(x.print() + Seq::<char>::empty() =~= x.print());
}

/// An expression written in binary is read back as the expression, and
/// nothing is left. This holds of the expressions of which every declared
/// width is the length of its payload: the binary form has one field for
/// the two.
pub proof fn binary_round_trip(x: Expr)
    requires
        x.wire_exact(),
    ensures
        Expr::deserialize(x.serialize()) == Ok::<(Seq<u8>, Expr), DeserialFailure>(
            (Seq::empty(), x),
        ),
{
    x.lemma_serialize_round_trip(Seq::empty());
    assert(x.serialize() + Seq::<u8>::empty() =~= x.serialize());
}

/// A width of a number of bits that is no multiple of 8 is rejected, and the
/// error holds the whole number and the text after it.
pub proof fn unaligned_width_rejected(bits: u64, tail: Seq<char>)
    requires
        bits % 8 != 0,
        tail.len() > 0 ==> !ztype::decimal_digits().contains(tail[0]),
    ensures
        ztype::spec_parse_index(ztype::decimal(bits as nat) + tail) == Err::<
            (Seq<char>, Option<u64>),
            ZTypeError<Seq<char>>,
        >(ZTypeError::UnalignedTypeIndex(tail, bits)),
{
    ztype::lemma_decimal_round_trip(bits as nat);
    ztype::lemma_unaligned_width(ztype::decimal(bits as nat), tail);
}

/// A length or count is written in the least number of bytes that hold it,
/// and in one byte at least: it lies below 256 to the power of its width,
/// and whatever width it lies below the power of is no smaller.
pub proof fn length_is_minimal(x: u64)
    ensures
        1 <= byte_width(x as nat) <= 8,
        x < pow(256, byte_width(x as nat)),
        forall|width: nat| width >= 1 && x < pow(256, width) ==> byte_width(x as nat) <= width,
{
    lemma_byte_width_is_least(x as nat);
    crate::length::lemma_byte_width_u64(x);
    assert forall|width: nat| width >= 1 && x < pow(256, width) implies byte_width(x as nat)
        <= width by {
        lemma_byte_width_minimal(x as nat, width);
    }
}

} // verus!
