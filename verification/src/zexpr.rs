//! Expressions: atoms, which are typed byte strings, and lists of
//! expressions, with their binary and text forms.

use crate::input::chars_of;
use crate::input::deeper;
use crate::input::ErrorKind;
use crate::input::InputLength;
use crate::input::is_suffix;
use crate::input::lemma_skip_is_suffix;
use crate::input::lemma_suffix_of_suffix;
use crate::input::lemma_suffix_whole;
use crate::input::rank;
use crate::input::strip_char;
use crate::input::tail_str;
use crate::length::be_value;
use crate::length::byte_width;
use crate::length::decode_length;
use crate::length::encode_length;
use crate::length::length_field;
use crate::zbase::ZBase;
use crate::zbase::ZBaseError;
use crate::zbase;
use crate::ztype::ZType;
use crate::ztype::ZTypeError;
use crate::ztype;
use vstd::prelude::*;
use vstd::slice::slice_subrange;
use vstd::slice::slice_to_vec;
use vstd::std_specs::convert::FromSpecImpl;
use vstd::string::StringExecFns;

verus! {

/// An expression: a typed byte string, or a list of expressions in order.
#[derive(Debug, PartialEq, Eq)]
pub enum ZExpr {
    Atom(ZType, Vec<u8>),
    Cons(Vec<ZExpr>),
}

/// What an expression is, apart from how it lies in memory.
#[verifier::ext_equal]
pub enum Expr {
    Atom(ZType, Seq<u8>),
    Cons(Seq<Expr>),
}

/// The item of a list at an index, as the expression it is.
pub open spec fn item_view(items: &Vec<ZExpr>, i: int) -> Expr
    decreases items, 0int,
{
    if 0 <= i < items.len() {
        items[i]@
    } else {
        Expr::Cons(Seq::empty())
    }
}

impl View for ZExpr {
    type V = Expr;

    open spec fn view(&self) -> Expr
        decreases self, 1int,
    {
        match self {
            ZExpr::Atom(ty, at) => Expr::Atom(*ty, at@),
            ZExpr::Cons(xs) => Expr::Cons(Seq::new(xs@.len(), |i: int| item_view(xs, i))),
        }
    }
}

/// The items of a list, each as the expression it is.
pub open spec fn items_view(items: Seq<ZExpr>) -> Seq<Expr> {
    Seq::new(items.len(), |i: int| items[i]@)
}

/// A list is viewed item by item.
pub proof fn lemma_view_cons(xs: Vec<ZExpr>)
    ensures
        ZExpr::Cons(xs)@ == Expr::Cons(items_view(xs@)),
{
    assert(ZExpr::Cons(xs)@->Cons_0 =~= items_view(xs@));
}

impl Clone for ZExpr {
    #[verifier::loop_isolation(false)]
    fn clone(&self) -> (r: Self)
        ensures
            r@ == self@,
        decreases self,
    {
        match self {
            ZExpr::Atom(ty, at) => {
                let at2 = at.clone();
                assert(at2@ =~= at@);
                ZExpr::Atom(*ty, at2)
            },
            ZExpr::Cons(xs) => {
                let mut out: Vec<ZExpr> = Vec::new();
                let mut k: usize = 0;
                while k < xs.len()
                    invariant
                        k <= xs.len(),
                        out@.len() == k,
                        forall|j: int| 0 <= j < k ==> out@[j]@ == xs@[j]@,
                    decreases xs.len() - k,
                {
                    out.push(xs[k].clone());
                    k += 1;
                }
                proof {
                    lemma_view_cons(out);
                    lemma_view_cons(*xs);
                    assert(items_view(out@) =~= items_view(xs@));
                }
                ZExpr::Cons(out)
            },
        }
    }
}

/// The header byte of an atom: bit 6 says whether the type has a width, bits
/// 5 to 3 hold the number of tag bytes less one, bits 2 to 0 the number of
/// length bytes less one. Bit 7 is clear.
pub open spec fn atom_header(has_width: bool, tag_len: u8, len_len: u8) -> u8 {
    (if has_width {
        0x40u8
    } else {
        0x00u8
    }) | (((tag_len - 1) as u8) << 3) | ((len_len - 1) as u8)
}

/// The header byte of a list: bit 7 is set, bits 2 to 0 hold the number of
/// count bytes less one, and the bits between are zero.
pub open spec fn cons_header(len_len: u8) -> u8 {
    0x80u8 | ((len_len - 1) as u8)
}

/// Whether a header byte announces a list.
pub open spec fn header_is_cons(h: u8) -> bool {
    (h & 0x80) >> 7 != 0
}

/// Whether a header byte announces a type with a width.
pub open spec fn header_has_width(h: u8) -> bool {
    (h & 0x40) >> 6 == 1
}

/// The number of tag bytes that a header byte announces, 1 to 8.
pub open spec fn header_tag_len(h: u8) -> u8 {
    (((h & 0x38) >> 3) + 1) as u8
}

/// The number of length bytes that a header byte announces, 1 to 8.
pub open spec fn header_len_len(h: u8) -> u8 {
    ((h & 0x07) + 1) as u8
}

impl Expr {
    /// The binary form. An atom is its header, the tag of its type, the
    /// length of its payload and the payload. A list is its header, the
    /// number of its items and the items' forms one after the other.
    ///
    /// The width of a type has no field of its own. The header says whether
    /// there is one, and the reader takes the length of the payload for it.
    pub open spec fn serialize(self) -> Seq<u8>
        decreases self,
    {
        match self {
            Expr::Atom(ty, at) => seq![
                atom_header(ty.width().is_some(), 1, byte_width(at.len()) as u8),
                ty.tag(),
            ] + length_field(at.len()) + at,
            Expr::Cons(xs) => seq![cons_header(byte_width(xs.len()) as u8)] + length_field(
                xs.len(),
            ) + Self::serialize_all(xs),
        }
    }

    /// The binary forms of some expressions, one after the other.
    pub open spec fn serialize_all(xs: Seq<Expr>) -> Seq<u8>
        decreases xs,
    {
        if xs.len() == 0 {
            Seq::empty()
        } else {
            Self::serialize_all(xs.drop_last()) + xs.last().serialize()
        }
    }
}

impl Expr {
    /// What reading an atom gives, from its header byte and the bytes after
    /// it: the tag bytes, the length, the type that tag and length name, and
    /// as many payload bytes as the length says.
    pub open spec fn deserialize_atom(h: u8, body: Seq<u8>) -> Result<
        (Seq<u8>, Expr),
        DeserialFailure,
    > {
        let tag_len = header_tag_len(h) as int;
        let len_len = header_len_len(h) as int;
        if body.len() < tag_len {
            Err(DeserialFailure::NomErr(body, ErrorKind::Eof))
        } else {
            let code = body.take(tag_len);
            let after_code = body.skip(tag_len);
            if after_code.len() < len_len {
                Err(DeserialFailure::NomErr(after_code, ErrorKind::Eof))
            } else {
                let len = be_value(after_code.take(len_len));
                let after_len = after_code.skip(len_len);
                let width = if header_has_width(h) {
                    Some(len as u64)
                } else {
                    None
                };
                match ZType::spec_deserialize(code, width) {
                    None => Err(DeserialFailure::InvalidZTypeCode(after_code, code)),
                    Some(ty) => if after_len.len() < len {
                        Err(DeserialFailure::NomErr(after_len, ErrorKind::Eof))
                    } else {
                        Ok((after_len.skip(len as int), Expr::Atom(ty, after_len.take(len as int))))
                    },
                }
            }
        }
    }

    /// What reading one expression from the front of `s` gives: what is left
    /// of `s` and the expression, or the first failure.
    pub open spec fn deserialize(s: Seq<u8>) -> Result<(Seq<u8>, Expr), DeserialFailure>
        decreases s.len(), 0nat,
    {
        if s.len() < 1 {
            Err(DeserialFailure::NomErr(s, ErrorKind::Eof))
        } else if header_is_cons(s[0]) {
            let body = s.skip(1);
            let len_len = header_len_len(s[0]) as int;
            if body.len() < len_len {
                Err(DeserialFailure::NomErr(body, ErrorKind::Eof))
            } else {
                match Self::deserialize_all(
                    body.skip(len_len),
                    be_value(body.take(len_len)),
                    Seq::empty(),
                ) {
                    Ok((rest, xs)) => Ok((rest, Expr::Cons(xs))),
                    Err(e) => Err(e),
                }
            }
        } else {
            Self::deserialize_atom(s[0], s.skip(1))
        }
    }

    /// What reading `count` expressions one after the other gives, after
    /// `done` have been read: what is left and all of them, or the failure
    /// of the first that cannot be read.
    ///
    /// The test that an expression consumed something lets the definition
    /// be seen to end. It never fails, as `lemma_deserialize_all_within`
    /// shows.
    pub open spec fn deserialize_all(s: Seq<u8>, count: nat, done: Seq<Expr>) -> Result<
        (Seq<u8>, Seq<Expr>),
        DeserialFailure,
    >
        decreases s.len(), count + 1,
    {
        if count == 0 {
            Ok((s, done))
        } else {
            match Self::deserialize(s) {
                Err(e) => Err(e),
                Ok((rest, x)) => if rest.len() < s.len() {
                    Self::deserialize_all(rest, (count - 1) as nat, done.push(x))
                } else {
                    Err(DeserialFailure::NomErr(rest, ErrorKind::Count))
                },
            }
        }
    }

    /// Whatever reading an atom returns holds a suffix of the input.
    pub proof fn lemma_deserialize_atom_within(h: u8, body: Seq<u8>)
        ensures
            match Self::deserialize_atom(h, body) {
                Ok((rest, _)) => is_suffix(rest, body),
                Err(e) => is_suffix(e.rest(), body),
            },
    {
        let tag_len = header_tag_len(h) as int;
        let len_len = header_len_len(h) as int;
        lemma_suffix_whole(body);
        if body.len() >= tag_len {
            let after_code = body.skip(tag_len);
            lemma_skip_is_suffix(body, tag_len);
            if after_code.len() >= len_len {
                let len = be_value(after_code.take(len_len));
                let after_len = after_code.skip(len_len);
                lemma_skip_is_suffix(after_code, len_len);
                lemma_suffix_of_suffix(after_len, after_code, body);
                if after_len.len() >= len {
                    lemma_skip_is_suffix(after_len, len as int);
                    lemma_suffix_of_suffix(after_len.skip(len as int), after_len, body);
                }
            }
        }
    }

    /// Reading an expression consumes at least one byte and leaves a suffix
    /// of the input; a failure, too, holds a suffix of the input.
    pub proof fn lemma_deserialize_within(s: Seq<u8>)
        ensures
            match Self::deserialize(s) {
                Ok((rest, _)) => is_suffix(rest, s) && rest.len() < s.len(),
                Err(e) => is_suffix(e.rest(), s),
            },
        decreases s.len(), 0nat,
    {
        lemma_suffix_whole(s);
        if s.len() >= 1 {
            let body = s.skip(1);
            lemma_skip_is_suffix(s, 1);
            if header_is_cons(s[0]) {
                let len_len = header_len_len(s[0]) as int;
                if body.len() >= len_len {
                    let items = body.skip(len_len);
                    lemma_skip_is_suffix(body, len_len);
                    lemma_suffix_of_suffix(items, body, s);
                    Self::lemma_deserialize_all_within(
                        items,
                        be_value(body.take(len_len)),
                        Seq::empty(),
                    );
                    match Self::deserialize_all(items, be_value(body.take(len_len)), Seq::empty()) {
                        Ok((rest, _)) => lemma_suffix_of_suffix(rest, items, s),
                        Err(e) => lemma_suffix_of_suffix(e.rest(), items, s),
                    }
                }
            } else {
                Self::lemma_deserialize_atom_within(s[0], body);
                match Self::deserialize_atom(s[0], body) {
                    Ok((rest, _)) => lemma_suffix_of_suffix(rest, body, s),
                    Err(e) => lemma_suffix_of_suffix(e.rest(), body, s),
                }
            }
        }
    }

    /// Reading several expressions leaves a suffix of the input, and so does
    /// failing. The case in which an expression consumed nothing never
    /// arises: with `count` read, the list has grown by `count`.
    pub proof fn lemma_deserialize_all_within(s: Seq<u8>, count: nat, done: Seq<Expr>)
        ensures
            match Self::deserialize_all(s, count, done) {
                Ok((rest, xs)) => is_suffix(rest, s) && xs.len() == done.len() + count,
                Err(e) => is_suffix(e.rest(), s) && e != DeserialFailure::NomErr(
                    e.rest(),
                    ErrorKind::Count,
                ),
            },
        decreases s.len(), count + 1,
    {
        lemma_suffix_whole(s);
        if count == 0 {
        } else {
            Self::lemma_deserialize_within(s);
            Self::lemma_deserialize_never_count(s);
            match Self::deserialize(s) {
                Err(e) => {},
                Ok((rest, x)) => {
                    Self::lemma_deserialize_all_within(rest, (count - 1) as nat, done.push(x));
                    match Self::deserialize_all(rest, (count - 1) as nat, done.push(x)) {
                        Ok((rest2, _)) => lemma_suffix_of_suffix(rest2, rest, s),
                        Err(e) => lemma_suffix_of_suffix(e.rest(), rest, s),
                    }
                },
            }
        }
    }

    /// No failure of reading is of the kind that stands for an expression
    /// that consumed nothing.
    pub proof fn lemma_deserialize_never_count(s: Seq<u8>)
        ensures
            match Self::deserialize(s) {
                Ok(_) => true,
                Err(e) => e != DeserialFailure::NomErr(e.rest(), ErrorKind::Count),
            },
        decreases s.len(), 0nat,
    {
        if s.len() >= 1 && header_is_cons(s[0]) {
            let body = s.skip(1);
            let len_len = header_len_len(s[0]) as int;
            if body.len() >= len_len {
                Self::lemma_deserialize_all_within(
                    body.skip(len_len),
                    be_value(body.take(len_len)),
                    Seq::empty(),
                );
            }
        }
    }
}

/// The fields of an atom's header byte read back as they were written.
pub proof fn lemma_atom_header_fields(has_width: bool, len_len: u8)
    requires
        1 <= len_len <= 8,
    ensures
        !header_is_cons(atom_header(has_width, 1, len_len)),
        header_has_width(atom_header(has_width, 1, len_len)) == has_width,
        header_tag_len(atom_header(has_width, 1, len_len)) == 1,
        header_len_len(atom_header(has_width, 1, len_len)) == len_len,
{
    let low: u8 = (len_len - 1) as u8;
    let flag: u8 = if has_width {
        0x40
    } else {
        0x00
    };
    let h: u8 = flag | (0u8 << 3) | low;
    assert(h == atom_header(has_width, 1, len_len));
    assert((h & 0x80) >> 7 == 0 && ((h & 0x40) >> 6 == 1 <==> flag == 0x40) && (h & 0x38) >> 3 == 0
        && (h & 0x07) == low) by (bit_vector)
        requires
            h == flag | (0u8 << 3) | low,
            low <= 7,
            flag == 0x40 || flag == 0x00,
    ;
}

/// The fields of a list's header byte read back as they were written.
pub proof fn lemma_cons_header_fields(len_len: u8)
    requires
        1 <= len_len <= 8,
    ensures
        header_is_cons(cons_header(len_len)),
        header_len_len(cons_header(len_len)) == len_len,
{
    let low: u8 = (len_len - 1) as u8;
    let h: u8 = 0x80u8 | low;
    assert(h == cons_header(len_len));
    assert((h & 0x80) >> 7 == 1 && (h & 0x07) == low) by (bit_vector)
        requires
            h == 0x80u8 | low,
            low <= 7,
    ;
}

impl Expr {
    /// Whether the binary form holds all of the expression: every length and
    /// count fits in 64 bits, and every width that a type declares is the
    /// length of its payload. The binary form has one field for both, so a
    /// width that differs from the length is not written.
    pub open spec fn wire_exact(self) -> bool
        decreases self,
    {
        match self {
            Expr::Atom(ty, at) => at.len() <= u64::MAX && match ty.width() {
                Some(w) => w == at.len(),
                None => true,
            },
            Expr::Cons(xs) => xs.len() <= u64::MAX && forall|i: int|
                0 <= i < xs.len() ==> (#[trigger] xs[i]).wire_exact(),
        }
    }

    /// The forms of some expressions are the form of the first and then the
    /// forms of the others.
    pub proof fn lemma_serialize_all_first(xs: Seq<Expr>)
        requires
            xs.len() > 0,
        ensures
            Self::serialize_all(xs) == xs[0].serialize() + Self::serialize_all(xs.skip(1)),
        decreases xs.len(),
    {
        if xs.len() == 1 {
            assert(xs.drop_last() =~= Seq::<Expr>::empty());
            assert(xs.skip(1) =~= Seq::<Expr>::empty());
            assert(Self::serialize_all(xs) =~= xs[0].serialize() + Self::serialize_all(xs.skip(1)));
        } else {
            Self::lemma_serialize_all_first(xs.drop_last());
            assert(xs.drop_last().skip(1) =~= xs.skip(1).drop_last());
            assert(xs.skip(1).last() == xs.last());
            assert(Self::serialize_all(xs) =~= xs[0].serialize() + Self::serialize_all(xs.skip(1)));
        }
    }

    /// A binary form is never empty.
    pub proof fn lemma_serialize_nonempty(self)
        ensures
            self.serialize().len() >= 2,
    {
    }

    /// What was written for an atom, with anything after it, reads back as
    /// the atom and leaves what came after.
    #[verifier::rlimit(50)]
    pub proof fn lemma_serialize_atom_round_trip(ty: ZType, at: Seq<u8>, tail: Seq<u8>)
        requires
            Expr::Atom(ty, at).wire_exact(),
        ensures
            Self::deserialize(Expr::Atom(ty, at).serialize() + tail) == Ok::<
                (Seq<u8>, Expr),
                DeserialFailure,
            >((tail, Expr::Atom(ty, at))),
    {
        let s = Expr::Atom(ty, at).serialize() + tail;
        let n = at.len();
        let field = length_field(n);
        let len_len = byte_width(n) as u8;
        let has_width = ty.width().is_some();
        let h = atom_header(has_width, 1, len_len);
        crate::length::lemma_byte_width_u64(n as u64);
        crate::length::lemma_length_field_round_trip(n);
        lemma_atom_header_fields(has_width, len_len);
        ty.lemma_tag_round_trip();
        let body = seq![ty.tag()] + field + at + tail;
        assert(s[0] == h);
        assert(s.skip(1) == body) by {
            assert(s.skip(1) =~= body);
        }
        let after_code = field + at + tail;
        assert(body.take(1) == seq![ty.tag()] && body.skip(1) == after_code) by {
            assert(body.take(1) =~= seq![ty.tag()]);
            assert(body.skip(1) =~= after_code);
        }
        let after_len = at + tail;
        assert(after_code.take(len_len as int) == field && after_code.skip(len_len as int)
            == after_len) by {
            assert(after_code.take(len_len as int) =~= field);
            assert(after_code.skip(len_len as int) =~= after_len);
        }
        assert(after_len.take(n as int) == at && after_len.skip(n as int) == tail) by {
            assert(after_len.take(n as int) =~= at);
            assert(after_len.skip(n as int) =~= tail);
        }
        assert(Self::deserialize_atom(h, body) == Ok::<(Seq<u8>, Expr), DeserialFailure>(
            (tail, Expr::Atom(ty, at)),
        ));
    }

    /// A header of a list, the count and then what reads back as that many
    /// items read back as the list.
    pub proof fn lemma_serialize_cons_round_trip(xs: Seq<Expr>, items: Seq<u8>, tail: Seq<u8>)
        requires
            xs.len() <= u64::MAX,
            Self::deserialize_all(items + tail, xs.len(), Seq::empty()) == Ok::<
                (Seq<u8>, Seq<Expr>),
                DeserialFailure,
            >((tail, xs)),
        ensures
            Self::deserialize(
                seq![cons_header(byte_width(xs.len()) as u8)] + length_field(xs.len()) + items
                    + tail,
            ) == Ok::<(Seq<u8>, Expr), DeserialFailure>((tail, Expr::Cons(xs))),
    {
        let n = xs.len();
        let field = length_field(n);
        let len_len = byte_width(n) as u8;
        let h = cons_header(len_len);
        let s = seq![h] + field + items + tail;
        crate::length::lemma_byte_width_u64(n as u64);
        crate::length::lemma_length_field_round_trip(n);
        lemma_cons_header_fields(len_len);
        let body = field + (items + tail);
        assert(s[0] == h);
        assert(s.skip(1) == body) by {
            assert(s.skip(1) =~= body);
        }
        assert(body.take(len_len as int) == field && body.skip(len_len as int) == items + tail) by {
            assert(body.take(len_len as int) =~= field);
            assert(body.skip(len_len as int) =~= items + tail);
        }
    }

    /// Round trip of the binary form: what was written for an expression,
    /// with anything after it, reads back as the expression and leaves what
    /// came after.
    pub proof fn lemma_serialize_round_trip(self, tail: Seq<u8>)
        requires
            self.wire_exact(),
        ensures
            Self::deserialize(self.serialize() + tail) == Ok::<(Seq<u8>, Expr), DeserialFailure>(
                (tail, self),
            ),
        decreases self,
    {
        match self {
            Expr::Atom(ty, at) => {
                Self::lemma_serialize_atom_round_trip(ty, at, tail);
            },
            Expr::Cons(xs) => {
                let items = Self::serialize_all(xs);
                Self::lemma_serialize_all_round_trip(xs, Seq::empty(), tail);
                assert(Seq::<Expr>::empty() + xs =~= xs);
                Self::lemma_serialize_cons_round_trip(xs, items, tail);
            },
        }
    }

    /// Round trip of the binary forms of several expressions, read after
    /// `done` have been.
    pub proof fn lemma_serialize_all_round_trip(xs: Seq<Expr>, done: Seq<Expr>, tail: Seq<u8>)
        requires
            forall|i: int| 0 <= i < xs.len() ==> (#[trigger] xs[i]).wire_exact(),
        ensures
            Self::deserialize_all(Self::serialize_all(xs) + tail, xs.len(), done) == Ok::<
                (Seq<u8>, Seq<Expr>),
                DeserialFailure,
            >((tail, done + xs)),
        decreases xs,
    {
        if xs.len() == 0 {
            assert(Self::serialize_all(xs) + tail =~= tail);
            assert(done + xs =~= done);
        } else {
            let first = xs[0];
            let others = xs.skip(1);
            Self::lemma_serialize_all_first(xs);
            let later = Self::serialize_all(others) + tail;
            let s = Self::serialize_all(xs) + tail;
            assert(s =~= first.serialize() + later);
            first.lemma_serialize_round_trip(later);
            first.lemma_serialize_nonempty();
            assert forall|i: int| 0 <= i < others.len() implies (#[trigger] others[i]).wire_exact() by {
                assert(others[i] == xs[i + 1]);
            }
            Self::lemma_serialize_all_round_trip(others, done.push(first), tail);
            assert(done.push(first) + others =~= done + xs);
        }
    }
}

fn append_bytes(out: &mut Vec<u8>, bytes: &[u8])
    ensures
        final(out)@ == old(out)@ + bytes@,
{
    out.extend_from_slice(bytes);
    assert(out@ =~= old(out)@ + bytes@);
}

impl ZExpr {
    /// The binary form of the expression.
    #[verifier::loop_isolation(false)]
    pub fn serialize(&self) -> (out: Vec<u8>)
        ensures
            out@ == self@.serialize(),
        decreases self,
    {
        match self {
            ZExpr::Atom(typ, dat) => {
                let tag = typ.serialize();
                let typ_len: u8 = tag.len() as u8;
                let dat_len: u64 = dat.len() as u64;
                let dat_len = encode_length(dat_len);
                let dat_len_len: u8 = dat_len.len() as u8;
                let size_byte: u8 = if typ.is_some_len() {
                    0x40u8 | ((typ_len - 1) << 3) | (dat_len_len - 1)
                } else {
                    0x00u8 | ((typ_len - 1) << 3) | (dat_len_len - 1)
                };
                let mut ret: Vec<u8> = Vec::new();
                ret.push(size_byte);
                append_bytes(&mut ret, tag);
                append_bytes(&mut ret, dat_len.as_slice());
                append_bytes(&mut ret, dat.as_slice());
                assert(ret@ =~= self@.serialize());
                ret
            },
            ZExpr::Cons(xs) => {
                let xs_len: u64 = xs.len() as u64;
                let xs_len = encode_length(xs_len);
                let xs_len_len: u8 = xs_len.len() as u8;
                let size_byte: u8 = 0x80u8 | (xs_len_len - 1);
                let mut ret: Vec<u8> = Vec::new();
                ret.push(size_byte);
                append_bytes(&mut ret, xs_len.as_slice());
                let ghost head = ret@;
                let ghost items = items_view(xs@);
                let mut k: usize = 0;
                assert(items.take(0) =~= Seq::<Expr>::empty());
                while k < xs.len()
                    invariant
                        k <= xs.len(),
                        ret@ == head + Expr::serialize_all(items.take(k as int)),
                    decreases xs.len() - k,
                {
                    let mut child = xs[k].serialize();
                    proof {
                        let next = items.take(k + 1);
                        assert(next.drop_last() =~= items.take(k as int));
                        assert(next.last() == xs[k as int]@);
                        assert(head + Expr::serialize_all(next) =~= ret@ + child@);
                    }
                    ret.append(&mut child);
                    k += 1;
                }
                proof {
                    assert(items.take(k as int) =~= items);
                    lemma_view_cons(*xs);
                    assert(ret@ =~= self@.serialize());
                }
                ret
            },
        }
    }
}

/// Why a binary form could not be read, with the input that was left where
/// reading stopped.
#[derive(Debug, PartialEq, Eq, Clone)]
pub enum ZExprDeserialError<I> {
    /// The tag bytes name no type. Holds what follows the tag bytes, and
    /// the tag bytes.
    InvalidZTypeCode(I, Vec<u8>),
    /// A plain failure of the given kind.
    NomErr(I, ErrorKind),
}

/// What a `ZExprDeserialError` over bytes says.
pub enum DeserialFailure {
    InvalidZTypeCode(Seq<u8>, Seq<u8>),
    NomErr(Seq<u8>, ErrorKind),
}

impl DeserialFailure {
    /// The input that was left where reading stopped.
    pub open spec fn rest(self) -> Seq<u8> {
        match self {
            DeserialFailure::InvalidZTypeCode(i, _) => i,
            DeserialFailure::NomErr(i, _) => i,
        }
    }
}

impl<'a> View for ZExprDeserialError<&'a [u8]> {
    type V = DeserialFailure;

    open spec fn view(&self) -> DeserialFailure {
        match self {
            ZExprDeserialError::InvalidZTypeCode(i, code) => DeserialFailure::InvalidZTypeCode(
                i@,
                code@,
            ),
            ZExprDeserialError::NomErr(i, kind) => DeserialFailure::NomErr(i@, *kind),
        }
    }
}

impl<I> ZExprDeserialError<I> {
    /// The input that was left where reading stopped.
    pub open spec fn spec_rest(self) -> I {
        match self {
            ZExprDeserialError::InvalidZTypeCode(i, _) => i,
            ZExprDeserialError::NomErr(i, _) => i,
        }
    }

    /// The input that was left where reading stopped.
    pub fn rest(self) -> (i: I)
        ensures
            i == self.spec_rest(),
    {
        match self {
            ZExprDeserialError::InvalidZTypeCode(i, _) => i,
            ZExprDeserialError::NomErr(i, _) => i,
        }
    }

    /// The plain failure of a kind at an input.
    pub fn from_error_kind(input: I, kind: ErrorKind) -> (e: Self)
        ensures
            e == ZExprDeserialError::NomErr(input, kind),
    {
        ZExprDeserialError::NomErr(input, kind)
    }
}

impl<I: InputLength> ZExprDeserialError<I> {
    /// How much input was left where reading stopped.
    pub open spec fn spec_rest_len(self) -> nat {
        self.spec_rest().spec_input_len()
    }

    fn rest_len(&self) -> (n: usize)
        ensures
            n == self.spec_rest_len(),
    {
        match self {
            ZExprDeserialError::InvalidZTypeCode(i, _) => i.input_len(),
            ZExprDeserialError::NomErr(i, _) => i.input_len(),
        }
    }

    /// The error of a parser that failed at `i` with kind `k` over an inner
    /// error: the outer one only if it lies deeper in the input than the
    /// inner.
    pub fn append(i: I, k: ErrorKind, other: Self) -> (e: Self)
        ensures
            e == deeper(
                ZExprDeserialError::NomErr(i, k),
                i.spec_input_len(),
                other,
                other.spec_rest_len(),
            ),
    {
        let left = i.input_len();
        let other_left = other.rest_len();
        rank(ZExprDeserialError::NomErr(i, k), left, other, other_left)
    }

    /// Of the errors of two alternatives, the one that lies deeper in the
    /// input; the second where they lie equally deep.
    pub fn or(self, other: Self) -> (e: Self)
        ensures
            e == deeper(self, self.spec_rest_len(), other, other.spec_rest_len()),
    {
        let left = self.rest_len();
        let other_left = other.rest_len();
        rank(self, left, other, other_left)
    }
}

impl ZExpr {
    /// Reads one expression from the front of `i`. Returns what is left of
    /// `i` and the expression, or the first failure with the input that was
    /// left where it arose.
    ///
    /// An atom is read as its tag bytes, its length bytes and its payload;
    /// where the header says that the type has a width, the length is that
    /// width. A list is read as its count bytes and then that many
    /// expressions.
    #[verifier::loop_isolation(false)]
    pub fn deserialize<'a>(i: &'a [u8]) -> (r: Result<
        (&'a [u8], ZExpr),
        ZExprDeserialError<&'a [u8]>,
    >)
        ensures
            match r {
                Ok((rest, x)) => Expr::deserialize(i@) == Ok::<(Seq<u8>, Expr), DeserialFailure>(
                    (rest@, x@),
                ),
                Err(e) => Expr::deserialize(i@) == Err::<(Seq<u8>, Expr), DeserialFailure>(e@),
            },
        decreases i@.len(),
    {
        if i.len() < 1 {
            return Err(ZExprDeserialError::from_error_kind(i, ErrorKind::Eof));
        }
        let size: u8 = i[0];
        let i = slice_subrange(i, 1, i.len());
        assert(((size & 0b0011_1000) >> 3) <= 7 && (size & 0b111) <= 7) by (bit_vector);
        let is_atom = ((size & 0b1000_0000) >> 7) == 0;
        let len_typ = ((size & 0b0100_0000) >> 6) == 1;
        let typ_len: u8 = ((size & 0b0011_1000) >> 3) + 1;
        let dat_len_len: u8 = (size & 0b111) + 1;
        if is_atom {
            if i.len() < typ_len as usize {
                return Err(ZExprDeserialError::from_error_kind(i, ErrorKind::Eof));
            }
            let typ_code = slice_subrange(i, 0, typ_len as usize);
            let i_type = slice_subrange(i, typ_len as usize, i.len());
            if i_type.len() < dat_len_len as usize {
                return Err(ZExprDeserialError::from_error_kind(i_type, ErrorKind::Eof));
            }
            let dat_len = decode_length(slice_subrange(i_type, 0, dat_len_len as usize));
            let i = slice_subrange(i_type, dat_len_len as usize, i_type.len());
            let len = if len_typ {
                Some(dat_len)
            } else {
                None
            };
            let typ = match ZType::deserialize(typ_code, len) {
                Some(x) => x,
                None => {
                    return Err(
                        ZExprDeserialError::InvalidZTypeCode(i_type, slice_to_vec(typ_code)),
                    );
                },
            };
            if (i.len() as u64) < dat_len {
                return Err(ZExprDeserialError::from_error_kind(i, ErrorKind::Eof));
            }
            let dat = slice_subrange(i, 0, dat_len as usize);
            let i = slice_subrange(i, dat_len as usize, i.len());
            Ok((i, ZExpr::Atom(typ, slice_to_vec(dat))))
        } else {
            if i.len() < dat_len_len as usize {
                return Err(ZExprDeserialError::from_error_kind(i, ErrorKind::Eof));
            }
            let xs_len = decode_length(slice_subrange(i, 0, dat_len_len as usize));
            let i = slice_subrange(i, dat_len_len as usize, i.len());
            let mut input = i;
            let mut xs: Vec<ZExpr> = Vec::new();
            let mut k: u64 = 0;
            proof {
                lemma_suffix_whole(i@);
                assert(items_view(xs@) =~= Seq::<Expr>::empty());
            }
            while k < xs_len
                invariant
                    k <= xs_len,
                    is_suffix(input@, i@),
                    Expr::deserialize_all(i@, xs_len as nat, Seq::empty()) == Expr::deserialize_all(
                        input@,
                        (xs_len - k) as nat,
                        items_view(xs@),
                    ),
                decreases xs_len - k,
            {
                proof {
                    Expr::lemma_deserialize_within(input@);
                }
                match ZExpr::deserialize(input) {
                    Ok((rest, x)) => {
                        proof {
                            lemma_suffix_of_suffix(rest@, input@, i@);
                            assert(items_view(xs@.push(x)) =~= items_view(xs@).push(x@));
                        }
                        xs.push(x);
                        input = rest;
                    },
                    Err(e) => {
                        proof {
                            lemma_suffix_of_suffix(e@.rest(), input@, i@);
                        }
                        return Err(ZExprDeserialError::append(i, ErrorKind::Count, e));
                    },
                }
                k += 1;
            }
            proof {
                lemma_view_cons(xs);
            }
            Ok((input, ZExpr::Cons(xs)))
        }
    }
}

/// Why a text could not be read as an expression, with the text that was
/// left where reading stopped.
#[derive(Clone, Debug, PartialEq, Eq)]
pub enum ZExprError<I> {
    /// The type of an atom could not be read.
    ZTypeErr(I, ZTypeError<I>),
    /// The payload of an atom could not be read.
    ZBaseErr(I, ZBaseError<I>),
    /// A plain failure of the given kind.
    NomErr(I, ErrorKind),
}

impl<I: View> View for ZExprError<I> {
    type V = ZExprError<I::V>;

    open spec fn view(&self) -> ZExprError<I::V> {
        match self {
            ZExprError::ZTypeErr(i, e) => ZExprError::ZTypeErr(i@, e@),
            ZExprError::ZBaseErr(i, e) => ZExprError::ZBaseErr(i@, e@),
            ZExprError::NomErr(i, kind) => ZExprError::NomErr(i@, *kind),
        }
    }
}

impl<I> ZExprError<I> {
    /// The input that was left where reading stopped.
    pub open spec fn spec_rest(self) -> I {
        match self {
            ZExprError::ZTypeErr(i, _) => i,
            ZExprError::ZBaseErr(i, _) => i,
            ZExprError::NomErr(i, _) => i,
        }
    }

    /// The error of an atom whose payload could not be read.
    pub open spec fn of_base(e: ZBaseError<I>) -> Self {
        ZExprError::ZBaseErr(e.spec_rest(), e)
    }

    /// The error of an atom whose type could not be read.
    pub open spec fn of_type(e: ZTypeError<I>) -> Self {
        ZExprError::ZTypeErr(e.spec_rest(), e)
    }

    /// The input that was left where reading stopped.
    pub fn rest(self) -> (i: I)
        ensures
            i == self.spec_rest(),
    {
        match self {
            ZExprError::ZTypeErr(i, _) => i,
            ZExprError::ZBaseErr(i, _) => i,
            ZExprError::NomErr(i, _) => i,
        }
    }

    /// The plain failure of a kind at an input.
    pub fn from_error_kind(input: I, kind: ErrorKind) -> (e: Self)
        ensures
            e == ZExprError::NomErr(input, kind),
    {
        ZExprError::NomErr(input, kind)
    }
}

impl<I: InputLength> ZExprError<I> {
    /// How much input was left where reading stopped.
    pub open spec fn spec_rest_len(self) -> nat {
        self.spec_rest().spec_input_len()
    }

    fn rest_len(&self) -> (n: usize)
        ensures
            n == self.spec_rest_len(),
    {
        match self {
            ZExprError::ZTypeErr(i, _) => i.input_len(),
            ZExprError::ZBaseErr(i, _) => i.input_len(),
            ZExprError::NomErr(i, _) => i.input_len(),
        }
    }

    /// The error of a parser that failed at `i` with kind `k` over an inner
    /// error: the outer one only if it lies deeper in the input than the
    /// inner.
    pub fn append(i: I, k: ErrorKind, other: Self) -> (e: Self)
        ensures
            e == deeper(ZExprError::NomErr(i, k), i.spec_input_len(), other, other.spec_rest_len()),
    {
        let left = i.input_len();
        let other_left = other.rest_len();
        rank(ZExprError::NomErr(i, k), left, other, other_left)
    }

    /// Of the errors of two alternatives, the one that lies deeper in the
    /// input; the second where they lie equally deep.
    pub fn or(self, other: Self) -> (e: Self)
        ensures
            e == deeper(self, self.spec_rest_len(), other, other.spec_rest_len()),
    {
        let left = self.rest_len();
        let other_left = other.rest_len();
        rank(self, left, other, other_left)
    }
}

impl<I: Copy> From<ZBaseError<I>> for ZExprError<I> {
    fn from(x: ZBaseError<I>) -> (e: Self) {
        ZExprError::ZBaseErr(x.rest_copy(), x)
    }
}

impl<I: Copy> FromSpecImpl<ZBaseError<I>> for ZExprError<I> {
    open spec fn obeys_from_spec() -> bool {
        true
    }

    open spec fn from_spec(x: ZBaseError<I>) -> Self {
        Self::of_base(x)
    }
}

impl<I: Copy> From<ZTypeError<I>> for ZExprError<I> {
    fn from(x: ZTypeError<I>) -> (e: Self) {
        ZExprError::ZTypeErr(x.rest_copy(), x)
    }
}

impl<I: Copy> FromSpecImpl<ZTypeError<I>> for ZExprError<I> {
    open spec fn obeys_from_spec() -> bool {
        true
    }

    open spec fn from_spec(x: ZTypeError<I>) -> Self {
        Self::of_type(x)
    }
}

impl ZExprError<Seq<char>> {
    /// Whether every remainder that the error holds is a suffix of the
    /// text.
    pub open spec fn within(self, text: Seq<char>) -> bool {
        match self {
            ZExprError::ZTypeErr(i, e) => is_suffix(i, text) && is_suffix(e.spec_rest(), text),
            ZExprError::ZBaseErr(i, e) => is_suffix(i, text) && is_suffix(e.spec_rest(), text),
            ZExprError::NomErr(i, _) => is_suffix(i, text),
        }
    }
}

impl<'a> ZExprError<&'a [char]> {
    /// The same error over the string that the characters were taken from.
    pub(crate) fn in_str<'b>(self, text: &'b str, total: usize) -> (e: ZExprError<&'b str>)
        requires
            total == text@.len(),
            self@.within(text@),
        ensures
            e@ == self@,
    {
        match self {
            ZExprError::ZTypeErr(i, inner) => ZExprError::ZTypeErr(
                tail_str(text, total, i.len()),
                inner.in_str(text, total),
            ),
            ZExprError::ZBaseErr(i, inner) => ZExprError::ZBaseErr(
                tail_str(text, total, i.len()),
                inner.in_str(text, total),
            ),
            ZExprError::NomErr(i, kind) => ZExprError::NomErr(tail_str(text, total, i.len()), kind),
        }
    }
}

/// Whether a character counts as white space between the items of a list:
/// a space, a tab, a carriage return or a line feed.
pub open spec fn is_space(c: char) -> bool {
    c == ' ' || c == '\t' || c == '\r' || c == '\n'
}

/// How many characters at the front of a text are white space.
pub open spec fn space_run(text: Seq<char>) -> nat
    decreases text.len(),
{
    if text.len() > 0 && is_space(text[0]) {
        1 + space_run(text.drop_first())
    } else {
        0
    }
}

impl Expr {
    /// The text form. An atom is its payload in the alphabet of 32 digits, a
    /// colon and its type. A list is its items in round brackets, with one
    /// space between two items.
    pub open spec fn print(self) -> Seq<char>
        decreases self,
    {
        match self {
            Expr::Atom(ty, at) => zbase::spec_encode(ZBase::Z32, at) + seq![':'] + ty.spec_text(),
            Expr::Cons(xs) => seq!['('] + Self::print_all(xs) + seq![')'],
        }
    }

    /// The text forms of some expressions with one space between two.
    pub open spec fn print_all(xs: Seq<Expr>) -> Seq<char>
        decreases xs,
    {
        if xs.len() == 0 {
            Seq::empty()
        } else {
            xs[0].print() + Self::print_more(xs.skip(1))
        }
    }

    /// The text forms of some expressions with one space before each.
    pub open spec fn print_more(xs: Seq<Expr>) -> Seq<char>
        decreases xs,
    {
        if xs.len() == 0 {
            Seq::empty()
        } else {
            seq![' '] + xs[0].print() + Self::print_more(xs.skip(1))
        }
    }

    /// Whether the text form holds all of the expression: the width of
    /// every type, in bits, fits in 64 bits.
    pub open spec fn printable(self) -> bool
        decreases self,
    {
        match self {
            Expr::Atom(ty, _) => match ty.width() {
                Some(w) => w * 8 <= u64::MAX,
                None => true,
            },
            Expr::Cons(xs) => forall|i: int| 0 <= i < xs.len() ==> (#[trigger] xs[i]).printable(),
        }
    }

    /// What `parse_atom` gives: the payload with its alphabet, a colon and
    /// the type, read as an atom.
    pub open spec fn parse_atom(text: Seq<char>) -> Result<
        (Seq<char>, Expr),
        ZExprError<Seq<char>>,
    > {
        match zbase::spec_parse(text) {
            Err(e) => Err(ZExprError::of_base(e)),
            Ok((rest, (_, at))) => if rest.len() > 0 && rest[0] == ':' {
                match ztype::spec_parse(rest.skip(1)) {
                    Err(e) => Err(ZExprError::of_type(e)),
                    Ok((rest, ty)) => Ok((rest, Expr::Atom(ty, at))),
                }
            } else {
                Err(ZExprError::of_base(ZBaseError::NomErr(rest, ErrorKind::Tag)))
            },
        }
    }

    /// What `parse` gives: an atom if the text begins with one, else a list.
    /// Where it begins with neither, the failure is the one of the two that
    /// lies deeper in the text, and that of the list where both lie equally
    /// deep.
    pub open spec fn parse(text: Seq<char>) -> Result<(Seq<char>, Expr), ZExprError<Seq<char>>>
        decreases text.len(), 1nat,
    {
        match Self::parse_atom(text) {
            Ok(found) => Ok(found),
            Err(first) => match Self::parse_cons(text) {
                Ok(found) => Ok(found),
                Err(second) => Err(
                    deeper(first, first.spec_rest().len(), second, second.spec_rest().len()),
                ),
            },
        }
    }

    /// What reading a list gives: a round bracket, the items, a round
    /// bracket.
    pub open spec fn parse_cons(text: Seq<char>) -> Result<
        (Seq<char>, Expr),
        ZExprError<Seq<char>>,
    >
        decreases text.len(), 0nat,
    {
        if text.len() > 0 && text[0] == '(' {
            let (rest, xs) = Self::parse_list(text.skip(1));
            if rest.len() > 0 && rest[0] == ')' {
                Ok((rest.skip(1), Expr::Cons(xs)))
            } else {
                Err(ZExprError::NomErr(rest, ErrorKind::Tag))
            }
        } else {
            Err(ZExprError::NomErr(text, ErrorKind::Tag))
        }
    }

    /// What reading the items of a list gives: as many expressions as stand
    /// there with white space between them, and the text after the last.
    /// Reading the items never fails: it stops before what is no item.
    ///
    /// The test that an item consumed something lets the definition be seen
    /// to end. It never fails, as `lemma_parse_within` shows.
    pub open spec fn parse_list(text: Seq<char>) -> (Seq<char>, Seq<Expr>)
        decreases text.len(), 2nat,
    {
        match Self::parse(text) {
            Err(_) => (text, Seq::empty()),
            Ok((rest, x)) => if rest.len() < text.len() {
                Self::parse_more(rest, seq![x])
            } else {
                (rest, seq![x])
            },
        }
    }

    /// What reading further items gives after `done` have been read: each
    /// further item stands after white space. White space that no item
    /// follows is left unread.
    pub open spec fn parse_more(text: Seq<char>, done: Seq<Expr>) -> (Seq<char>, Seq<Expr>)
        decreases text.len(), 2nat,
    {
        let gap = space_run(text) as int;
        if gap == 0 {
            (text, done)
        } else {
            proof {
                lemma_space_run(text);
            }
            match Self::parse(text.skip(gap)) {
                Err(_) => (text, done),
                Ok((rest, x)) => if rest.len() < text.len() {
                    Self::parse_more(rest, done.push(x))
                } else {
                    (rest, done.push(x))
                },
            }
        }
    }
}

/// The white space at the front of a text is white space, and what follows
/// it is the end of the text or no white space.
pub proof fn lemma_space_run(text: Seq<char>)
    ensures
        space_run(text) <= text.len(),
        space_run(text) < text.len() ==> !is_space(text[space_run(text) as int]),
        space_run(text) == 0 <==> !(text.len() > 0 && is_space(text[0])),
    decreases text.len(),
{
    if text.len() > 0 && is_space(text[0]) {
        lemma_space_run(text.drop_first());
    }
}

impl Expr {
    /// Whatever `parse_atom` returns holds suffixes of the text, and a
    /// proper one where it succeeds.
    pub proof fn lemma_parse_atom_within(text: Seq<char>)
        ensures
            match Self::parse_atom(text) {
                Ok((rest, _)) => is_suffix(rest, text) && rest.len() < text.len(),
                Err(e) => e.within(text),
            },
    {
        zbase::lemma_parse_within(text);
        match zbase::spec_parse(text) {
            Err(e) => {},
            Ok((rest, _)) => {
                if rest.len() > 0 && rest[0] == ':' {
                    let after = rest.skip(1);
                    lemma_skip_is_suffix(rest, 1);
                    lemma_suffix_of_suffix(after, rest, text);
                    ztype::lemma_parse_within(after);
                    match ztype::spec_parse(after) {
                        Err(e) => lemma_suffix_of_suffix(e.spec_rest(), after, text),
                        Ok((last, _)) => lemma_suffix_of_suffix(last, after, text),
                    }
                }
            },
        }
    }

    /// Whatever `parse` returns holds suffixes of the text, and a proper one
    /// where it succeeds.
    pub proof fn lemma_parse_within(text: Seq<char>)
        ensures
            match Self::parse(text) {
                Ok((rest, _)) => is_suffix(rest, text) && rest.len() < text.len(),
                Err(e) => e.within(text),
            },
        decreases text.len(), 1nat,
    {
        Self::lemma_parse_atom_within(text);
        Self::lemma_parse_cons_within(text);
    }

    /// Whatever reading a list returns holds a suffix of the text, and a
    /// proper one where it succeeds.
    pub proof fn lemma_parse_cons_within(text: Seq<char>)
        ensures
            match Self::parse_cons(text) {
                Ok((rest, _)) => is_suffix(rest, text) && rest.len() < text.len(),
                Err(e) => e.within(text),
            },
        decreases text.len(), 0nat,
    {
        lemma_suffix_whole(text);
        if text.len() > 0 && text[0] == '(' {
            let inner = text.skip(1);
            lemma_skip_is_suffix(text, 1);
            Self::lemma_parse_list_within(inner);
            let (rest, xs) = Self::parse_list(inner);
            lemma_suffix_of_suffix(rest, inner, text);
            if rest.len() > 0 && rest[0] == ')' {
                lemma_skip_is_suffix(rest, 1);
                lemma_suffix_of_suffix(rest.skip(1), rest, text);
            }
        }
    }

    /// Reading the items of a list leaves a suffix of the text.
    pub proof fn lemma_parse_list_within(text: Seq<char>)
        ensures
            is_suffix(Self::parse_list(text).0, text),
        decreases text.len(), 2nat,
    {
        lemma_suffix_whole(text);
        Self::lemma_parse_within(text);
        match Self::parse(text) {
            Err(_) => {},
            Ok((rest, x)) => {
                Self::lemma_parse_more_within(rest, seq![x]);
                lemma_suffix_of_suffix(Self::parse_more(rest, seq![x]).0, rest, text);
            },
        }
    }

    /// Reading further items of a list leaves a suffix of the text.
    pub proof fn lemma_parse_more_within(text: Seq<char>, done: Seq<Expr>)
        ensures
            is_suffix(Self::parse_more(text, done).0, text),
        decreases text.len(), 2nat,
    {
        lemma_suffix_whole(text);
        lemma_space_run(text);
        let gap = space_run(text) as int;
        if gap > 0 {
            let after = text.skip(gap);
            lemma_skip_is_suffix(text, gap);
            Self::lemma_parse_within(after);
            match Self::parse(after) {
                Err(_) => {},
                Ok((rest, x)) => {
                    lemma_suffix_of_suffix(rest, after, text);
                    Self::lemma_parse_more_within(rest, done.push(x));
                    lemma_suffix_of_suffix(Self::parse_more(rest, done.push(x)).0, rest, text);
                },
            }
        }
    }
}

impl Expr {
    /// One more expression at the end is printed after a space.
    pub proof fn lemma_print_more_push(xs: Seq<Expr>, x: Expr)
        ensures
            Self::print_more(xs.push(x)) == Self::print_more(xs) + seq![' '] + x.print(),
        decreases xs.len(),
    {
        let all = xs.push(x);
        if xs.len() == 0 {
            assert(all.skip(1) =~= Seq::<Expr>::empty());
            assert(Self::print_more(all.skip(1)) =~= Seq::<char>::empty());
            assert(Self::print_more(xs) =~= Seq::<char>::empty());
            assert(Self::print_more(all) =~= Self::print_more(xs) + seq![' '] + x.print());
        } else {
            assert(all.skip(1) =~= xs.skip(1).push(x));
            Self::lemma_print_more_push(xs.skip(1), x);
            assert(Self::print_more(all) =~= Self::print_more(xs) + seq![' '] + x.print());
        }
    }

    /// One more expression at the end of some is printed after a space.
    pub proof fn lemma_print_all_push(xs: Seq<Expr>, x: Expr)
        ensures
            Self::print_all(xs.push(x)) == if xs.len() == 0 {
                x.print()
            } else {
                Self::print_all(xs) + seq![' '] + x.print()
            },
    {
        let all = xs.push(x);
        if xs.len() == 0 {
            assert(all.skip(1) =~= Seq::<Expr>::empty());
            assert(Self::print_more(all.skip(1)) =~= Seq::<char>::empty());
            assert(Self::print_all(all) =~= x.print());
        } else {
            assert(all.skip(1) =~= xs.skip(1).push(x));
            Self::lemma_print_more_push(xs.skip(1), x);
            assert(Self::print_all(all) =~= Self::print_all(xs) + seq![' '] + x.print());
        }
    }
}

impl ZExpr {
    /// The text form of the expression.
    #[verifier::loop_isolation(false)]
    pub fn to_string(&self) -> (text: String)
        ensures
            text@ == self@.print(),
        decreases self,
    {
        proof {
            reveal_strlit(":");
            reveal_strlit("(");
            reveal_strlit(")");
            reveal_strlit(" ");
        }
        match self {
            ZExpr::Atom(ty, at) => {
                let text = zbase::encode(ZBase::Z32, at.as_slice()).concat(":").concat(
                    ty.to_string().as_str(),
                );
                proof {
                    assert(":"@ =~= seq![':']);
                }
                text
            },
            ZExpr::Cons(xs) => {
                let mut text = String::from_str("(");
                let ghost items = items_view(xs@);
                let mut k: usize = 0;
                proof {
                    assert("("@ =~= seq!['(']);
                    assert(items.take(0) =~= Seq::<Expr>::empty());
                    assert(text@ =~= seq!['('] + Expr::print_all(items.take(0)));
                }
                while k < xs.len()
                    invariant
                        k <= xs.len(),
                        text@ == seq!['('] + Expr::print_all(items.take(k as int)),
                    decreases xs.len() - k,
                {
                    let item = xs[k].to_string();
                    proof {
                        assert(items.take(k + 1) =~= items.take(k as int).push(xs[k as int]@));
                        Expr::lemma_print_all_push(items.take(k as int), xs[k as int]@);
                        assert(" "@ =~= seq![' ']);
                    }
                    if k > 0 {
                        text = text.concat(" ");
                    }
                    text = text.concat(item.as_str());
                    proof {
                        assert(text@ =~= seq!['('] + Expr::print_all(items.take(k + 1)));
                    }
                    k += 1;
                }
                proof {
                    assert(items.take(k as int) =~= items);
                    lemma_view_cons(*xs);
                    assert(")"@ =~= seq![')']);
                }
                text.concat(")")
            },
        }
    }
}

/// Reads an atom from the front of the input: the payload with its
/// alphabet, a colon, the type.
pub fn parse_atom_chars<'a>(i: &'a [char]) -> (r: Result<
    (&'a [char], ZExpr),
    ZExprError<&'a [char]>,
>)
    ensures
        match r {
            Ok((rest, x)) => Expr::parse_atom(i@) == Ok::<(Seq<char>, Expr), ZExprError<Seq<char>>>(
                (rest@, x@),
            ),
            Err(e) => Expr::parse_atom(i@) == Err::<(Seq<char>, Expr), ZExprError<Seq<char>>>(e@),
        },
{
    let (i, (_, at)) = match zbase::parse_chars(i) {
        Ok(found) => found,
        Err(e) => {
            return Err(ZExprError::from(e));
        },
    };
    let i = match strip_char(i, ':') {
        Some(rest) => rest,
        None => {
            return Err(ZExprError::from(ZBaseError::from_error_kind(i, ErrorKind::Tag)));
        },
    };
    let (i, ty) = match ztype::parse_chars(i) {
        Ok(found) => found,
        Err(e) => {
            return Err(ZExprError::from(e));
        },
    };
    Ok((i, ZExpr::Atom(ty, at)))
}

/// Reads an expression from the front of the input: an atom, or else a
/// list. Where neither is there, the failure of the two that lies deeper in
/// the input is returned.
pub fn parse_chars<'a>(i: &'a [char]) -> (r: Result<(&'a [char], ZExpr), ZExprError<&'a [char]>>)
    ensures
        match r {
            Ok((rest, x)) => Expr::parse(i@) == Ok::<(Seq<char>, Expr), ZExprError<Seq<char>>>(
                (rest@, x@),
            ),
            Err(e) => Expr::parse(i@) == Err::<(Seq<char>, Expr), ZExprError<Seq<char>>>(e@),
        },
    decreases i@.len(), 1nat,
{
    let first = match parse_atom_chars(i) {
        Ok(found) => {
            return Ok(found);
        },
        Err(e) => e,
    };
    let second = match parse_cons_chars(i) {
        Ok(found) => {
            return Ok(found);
        },
        Err(e) => e,
    };
    proof {
        Expr::lemma_parse_atom_within(i@);
        Expr::lemma_parse_cons_within(i@);
    }
    Err(ZExprError::append(i, ErrorKind::Alt, first.or(second)))
}

fn parse_cons_chars<'a>(i: &'a [char]) -> (r: Result<(&'a [char], ZExpr), ZExprError<&'a [char]>>)
    ensures
        match r {
            Ok((rest, x)) => Expr::parse_cons(i@) == Ok::<(Seq<char>, Expr), ZExprError<Seq<char>>>(
                (rest@, x@),
            ),
            Err(e) => Expr::parse_cons(i@) == Err::<(Seq<char>, Expr), ZExprError<Seq<char>>>(e@),
        },
    decreases i@.len(), 0nat,
{
    let i = match strip_char(i, '(') {
        Some(rest) => rest,
        None => {
            return Err(ZExprError::from_error_kind(i, ErrorKind::Tag));
        },
    };
    let (i, xs) = parse_list_chars(i);
    let i = match strip_char(i, ')') {
        Some(rest) => rest,
        None => {
            return Err(ZExprError::from_error_kind(i, ErrorKind::Tag));
        },
    };
    proof {
        lemma_view_cons(xs);
    }
    Ok((i, ZExpr::Cons(xs)))
}

fn skip_spaces<'a>(i: &'a [char]) -> (r: (&'a [char], usize))
    ensures
        r.1 == space_run(i@),
        r.1 <= i@.len(),
        r.0@ == i@.skip(r.1 as int),
{
    let mut k: usize = 0;
    proof {
        assert(i@.skip(0) =~= i@);
    }
    while k < i.len()
        invariant
            k <= i@.len(),
            space_run(i@) == k + space_run(i@.skip(k as int)),
        ensures
            k <= i@.len(),
            space_run(i@) == k,
        decreases i@.len() - k,
    {
        let c = i[k];
        if !(c == ' ' || c == '\t' || c == '\r' || c == '\n') {
            break ;
        }
        proof {
            assert(i@.skip(k as int).drop_first() =~= i@.skip(k + 1));
        }
        k += 1;
    }
    (slice_subrange(i, k, i.len()), k)
}

#[verifier::loop_isolation(false)]
fn parse_list_chars<'a>(input: &'a [char]) -> (r: (&'a [char], Vec<ZExpr>))
    ensures
        Expr::parse_list(input@) == (r.0@, items_view(r.1@)),
    decreases input@.len(), 2nat,
{
    let mut res: Vec<ZExpr> = Vec::new();
    let mut i = input;
    proof {
        Expr::lemma_parse_within(input@);
        assert(items_view(res@) =~= Seq::<Expr>::empty());
    }
    match parse_chars(i) {
        Err(_) => {
            return (i, res);
        },
        Ok((i1, o)) => {
            proof {
                assert(items_view(res@.push(o)) =~= seq![o@]);
            }
            res.push(o);
            i = i1;
        },
    }
    loop
        invariant
            i@.len() < input@.len(),
            Expr::parse_list(input@) == Expr::parse_more(i@, items_view(res@)),
        decreases i@.len(),
    {
        let (i1, gap) = skip_spaces(i);
        if gap == 0 {
            return (i, res);
        }
        proof {
            Expr::lemma_parse_within(i1@);
        }
        match parse_chars(i1) {
            Err(_) => {
                return (i, res);
            },
            Ok((i2, o)) => {
                proof {
                    assert(items_view(res@.push(o)) =~= items_view(res@).push(o@));
                }
                res.push(o);
                i = i2;
            },
        }
    }
}

/// Reads an atom from the front of the text and returns it with the text
/// after it.
pub fn parse_atom<'a>(i: &'a str) -> (r: Result<(&'a str, ZExpr), ZExprError<&'a str>>)
    ensures
        match r {
            Ok((rest, x)) => Expr::parse_atom(i@) == Ok::<(Seq<char>, Expr), ZExprError<Seq<char>>>(
                (rest@, x@),
            ),
            Err(e) => Expr::parse_atom(i@) == Err::<(Seq<char>, Expr), ZExprError<Seq<char>>>(e@),
        },
{
    let chars = chars_of(i);
    proof {
        Expr::lemma_parse_atom_within(i@);
    }
    match parse_atom_chars(chars.as_slice()) {
        Ok((rest, x)) => Ok((tail_str(i, chars.len(), rest.len()), x)),
        Err(e) => Err(e.in_str(i, chars.len())),
    }
}

/// Reads an expression from the front of the text and returns it with the
/// text after it.
pub fn parse<'a>(i: &'a str) -> (r: Result<(&'a str, ZExpr), ZExprError<&'a str>>)
    ensures
        match r {
            Ok((rest, x)) => Expr::parse(i@) == Ok::<(Seq<char>, Expr), ZExprError<Seq<char>>>(
                (rest@, x@),
            ),
            Err(e) => Expr::parse(i@) == Err::<(Seq<char>, Expr), ZExprError<Seq<char>>>(e@),
        },
{
    let chars = chars_of(i);
    proof {
        Expr::lemma_parse_within(i@);
    }
    match parse_chars(chars.as_slice()) {
        Ok((rest, x)) => Ok((tail_str(i, chars.len(), rest.len()), x)),
        Err(e) => Err(e.in_str(i, chars.len())),
    }
}

/// The characters that stand around the items of a list are no digits, no
/// names of alphabets and, but for the space, no white space.
pub proof fn lemma_punctuation()
    ensures
        !ZBase::Z32.alphabet().contains(':'),
        !ztype::decimal_digits().contains(' '),
        !ztype::decimal_digits().contains(')'),
        ZBase::of_code('(') is None,
        ZBase::of_code(')') is None,
        ZBase::of_code(' ') is None,
{
    ZBase::Z32.lemma_alphabet();
    ztype::lemma_decimal_digits();
    reveal_strlit("ybndrfg8ejkmcpqxot1uwisza345h769");
}

impl Expr {
    /// The text form of an expression begins with the name of an alphabet
    /// or with a round bracket.
    pub proof fn lemma_print_first(self)
        ensures
            self.print().len() > 0,
            self.print()[0] == 'v' || self.print()[0] == '(',
    {
    }

    /// What is written for an atom, followed by the end of the text or by a
    /// character that is no decimal digit, is read as the atom.
    pub proof fn lemma_print_atom_parse(ty: ZType, at: Seq<u8>, tail: Seq<char>)
        requires
            Expr::Atom(ty, at).printable(),
            tail.len() > 0 ==> !ztype::decimal_digits().contains(tail[0]),
        ensures
            Self::parse_atom(Expr::Atom(ty, at).print() + tail) == Ok::<
                (Seq<char>, Expr),
                ZExprError<Seq<char>>,
            >((tail, Expr::Atom(ty, at))),
    {
        let text = Expr::Atom(ty, at).print() + tail;
        let payload = zbase::spec_encode(ZBase::Z32, at);
        let type_text = ty.spec_text();
        let after = seq![':'] + (type_text + tail);
        assert(text == payload + after) by {
            assert(text =~= payload + after);
        }
        assert(after[0] == ':');
        assert(after.skip(1) == type_text + tail) by {
            assert(after.skip(1) =~= type_text + tail);
        }
        assert(zbase::spec_parse(text) == Ok::<(Seq<char>, (ZBase, Seq<u8>)), ZBaseError<Seq<char>>>(
            (after, (ZBase::Z32, at)),
        )) by {
            lemma_punctuation();
            zbase::lemma_encode_parse(ZBase::Z32, at, after);
        }
        assert(ztype::spec_parse(type_text + tail) == Ok::<(Seq<char>, ZType), ZTypeError<Seq<char>>>(
            (tail, ty),
        )) by {
            ztype::lemma_text_parse(ty, tail);
        }
    }

    /// A text that begins with a round bracket is read as a list, if what
    /// stands between the brackets is read as its items.
    pub proof fn lemma_brackets_parse(xs: Seq<Expr>, inner: Seq<char>, tail: Seq<char>)
        requires
            Self::parse_list(inner) == (seq![')'] + tail, xs),
        ensures
            Self::parse(seq!['('] + inner) == Ok::<(Seq<char>, Expr), ZExprError<Seq<char>>>(
                (tail, Expr::Cons(xs)),
            ),
    {
        let text = seq!['('] + inner;
        lemma_punctuation();
        assert(text.skip(1) =~= inner);
        assert(zbase::spec_parse(text) is Err);
        assert(Self::parse_atom(text) is Err);
        assert((seq![')'] + tail).skip(1) =~= tail);
    }

    /// Round trip of the text form: what is written for an expression,
    /// followed by the end of the text or by a character that is no decimal
    /// digit, is read as the expression, and what followed is left.
    pub proof fn lemma_print_parse(self, tail: Seq<char>)
        requires
            self.printable(),
            tail.len() > 0 ==> !ztype::decimal_digits().contains(tail[0]),
        ensures
            Self::parse(self.print() + tail) == Ok::<(Seq<char>, Expr), ZExprError<Seq<char>>>(
                (tail, self),
            ),
        decreases self,
    {
        match self {
            Expr::Atom(ty, at) => {
                Self::lemma_print_atom_parse(ty, at, tail);
            },
            Expr::Cons(xs) => {
                let close = seq![')'] + tail;
                let inner = Self::print_all(xs) + close;
                Self::lemma_print_all_parse(xs, close);
                Self::lemma_brackets_parse(xs, inner, tail);
                assert(self.print() + tail =~= seq!['('] + inner);
            },
        }
    }

    /// What is written for the items of a list, followed by the closing
    /// bracket, is read as the items.
    pub proof fn lemma_print_all_parse(xs: Seq<Expr>, close: Seq<char>)
        requires
            forall|i: int| 0 <= i < xs.len() ==> (#[trigger] xs[i]).printable(),
            close.len() > 0,
            close[0] == ')',
        ensures
            Self::parse_list(Self::print_all(xs) + close) == (close, xs),
        decreases xs,
    {
        let text = Self::print_all(xs) + close;
        lemma_punctuation();
        if xs.len() == 0 {
            assert(text =~= close);
            assert(zbase::spec_parse(close) is Err);
            assert(Self::parse_atom(close) is Err);
            assert(Self::parse_cons(close) is Err);
        } else {
            let first = xs[0];
            let others = xs.skip(1);
            let after = Self::print_more(others) + close;
            assert(text =~= first.print() + after);
            assert(after.len() > 0 && (after[0] == ' ' || after[0] == ')')) by {
                if others.len() > 0 {
                    assert(Self::print_more(others)[0] == ' ');
                }
            }
            first.lemma_print_parse(after);
            first.lemma_print_first();
            assert forall|i: int| 0 <= i < others.len() implies (#[trigger] others[i]).printable() by {
                assert(others[i] == xs[i + 1]);
            }
            Self::lemma_print_more_parse(others, seq![first], close);
            assert(seq![first] + others =~= xs);
        }
    }

    /// What is written for further items of a list, followed by the closing
    /// bracket, is read as those items after the ones that were read.
    pub proof fn lemma_print_more_parse(xs: Seq<Expr>, done: Seq<Expr>, close: Seq<char>)
        requires
            forall|i: int| 0 <= i < xs.len() ==> (#[trigger] xs[i]).printable(),
            close.len() > 0,
            close[0] == ')',
        ensures
            Self::parse_more(Self::print_more(xs) + close, done) == (close, done + xs),
        decreases xs,
    {
        let text = Self::print_more(xs) + close;
        lemma_punctuation();
        lemma_space_run(text);
        if xs.len() == 0 {
            assert(text =~= close);
            assert(done + xs =~= done);
        } else {
            let first = xs[0];
            let others = xs.skip(1);
            let after = Self::print_more(others) + close;
            first.lemma_print_first();
            assert(text =~= seq![' '] + (first.print() + after));
            assert(text.drop_first() =~= first.print() + after);
            lemma_space_run(text.drop_first());
            assert(space_run(text) == 1);
            assert(text.skip(1) =~= first.print() + after);
            assert(after.len() > 0 && (after[0] == ' ' || after[0] == ')')) by {
                if others.len() > 0 {
                    assert(Self::print_more(others)[0] == ' ');
                }
            }
            first.lemma_print_parse(after);
            assert forall|i: int| 0 <= i < others.len() implies (#[trigger] others[i]).printable() by {
                assert(others[i] == xs[i + 1]);
            }
            Self::lemma_print_more_parse(others, done.push(first), close);
            assert(done.push(first) + others =~= done + xs);
        }
    }
}

} // verus!
