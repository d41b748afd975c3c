use zexpr::input::ErrorKind;
use zexpr::zbase::ZBase;
use zexpr::zbase::ZBaseError;
use zexpr::zexpr::parse;
use zexpr::zexpr::parse_atom;
use zexpr::zexpr::ZExprDeserialError;
use zexpr::zexpr::ZExprError;
use zexpr::ztype::ZType;
use zexpr::ztype::ZType::Bytes;
use zexpr::ztype::ZTypeError;
use zexpr::ZExpr;

struct Gen {
    state: u64,
}

impl Gen {
    fn next(&mut self) -> u64 {
        self.state = self
            .state
            .wrapping_mul(6364136223846793005)
            .wrapping_add(1442695040888963407);
        self.state >> 33
    }

    fn bytes(&mut self) -> Vec<u8> {
        let len = (self.next() % 12) as usize;
        let zeros = (self.next() % 3) as usize;
        let mut out = vec![0u8; zeros.min(len)];
        while out.len() < len {
            out.push(self.next() as u8);
        }
        out
    }

    fn ztype(&mut self, payload: usize, exact: bool) -> ZType {
        let width = match self.next() % 3 {
            0 => None,
            _ if exact => Some(payload as u64),
            _ => Some(self.next() % 1000),
        };
        ZType::deserialize(&[(self.next() % 8) as u8], width).unwrap()
    }

    fn expr(&mut self, depth: u32, exact: bool) -> ZExpr {
        if depth == 0 || self.next() % 3 != 0 {
            let payload = self.bytes();
            ZExpr::Atom(self.ztype(payload.len(), exact), payload)
        } else {
            let len = (self.next() % 5) as usize;
            let mut items = Vec::new();
            for _ in 0..len {
                items.push(self.expr(depth - 1, exact));
            }
            ZExpr::Cons(items)
        }
    }
}

#[test]
fn lib_zexpr_print() {
    let a = ZExpr::Atom(Bytes(None), vec![0]);
    assert_eq!(a.to_string(), "vy:bytes");
    assert_eq!(a.serialize(), vec![0, 0, 1, 0]);
    assert_eq!(
        ZExpr::deserialize(&vec![0, 0, 1, 0]).unwrap(),
        (b"".as_ref(), a.clone())
    );
    let b = ZExpr::Atom(Bytes(Some(1)), vec![0]);
    assert_eq!(b.to_string(), "vy:bytes8");
    assert_eq!(b.serialize(), vec![64, 0, 1, 0]);
    assert_eq!(
        ZExpr::deserialize(&vec![64, 0, 1, 0]).unwrap(),
        (b"".as_ref(), b.clone())
    );

    let c = ZExpr::Cons(vec![a.clone(), a.clone(), a.clone()]);
    assert_eq!(c.to_string(), "(vy:bytes vy:bytes vy:bytes)");
    assert_eq!(parse(&c.to_string()), Ok(("", c.clone())));
    assert_eq!(c.serialize(), vec![128, 3, 0, 0, 1, 0, 0, 0, 1, 0, 0, 0, 1, 0]);
    assert_eq!(
        ZExpr::deserialize(&vec![128, 3, 0, 0, 1, 0, 0, 0, 1, 0, 0, 0, 1, 0]).unwrap(),
        (b"".as_ref(), c.clone())
    );
    let c = ZExpr::Cons(vec![ZExpr::Cons(vec![])]);
    assert_eq!(parse(&c.to_string()), Ok(("", c)));
}

#[test]
fn zexpr_zexpr_print() {
    let a = ZExpr::Atom(Bytes(None), vec![0]);
    assert_eq!(a.to_string(), "vy:bytes");

    let c = ZExpr::Cons(vec![a.clone(), a.clone(), a.clone()]);
    assert_eq!(c.to_string(), "(vy:bytes vy:bytes vy:bytes)");
    assert_eq!(parse(&c.to_string()), Ok(("", c)));
    let c = ZExpr::Cons(vec![ZExpr::Cons(vec![])]);
    assert_eq!(parse(&c.to_string()), Ok(("", c)));
}

#[test]
fn nested_empty_list_prints_as_brackets() {
    let c = ZExpr::Cons(vec![ZExpr::Cons(vec![])]);
    assert_eq!(c.to_string(), "(())");
    assert_eq!(ZExpr::Cons(vec![]).to_string(), "()");
    assert_eq!(c.serialize(), vec![0x80, 1, 0x80, 0]);
}

#[test]
fn atom_with_width_sets_the_header_bit() {
    let b = ZExpr::Atom(Bytes(Some(1)), vec![0]);
    let bytes = b.serialize();
    assert_eq!(bytes[0], 0x40);
    assert_eq!(&bytes[1..], &[0x00, 0x01, 0x00]);
}

#[test]
fn list_of_three_atoms_has_fourteen_bytes() {
    let a = ZExpr::Atom(Bytes(None), vec![0]);
    let c = ZExpr::Cons(vec![a.clone(), a.clone(), a.clone()]);
    let bytes = c.serialize();
    assert_eq!(bytes.len(), 14);
    assert_eq!(bytes[0], 0x80);
    assert_eq!(bytes[1], 0x03);
    assert_eq!(&bytes[2..6], a.serialize().as_slice());
    assert_eq!(&bytes[6..10], a.serialize().as_slice());
    assert_eq!(&bytes[10..14], a.serialize().as_slice());
}

#[test]
fn serialize_writes_every_tag() {
    for tag in 0..8u8 {
        let ty = ZType::deserialize(&[tag], None).unwrap();
        assert_eq!(ZExpr::Atom(ty, vec![]).serialize(), vec![0, tag, 0]);
        let ty = ZType::deserialize(&[tag], Some(0)).unwrap();
        assert_eq!(ZExpr::Atom(ty, vec![]).serialize(), vec![0x40, tag, 0]);
    }
}

#[test]
fn serialize_uses_the_least_length_bytes() {
    let short = ZExpr::Atom(Bytes(None), vec![7; 255]).serialize();
    assert_eq!(&short[..3], &[0x00, 0x00, 255]);
    assert_eq!(short.len(), 3 + 255);
    let long = ZExpr::Atom(Bytes(None), vec![7; 256]).serialize();
    assert_eq!(&long[..4], &[0x01, 0x00, 1, 0]);
    assert_eq!(long.len(), 4 + 256);
    let longer = ZExpr::Atom(ZType::Hash(Some(70000)), vec![9; 70000]).serialize();
    assert_eq!(&longer[..5], &[0x42, 0x07, 1, 0x11, 0x70]);
    let many = ZExpr::Cons(vec![ZExpr::Cons(vec![]); 300]).serialize();
    assert_eq!(&many[..3], &[0x81, 1, 44]);
    assert_eq!(many.len(), 3 + 600);
}

#[test]
fn serialize_does_not_write_a_width_that_differs_from_the_length() {
    let x = ZExpr::Atom(Bytes(Some(2)), vec![0]);
    assert_eq!(x.serialize(), vec![0x40, 0, 1, 0]);
    assert_eq!(
        ZExpr::deserialize(&x.serialize()).unwrap(),
        (b"".as_ref(), ZExpr::Atom(Bytes(Some(1)), vec![0]))
    );
}

#[test]
fn round_trip_of_binary_form() {
    let mut gen = Gen { state: 99 };
    for _ in 0..300 {
        let x = gen.expr(4, true);
        let bytes = x.serialize();
        assert_eq!(ZExpr::deserialize(&bytes), Ok((b"".as_ref(), x.clone())));
        let mut longer = bytes.clone();
        longer.extend_from_slice(&[1, 2, 3]);
        assert_eq!(ZExpr::deserialize(&longer), Ok((&[1u8, 2, 3][..], x)));
    }
}

#[test]
fn round_trip_of_text_form() {
    let mut gen = Gen { state: 4 };
    for _ in 0..300 {
        let x = gen.expr(4, false);
        let text = x.to_string();
        assert_eq!(parse(&text), Ok(("", x.clone())));
        let longer = format!("{} tail", text);
        assert_eq!(parse(&longer), Ok((" tail", x)));
    }
}

#[test]
fn clone_gives_an_equal_expression() {
    let mut gen = Gen { state: 5 };
    for _ in 0..50 {
        let x = gen.expr(4, false);
        assert_eq!(x.clone(), x);
    }
}

#[test]
fn deserialize_of_nothing_fails() {
    assert_eq!(
        ZExpr::deserialize(&[]),
        Err(ZExprDeserialError::NomErr(&[][..], ErrorKind::Eof))
    );
}

#[test]
fn deserialize_of_truncated_atom_fails_where_bytes_are_missing() {
    assert_eq!(
        ZExpr::deserialize(&[0]),
        Err(ZExprDeserialError::NomErr(&[][..], ErrorKind::Eof))
    );
    assert_eq!(
        ZExpr::deserialize(&[0, 0]),
        Err(ZExprDeserialError::NomErr(&[][..], ErrorKind::Eof))
    );
    assert_eq!(
        ZExpr::deserialize(&[1, 0, 0]),
        Err(ZExprDeserialError::NomErr(&[0u8][..], ErrorKind::Eof))
    );
    assert_eq!(
        ZExpr::deserialize(&[0, 0, 2, 0]),
        Err(ZExprDeserialError::NomErr(&[0u8][..], ErrorKind::Eof))
    );
    assert_eq!(
        ZExpr::deserialize(&[0x08, 0]),
        Err(ZExprDeserialError::NomErr(&[0u8][..], ErrorKind::Eof))
    );
    assert_eq!(
        ZExpr::deserialize(&[0x07, 0, 255, 255, 255, 255, 255, 255, 255, 255, 1, 2]),
        Err(ZExprDeserialError::NomErr(&[1u8, 2][..], ErrorKind::Eof))
    );
}

#[test]
fn deserialize_of_unknown_tag_fails_after_the_tag() {
    assert_eq!(
        ZExpr::deserialize(&[0, 8, 1, 0]),
        Err(ZExprDeserialError::InvalidZTypeCode(&[1u8, 0][..], vec![8]))
    );
    assert_eq!(
        ZExpr::deserialize(&[0x08, 0, 0, 1, 0]),
        Err(ZExprDeserialError::InvalidZTypeCode(&[1u8, 0][..], vec![0, 0]))
    );
    assert_eq!(
        ZExpr::deserialize(&[0, 9]),
        Err(ZExprDeserialError::NomErr(&[][..], ErrorKind::Eof))
    );
}

#[test]
fn deserialize_accepts_longer_length_fields() {
    assert_eq!(
        ZExpr::deserialize(&[0x01, 0, 0, 1, 7]),
        Ok((&[][..], ZExpr::Atom(Bytes(None), vec![7])))
    );
    assert_eq!(
        ZExpr::deserialize(&[0x87, 0, 0, 0, 0, 0, 0, 0, 0, 5]),
        Ok((&[5u8][..], ZExpr::Cons(vec![])))
    );
}

#[test]
fn deserialize_takes_the_length_as_width_where_the_header_says_so() {
    assert_eq!(
        ZExpr::deserialize(&[0x40, 3, 1, 9, 8]),
        Ok((&[8u8][..], ZExpr::Atom(ZType::Int(Some(1)), vec![9])))
    );
    assert_eq!(
        ZExpr::deserialize(&[0x40, 7, 0]),
        Ok((&[][..], ZExpr::Atom(ZType::Hash(Some(0)), vec![])))
    );
    assert_eq!(
        ZExpr::deserialize(&[0x00, 7, 0]),
        Ok((&[][..], ZExpr::Atom(ZType::Hash(None), vec![])))
    );
}

#[test]
fn deserialize_ignores_the_unused_bits_of_a_list_header() {
    assert_eq!(
        ZExpr::deserialize(&[0xF8, 0]),
        Ok((&[][..], ZExpr::Cons(vec![])))
    );
}

#[test]
fn deserialize_of_a_list_fails_as_its_first_bad_item() {
    assert_eq!(
        ZExpr::deserialize(&[0x80, 2, 0, 0, 1, 0]),
        Err(ZExprDeserialError::NomErr(&[][..], ErrorKind::Eof))
    );
    assert_eq!(
        ZExpr::deserialize(&[0x80, 2, 0, 8, 0, 0, 0, 0]),
        Err(ZExprDeserialError::InvalidZTypeCode(&[0u8, 0, 0, 0][..], vec![8]))
    );
    assert_eq!(
        ZExpr::deserialize(&[0x80]),
        Err(ZExprDeserialError::NomErr(&[][..], ErrorKind::Eof))
    );
    assert_eq!(
        ZExpr::deserialize(&[0x87, 255, 255, 255, 255, 255, 255, 255, 255, 0x80, 0]),
        Err(ZExprDeserialError::NomErr(&[][..], ErrorKind::Eof))
    );
}

#[test]
fn deserialize_reads_items_from_left_to_right() {
    let bytes = [0x80, 2, 0x00, 1, 1, 10, 0x80, 1, 0x40, 2, 2, 20, 30, 99];
    assert_eq!(
        ZExpr::deserialize(&bytes),
        Ok((
            &[99u8][..],
            ZExpr::Cons(vec![
                ZExpr::Atom(ZType::Symbol(None), vec![10]),
                ZExpr::Cons(vec![ZExpr::Atom(ZType::Nat(Some(2)), vec![20, 30])]),
            ])
        ))
    );
}

#[test]
fn deserial_error_rest_and_ranking() {
    let code = ZExprDeserialError::InvalidZTypeCode(&[1u8, 0][..], vec![8]);
    let end = ZExprDeserialError::NomErr(&[][..], ErrorKind::Eof);
    assert_eq!(code.clone().rest(), &[1u8, 0][..]);
    assert_eq!(end.clone().rest(), &[][..]);
    assert_eq!(code.clone().or(end.clone()), end);
    assert_eq!(end.clone().or(code.clone()), end);
    let other = ZExprDeserialError::NomErr(&[5u8, 6][..], ErrorKind::Eof);
    assert_eq!(code.clone().or(other.clone()), other);
    assert_eq!(other.clone().or(code.clone()), code);
    assert_eq!(
        ZExprDeserialError::append(&[1u8, 2, 3][..], ErrorKind::Count, code.clone()),
        code
    );
    assert_eq!(
        ZExprDeserialError::append(&[1u8][..], ErrorKind::Count, code.clone()),
        ZExprDeserialError::NomErr(&[1u8][..], ErrorKind::Count)
    );
    assert_eq!(
        ZExprDeserialError::from_error_kind(&[1u8][..], ErrorKind::Eof),
        ZExprDeserialError::NomErr(&[1u8][..], ErrorKind::Eof)
    );
}

#[test]
fn print_known_values() {
    let x = ZExpr::Cons(vec![
        ZExpr::Atom(ZType::Hash(Some(2)), vec![0xff, 0xff]),
        ZExpr::Cons(vec![]),
        ZExpr::Atom(ZType::Text(None), vec![]),
    ]);
    assert_eq!(x.to_string(), "(vb999:hash16 () v:text)");
}

#[test]
fn parse_expression_known_values() {
    assert_eq!(
        parse("vy:bytes rest"),
        Ok((" rest", ZExpr::Atom(Bytes(None), vec![0])))
    );
    assert_eq!(
        parse("xff:nat8"),
        Ok(("", ZExpr::Atom(ZType::Nat(Some(1)), vec![255])))
    );
    assert_eq!(
        parse("(b101:int d256:char16)x"),
        Ok((
            "x",
            ZExpr::Cons(vec![
                ZExpr::Atom(ZType::Int(None), vec![5]),
                ZExpr::Atom(ZType::Char(Some(2)), vec![1, 0]),
            ])
        ))
    );
    assert_eq!(parse("()"), Ok(("", ZExpr::Cons(vec![]))));
    assert_eq!(
        parse("(() ())"),
        Ok(("", ZExpr::Cons(vec![ZExpr::Cons(vec![]), ZExpr::Cons(vec![])])))
    );
    assert_eq!(
        parse("(()())"),
        Err(ZExprError::NomErr("())", ErrorKind::Tag))
    );
}

#[test]
fn parse_accepts_any_white_space_between_items() {
    let a = ZExpr::Atom(Bytes(None), vec![0]);
    assert_eq!(
        parse("(vy:bytes \t\r\n  vy:bytes\nvy:bytes)"),
        Ok(("", ZExpr::Cons(vec![a.clone(), a.clone(), a.clone()])))
    );
}

#[test]
fn parse_leaves_white_space_that_no_item_follows() {
    assert_eq!(
        parse("(vy:bytes )"),
        Err(ZExprError::NomErr(" )", ErrorKind::Tag))
    );
    assert_eq!(
        parse("( vy:bytes)"),
        Err(ZExprError::NomErr(" vy:bytes)", ErrorKind::Tag))
    );
}

#[test]
fn parse_of_an_open_list_fails_where_the_bracket_is_missing() {
    assert_eq!(parse("("), Err(ZExprError::NomErr("", ErrorKind::Tag)));
    assert_eq!(
        parse("(vy:bytes"),
        Err(ZExprError::NomErr("", ErrorKind::Tag))
    );
    assert_eq!(
        parse("(vy:bytes vy:bytes9)"),
        Err(ZExprError::NomErr(" vy:bytes9)", ErrorKind::Tag))
    );
    assert_eq!(
        parse("(vy:bytes9)"),
        Err(ZExprError::NomErr("vy:bytes9)", ErrorKind::Tag))
    );
}

#[test]
fn parse_of_neither_atom_nor_list_fails_at_the_start() {
    assert_eq!(parse(""), Err(ZExprError::NomErr("", ErrorKind::Tag)));
    assert_eq!(parse("zz"), Err(ZExprError::NomErr("zz", ErrorKind::Tag)));
    assert_eq!(parse(")"), Err(ZExprError::NomErr(")", ErrorKind::Tag)));
}

#[test]
fn parse_keeps_the_deeper_error_of_the_atom() {
    assert_eq!(
        parse("vy:bytes9"),
        Err(ZExprError::ZTypeErr(
            "",
            ZTypeError::UnalignedTypeIndex("", 9)
        ))
    );
    assert_eq!(
        parse("vy:foo"),
        Err(ZExprError::ZTypeErr(
            "foo",
            ZTypeError::NomErr("foo", ErrorKind::Tag)
        ))
    );
    assert_eq!(
        parse("vy bytes"),
        Err(ZExprError::ZBaseErr(
            " bytes",
            ZBaseError::NomErr(" bytes", ErrorKind::Tag)
        ))
    );
    assert_eq!(
        parse("vy:nat18446744073709551616)"),
        Err(ZExprError::ZTypeErr(
            ")",
            ZTypeError::InvalidU64TypeIndex(")")
        ))
    );
}

#[test]
fn parse_atom_known_values() {
    assert_eq!(
        parse_atom("vy:bytes8)"),
        Ok((")", ZExpr::Atom(Bytes(Some(1)), vec![0])))
    );
    assert_eq!(
        parse_atom("(vy:bytes)"),
        Err(ZExprError::ZBaseErr(
            "(vy:bytes)",
            ZBaseError::NomErr("(vy:bytes)", ErrorKind::Tag)
        ))
    );
    assert_eq!(
        parse_atom(""),
        Err(ZExprError::ZBaseErr("", ZBaseError::NomErr("", ErrorKind::Tag)))
    );
    assert_eq!(
        parse_atom("v:"),
        Err(ZExprError::ZTypeErr("", ZTypeError::NomErr("", ErrorKind::Tag)))
    );
}

#[test]
fn expr_error_rest_and_conversions() {
    let ty = ZTypeError::UnalignedTypeIndex("ab", 9);
    let base = ZBaseError::InvalidEncoding("abc", ZBase::Z2);
    assert_eq!(
        ZExprError::from(ty.clone()),
        ZExprError::ZTypeErr("ab", ty.clone())
    );
    assert_eq!(
        ZExprError::from(base.clone()),
        ZExprError::ZBaseErr("abc", base.clone())
    );
    assert_eq!(ZExprError::from(ty).rest(), "ab");
    assert_eq!(ZExprError::from(base).rest(), "abc");
    assert_eq!(ZExprError::NomErr("x", ErrorKind::Tag).rest(), "x");
    assert_eq!(
        ZExprError::from_error_kind("x", ErrorKind::Alt),
        ZExprError::NomErr("x", ErrorKind::Alt)
    );
}

#[test]
fn expr_error_ranking_keeps_the_deeper() {
    let shallow = ZExprError::NomErr("(vy:bytes9)", ErrorKind::Tag);
    let deep = ZExprError::ZTypeErr(")", ZTypeError::UnalignedTypeIndex(")", 9));
    assert_eq!(shallow.clone().or(deep.clone()), deep);
    assert_eq!(deep.clone().or(shallow.clone()), deep);
    let first = ZExprError::NomErr("ab", ErrorKind::Tag);
    let second = ZExprError::NomErr("xy", ErrorKind::Alt);
    assert_eq!(first.clone().or(second.clone()), second);
    assert_eq!(second.clone().or(first.clone()), first);
    assert_eq!(
        ZExprError::append("(vy:bytes9)", ErrorKind::Alt, deep.clone()),
        deep
    );
    assert_eq!(
        ZExprError::append("", ErrorKind::Alt, deep.clone()),
        ZExprError::NomErr("", ErrorKind::Alt)
    );
}

#[test]
fn string_lengths_are_measured_in_bytes() {
    let first = ZExprError::NomErr("é", ErrorKind::Tag);
    let second = ZExprError::NomErr("ab", ErrorKind::Alt);
    assert_eq!(first.clone().or(second.clone()), second);
    assert_eq!(second.clone().or(first.clone()), first);
}

#[test]
fn chars_versions_of_expression_parsers() {
    let text: Vec<char> = "(vy:bytes) x".chars().collect();
    let (rest, x) = zexpr::zexpr::parse_chars(&text).unwrap();
    assert_eq!(rest, &text[10..]);
    assert_eq!(x, ZExpr::Cons(vec![ZExpr::Atom(Bytes(None), vec![0])]));
    let (rest, x) = zexpr::zexpr::parse_atom_chars(&text[1..]).unwrap();
    assert_eq!(rest, &text[9..]);
    assert_eq!(x, ZExpr::Atom(Bytes(None), vec![0]));
}

#[test]
fn deep_lists_round_trip() {
    let mut x = ZExpr::Cons(vec![]);
    for _ in 0..200 {
        x = ZExpr::Cons(vec![x, ZExpr::Atom(Bytes(None), vec![1, 2, 3])]);
    }
    assert_eq!(parse(&x.to_string()), Ok(("", x.clone())));
    assert_eq!(ZExpr::deserialize(&x.serialize()), Ok((&[][..], x)));
}

#[test]
fn rank_keeps_the_first_only_where_it_left_less() {
    assert_eq!(zexpr::input::rank("first", 1, "second", 2), "first");
    assert_eq!(zexpr::input::rank("first", 2, "second", 2), "second");
    assert_eq!(zexpr::input::rank("first", 3, "second", 2), "second");
    assert_eq!(zexpr::input::rank("first", 0, "second", 0), "second");
}
