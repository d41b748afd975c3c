use zexpr::input::ErrorKind;
use zexpr::ztype::decimal_string;
use zexpr::ztype::parse;
use zexpr::ztype::parse_index;
use zexpr::ztype::ZType;
use zexpr::ztype::ZTypeError;

fn kinds(width: Option<u64>) -> [ZType; 8] {
    [
        ZType::Bytes(width),
        ZType::Symbol(width),
        ZType::Nat(width),
        ZType::Int(width),
        ZType::Float(width),
        ZType::Text(width),
        ZType::Char(width),
        ZType::Hash(width),
    ]
}

#[test]
fn test_parse() {
    assert_eq!(parse_index("8"), Ok(("", Some(1))));

    assert_eq!(
        parse_index("9"),
        Err(ZTypeError::UnalignedTypeIndex("", 9))
    );
    assert_eq!(ZType::Bytes(Some(1)).to_string(), String::from("bytes8"));

    let parser = |i: &'static str| match i.strip_prefix("bytes") {
        Some(rest) => parse_index(rest).map(|(rest, x)| (rest, ZType::Bytes(x))),
        None => Err(ZTypeError::NomErr(i, ErrorKind::Tag)),
    };

    assert_eq!(
        parser("bytes9"),
        Err(ZTypeError::UnalignedTypeIndex("", 9))
    );
    assert_eq!(
        parse("bytes9"),
        Err(ZTypeError::UnalignedTypeIndex("", 9))
    );
}

#[test]
fn tag_bytes_are_zero_to_seven() {
    for width in [None, Some(0), Some(4), Some(u64::MAX)] {
        for (n, ty) in kinds(width).iter().enumerate() {
            assert_eq!(ty.serialize(), &[n as u8]);
        }
    }
}

#[test]
fn tag_bytes_read_back_with_the_width_given() {
    for width in [None, Some(0), Some(4), Some(u64::MAX)] {
        for ty in kinds(width).iter() {
            assert_eq!(ZType::deserialize(ty.serialize(), width), Some(*ty));
            assert_eq!(ZType::deserialize(ty.serialize(), None), Some(ty.with_width(None)));
        }
    }
}

#[test]
fn unknown_tag_bytes_name_no_type() {
    assert_eq!(ZType::deserialize(&[8], None), None);
    assert_eq!(ZType::deserialize(&[255], Some(1)), None);
    assert_eq!(ZType::deserialize(&[], None), None);
    assert_eq!(ZType::deserialize(&[0, 0], None), None);
    assert_eq!(ZType::deserialize(&[7, 0], None), None);
}

#[test]
fn is_some_len_tells_whether_a_width_is_there() {
    for ty in kinds(None).iter() {
        assert!(!ty.is_some_len());
        assert_eq!(ty.index(), None);
    }
    for ty in kinds(Some(0)).iter() {
        assert!(ty.is_some_len());
        assert_eq!(ty.index(), Some(0));
    }
}

#[test]
fn type_text_known_values() {
    assert_eq!(ZType::Bytes(None).to_string(), "bytes");
    assert_eq!(ZType::Symbol(None).to_string(), "symbol");
    assert_eq!(ZType::Nat(None).to_string(), "nat");
    assert_eq!(ZType::Int(None).to_string(), "int");
    assert_eq!(ZType::Float(None).to_string(), "float");
    assert_eq!(ZType::Text(None).to_string(), "text");
    assert_eq!(ZType::Char(None).to_string(), "char");
    assert_eq!(ZType::Hash(None).to_string(), "hash");
    assert_eq!(ZType::Hash(Some(32)).to_string(), "hash256");
    assert_eq!(ZType::Int(Some(8)).to_string(), "int64");
    assert_eq!(ZType::Nat(Some(0)).to_string(), "nat0");
    assert_eq!(
        ZType::Bytes(Some(u64::MAX / 8)).to_string(),
        "bytes18446744073709551608"
    );
    assert_eq!(
        ZType::Bytes(Some(u64::MAX)).to_string(),
        "bytes147573952589676412920"
    );
}

#[test]
fn decimal_known_values() {
    assert_eq!(decimal_string(0), "0");
    assert_eq!(decimal_string(7), "7");
    assert_eq!(decimal_string(10), "10");
    assert_eq!(decimal_string(1234567890), "1234567890");
    assert_eq!(decimal_string(u128::MAX), u128::MAX.to_string());
}

#[test]
fn round_trip_of_type_text() {
    let widths = [
        None,
        Some(0),
        Some(1),
        Some(2),
        Some(12),
        Some(1000),
        Some(u64::MAX / 8),
    ];
    for width in widths {
        for ty in kinds(width).iter() {
            assert_eq!(parse(&ty.to_string()), Ok(("", *ty)));
        }
    }
}

#[test]
fn type_text_of_too_wide_a_type_does_not_read_back() {
    let ty = ZType::Bytes(Some(u64::MAX / 8 + 1));
    assert_eq!(ty.to_string(), "bytes18446744073709551616");
    assert_eq!(
        parse(&ty.to_string()),
        Err(ZTypeError::InvalidU64TypeIndex(""))
    );
}

#[test]
fn parse_type_known_values() {
    assert_eq!(parse("bytes8"), Ok(("", ZType::Bytes(Some(1)))));
    assert_eq!(parse("bytes"), Ok(("", ZType::Bytes(None))));
    assert_eq!(parse("int64 x"), Ok((" x", ZType::Int(Some(8)))));
    assert_eq!(parse("hash256)"), Ok((")", ZType::Hash(Some(32)))));
    assert_eq!(parse("textual"), Ok(("ual", ZType::Text(None))));
    assert_eq!(parse("char0"), Ok(("", ZType::Char(Some(0)))));
    assert_eq!(parse("float0064"), Ok(("", ZType::Float(Some(8)))));
    assert_eq!(parse("symbol16é"), Ok(("é", ZType::Symbol(Some(2)))));
}

#[test]
fn parse_of_unknown_word_fails_at_the_start() {
    assert_eq!(parse("foo"), Err(ZTypeError::NomErr("foo", ErrorKind::Tag)));
    assert_eq!(parse(""), Err(ZTypeError::NomErr("", ErrorKind::Tag)));
    assert_eq!(parse("byte8"), Err(ZTypeError::NomErr("byte8", ErrorKind::Tag)));
    assert_eq!(parse("Bytes"), Err(ZTypeError::NomErr("Bytes", ErrorKind::Tag)));
    assert_eq!(parse("8bytes"), Err(ZTypeError::NomErr("8bytes", ErrorKind::Tag)));
}

#[test]
fn parse_keeps_the_error_of_the_width() {
    assert_eq!(
        parse("hash12 rest"),
        Err(ZTypeError::UnalignedTypeIndex(" rest", 12))
    );
    assert_eq!(
        parse("nat18446744073709551616"),
        Err(ZTypeError::InvalidU64TypeIndex(""))
    );
    assert_eq!(
        parse("bytes99999999999999999999999:"),
        Err(ZTypeError::InvalidU64TypeIndex(":"))
    );
}

#[test]
fn parse_index_known_values() {
    assert_eq!(parse_index(""), Ok(("", None)));
    assert_eq!(parse_index("x"), Ok(("x", None)));
    assert_eq!(parse_index(" 8"), Ok((" 8", None)));
    assert_eq!(parse_index("0"), Ok(("", Some(0))));
    assert_eq!(parse_index("0008"), Ok(("", Some(1))));
    assert_eq!(parse_index("16)"), Ok((")", Some(2))));
    assert_eq!(parse_index("64 64"), Ok((" 64", Some(8))));
    assert_eq!(
        parse_index("18446744073709551608"),
        Ok(("", Some(2305843009213693951)))
    );
    assert_eq!(
        parse_index("00000000000000000000000000000000000000000008"),
        Ok(("", Some(1)))
    );
}

#[test]
fn parse_index_rejects_what_is_no_multiple_of_eight() {
    for bits in [1u64, 2, 3, 4, 5, 6, 7, 9, 12, 100, 1001, u64::MAX] {
        let text = format!("{}:", bits);
        assert_eq!(
            parse_index(&text),
            Err(ZTypeError::UnalignedTypeIndex(":", bits))
        );
    }
    assert_eq!(
        parse_index("0009"),
        Err(ZTypeError::UnalignedTypeIndex("", 9))
    );
}

#[test]
fn parse_index_rejects_what_does_not_fit() {
    assert_eq!(
        parse_index("18446744073709551616"),
        Err(ZTypeError::InvalidU64TypeIndex(""))
    );
    assert_eq!(
        parse_index("29323421293847123984723198379874982174 x"),
        Err(ZTypeError::InvalidU64TypeIndex(" x"))
    );
}

#[test]
fn type_error_rest() {
    assert_eq!(ZTypeError::UnalignedTypeIndex("a", 9).rest(), "a");
    assert_eq!(ZTypeError::InvalidU64TypeIndex("b").rest(), "b");
    assert_eq!(ZTypeError::NomErr("c", ErrorKind::Tag).rest(), "c");
    assert_eq!(ZTypeError::NomErr("c", ErrorKind::Tag).rest_copy(), "c");
    assert_eq!(
        ZTypeError::from_error_kind("c", ErrorKind::Alt),
        ZTypeError::NomErr("c", ErrorKind::Alt)
    );
    assert_eq!(
        ZTypeError::from_external_error("zz", ErrorKind::Tag, ZTypeError::UnalignedTypeIndex("a", 9)),
        ZTypeError::UnalignedTypeIndex("a", 9)
    );
}

#[test]
fn type_error_ranking_keeps_the_deeper() {
    let shallow = ZTypeError::NomErr("bytes9", ErrorKind::Tag);
    let deep = ZTypeError::UnalignedTypeIndex("", 9);
    assert_eq!(shallow.clone().or(deep.clone()), deep);
    assert_eq!(deep.clone().or(shallow.clone()), deep);
    let first = ZTypeError::NomErr("ab", ErrorKind::Tag);
    let second = ZTypeError::InvalidU64TypeIndex("xy");
    assert_eq!(first.clone().or(second.clone()), second);
    assert_eq!(second.clone().or(first.clone()), first);
    assert_eq!(
        ZTypeError::append("bytes9", ErrorKind::Alt, deep.clone()),
        deep
    );
    assert_eq!(
        ZTypeError::append("", ErrorKind::Alt, shallow.clone()),
        ZTypeError::NomErr("", ErrorKind::Alt)
    );
}

#[test]
fn chars_versions_of_type_parsers() {
    let text: Vec<char> = "int64)".chars().collect();
    let (rest, ty) = zexpr::ztype::parse_chars(&text).unwrap();
    assert_eq!(rest, &text[5..]);
    assert_eq!(ty, ZType::Int(Some(8)));
    let (rest, width) = zexpr::ztype::parse_index_chars(&text[3..]).unwrap();
    assert_eq!(rest, &text[5..]);
    assert_eq!(width, Some(8));
    assert_eq!(ZType::Int(None).word(), "int");
}
