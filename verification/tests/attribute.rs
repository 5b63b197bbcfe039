//! Reading `#[bincode(...)]` attributes and the generic bounds that skipped fields change.
use cu_bincode::attribute::{
    AttributeEntry, AttributeError, BoundsError, ContainerAttributes, FieldAttributes,
    FieldBounds, FieldTokens, TaggedAttribute, TypeToken,
};

type Entry = AttributeEntry<&'static str>;

fn tag(name: &'static str) -> Entry {
    AttributeEntry::Tag { name: name.to_string(), token: name }
}

fn prop(key: &'static str, literal: &'static str) -> Entry {
    AttributeEntry::Property {
        key: key.to_string(),
        key_token: key,
        literal: literal.to_string(),
        literal_token: literal,
    }
}

fn ident(s: &str) -> TypeToken {
    TypeToken::Ident(s.to_string())
}

fn punct(s: &str) -> TypeToken {
    TypeToken::Other(s.to_string())
}

fn field(
    attributes: Vec<TaggedAttribute<&'static str, String>>,
    ty: Vec<TypeToken>,
) -> FieldTokens<&'static str, String> {
    FieldTokens { attributes, ty }
}

fn bincode(entries: Vec<Entry>) -> TaggedAttribute<&'static str, String> {
    TaggedAttribute::Bincode { group: "group", entries }
}

#[test]
fn container_defaults_and_crate_path() {
    let c = ContainerAttributes::<&str>::parse(vec![]).unwrap();
    assert_eq!(c.crate_name, "::bincode");
    assert_eq!(c.bounds, None);
    let c = ContainerAttributes::parse(vec![prop("crate", "\"my_bincode\"")]).unwrap();
    assert_eq!(c.crate_name, "my_bincode");
    assert_eq!(c.decode_context, None);
}

#[test]
fn container_bounds_keep_their_literal() {
    let c = ContainerAttributes::parse(vec![
        prop("bounds", "\"T: Clone\""),
        prop("decode_bounds", "\"T: Decode<()>\""),
        prop("decode_context", "\"Ctx\""),
        prop("encode_bounds", "\"T: Encode\""),
        prop("borrow_decode_bounds", "\"T: BorrowDecode<'de, ()>\""),
        AttributeEntry::Other,
    ])
    .unwrap();
    assert_eq!(c.crate_name, "::bincode");
    assert_eq!(c.bounds, Some(("T: Clone".to_string(), "\"T: Clone\"")));
    assert_eq!(c.decode_bounds, Some(("T: Decode<()>".to_string(), "\"T: Decode<()>\"")));
    assert_eq!(c.decode_context, Some(("Ctx".to_string(), "\"Ctx\"")));
    assert_eq!(c.encode_bounds, Some(("T: Encode".to_string(), "\"T: Encode\"")));
    assert_eq!(
        c.borrow_decode_bounds,
        Some(("T: BorrowDecode<'de, ()>".to_string(), "\"T: BorrowDecode<'de, ()>\""))
    );
}

#[test]
fn container_later_entries_override_earlier_ones() {
    let c = ContainerAttributes::parse(vec![prop("crate", "\"a\""), prop("crate", "\"b\"")])
        .unwrap();
    assert_eq!(c.crate_name, "b");
    let c = ContainerAttributes::parse(vec![prop("crate", "\"\"")]).unwrap();
    assert_eq!(c.crate_name, "");
}

#[test]
fn container_rejections_point_at_their_token() {
    assert_eq!(
        ContainerAttributes::parse(vec![prop("crate", "42")]).unwrap_err(),
        AttributeError { message: "Should be a literal str", at: "42" }
    );
    assert_eq!(
        ContainerAttributes::parse(vec![prop("bounds", "r\"T\"")]).unwrap_err(),
        AttributeError { message: "Should be a literal str", at: "r\"T\"" }
    );
    assert_eq!(
        ContainerAttributes::parse(vec![tag("skip")]).unwrap_err(),
        AttributeError { message: "Unknown field attribute", at: "skip" }
    );
    assert_eq!(
        ContainerAttributes::parse(vec![prop("create", "\"x\"")]).unwrap_err(),
        AttributeError { message: "Unknown field attribute", at: "create" }
    );
    assert_eq!(
        ContainerAttributes::parse(vec![tag("first"), prop("crate", "1")]).unwrap_err(),
        AttributeError { message: "Unknown field attribute", at: "first" }
    );
}

#[test]
fn field_options() {
    let f = FieldAttributes::parse("group", vec![tag("skip")]).unwrap();
    assert_eq!(f, FieldAttributes { with_serde: false, skip: true, default: None });
    let f = FieldAttributes::parse("group", vec![tag("with_serde")]).unwrap();
    assert_eq!(f, FieldAttributes { with_serde: true, skip: false, default: None });
    let f = FieldAttributes::parse("group", vec![tag("skip"), prop("default", "\"make\"")])
        .unwrap();
    assert_eq!(f.default, Some("make".to_string()));
    assert!(f.skip);
    let f = FieldAttributes::parse("group", vec![]).unwrap();
    assert_eq!(f, FieldAttributes::default());
}

#[test]
fn field_rejections() {
    assert_eq!(
        FieldAttributes::parse("group", vec![tag("skip"), prop("default", "\"\"")]).unwrap_err(),
        AttributeError { message: "Expected a nonempty function path string", at: "\"\"" }
    );
    assert_eq!(
        FieldAttributes::parse("group", vec![tag("skip"), prop("default", "make")]).unwrap_err(),
        AttributeError { message: "Expected a nonempty function path string", at: "make" }
    );
    assert_eq!(
        FieldAttributes::parse("group", vec![prop("default", "\"make\"")]).unwrap_err(),
        AttributeError { message: "bincode default requires skip", at: "group" }
    );
    assert_eq!(
        FieldAttributes::parse("group", vec![tag("skip"), tag("with_serde")]).unwrap_err(),
        AttributeError { message: "bincode skip cannot be combined with with_serde", at: "group" }
    );
    assert_eq!(
        FieldAttributes::parse("group", vec![tag("skipp")]).unwrap_err(),
        AttributeError { message: "Unknown field attribute", at: "skipp" }
    );
    assert_eq!(
        FieldAttributes::parse("group", vec![prop("crate", "\"x\"")]).unwrap_err(),
        AttributeError { message: "Unknown field attribute", at: "crate" }
    );
}

#[test]
fn default_expressions() {
    let f = FieldAttributes::parse("group", vec![tag("skip"), prop("default", "\"my::make\"")])
        .unwrap();
    assert_eq!(f.default_expression(), "my::make()");
    let f = FieldAttributes::parse("group", vec![tag("skip")]).unwrap();
    assert_eq!(f.default_expression(), "core::default::Default::default()");
}

#[test]
fn bounds_without_skipped_fields_encode_everything() {
    let bounds = FieldBounds::new(vec![vec![
        field(vec![], vec![ident("T")]),
        field(vec![TaggedAttribute::Foreign], vec![ident("u8")]),
    ]])
    .unwrap();
    assert!(bounds.encodes("T"));
    assert!(bounds.encodes("U"));
    assert!(bounds.defaults.is_empty());
    assert!(bounds.defaults().is_empty());
}

#[test]
fn skipped_field_types_add_no_codec_bounds() {
    let vec_of_u = vec![
        ident("Vec"),
        punct("<"),
        ident("U"),
        punct(">"),
    ];
    let option_of_t = vec![
        ident("Option"),
        TypeToken::Group {
            text: "(T)".to_string(),
            inner: vec![ident("T")],
        },
    ];
    let bounds = FieldBounds::new(vec![
        vec![
            field(vec![bincode(vec![tag("skip")])], vec_of_u),
            field(vec![], option_of_t),
        ],
        vec![field(
            vec![TaggedAttribute::Foreign, bincode(vec![tag("skip"), prop("default", "\"f\"")])],
            vec![ident("V")],
        )],
    ])
    .unwrap();
    assert!(bounds.encodes("T"));
    assert!(bounds.encodes("Option"));
    assert!(!bounds.encodes("U"));
    assert!(!bounds.encodes("V"));
    assert_eq!(bounds.defaults, vec!["Vec < U >: core::default::Default".to_string()]);
    assert_eq!(bounds.defaults(), &bounds.defaults);
}

#[test]
fn bounds_report_the_first_rejected_field() {
    let err = FieldBounds::new(vec![vec![
        field(vec![bincode(vec![tag("with_serde")])], vec![ident("A")]),
        field(vec![bincode(vec![prop("default", "\"f\"")])], vec![ident("B")]),
        field(vec![TaggedAttribute::Malformed("bad".to_string())], vec![ident("C")]),
    ]])
    .unwrap_err();
    assert_eq!(
        err,
        BoundsError::Attribute(AttributeError { message: "bincode default requires skip", at: "group" })
    );
    let err = FieldBounds::new(vec![vec![field(
        vec![TaggedAttribute::Malformed("bad".to_string()), bincode(vec![tag("skip")])],
        vec![ident("C")],
    )]])
    .unwrap_err();
    assert_eq!(err, BoundsError::Malformed("bad".to_string()));
}

#[test]
fn only_the_first_bincode_attribute_counts() {
    let bounds = FieldBounds::new(vec![vec![field(
        vec![bincode(vec![tag("skip")]), bincode(vec![tag("nonsense")])],
        vec![ident("T")],
    )]])
    .unwrap();
    assert!(!bounds.encodes("T"));
    assert_eq!(bounds.defaults, vec!["T: core::default::Default".to_string()]);
}

#[test]
fn field_entry_order_does_not_matter() {
    let orders = [
        vec![tag("skip"), prop("default", "\"make\""), AttributeEntry::Other],
        vec![prop("default", "\"make\""), AttributeEntry::Other, tag("skip")],
        vec![AttributeEntry::Other, tag("skip"), prop("default", "\"make\"")],
    ];
    for entries in orders {
        let f = FieldAttributes::parse("group", entries).unwrap();
        assert_eq!(
            f,
            FieldAttributes { with_serde: false, skip: true, default: Some("make".to_string()) }
        );
    }
    assert!(FieldAttributes::parse("group", vec![tag("skip"), tag("with_serde")]).is_err());
    assert!(FieldAttributes::parse("group", vec![tag("with_serde"), tag("skip")]).is_err());
    assert!(FieldAttributes::parse("group", vec![tag("bogus"), tag("skip")]).is_err());
    assert!(FieldAttributes::parse("group", vec![tag("skip"), tag("bogus")]).is_err());
}
