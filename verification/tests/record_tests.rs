//! Tests for string records and decimal text.

use the_brass::properties::{Properties, PropertyPairs};
use the_brass::text::{parse_u32, u32_to_string};

#[test]
fn test_decimal_text() {
    assert_eq!(u32_to_string(0).as_str(), "0");
    assert_eq!(u32_to_string(7).as_str(), "7");
    assert_eq!(u32_to_string(1234).as_str(), "1234");
    assert_eq!(u32_to_string(4294967295).as_str(), "4294967295");

    assert_eq!(parse_u32("0"), Some(0));
    assert_eq!(parse_u32("1234"), Some(1234));
    assert_eq!(parse_u32("+5"), Some(5));
    assert_eq!(parse_u32("4294967295"), Some(4294967295));
    assert_eq!(parse_u32("4294967296"), None);
    assert_eq!(parse_u32(""), None);
    assert_eq!(parse_u32("+"), None);
    assert_eq!(parse_u32("12a"), None);
    assert_eq!(parse_u32("-3"), None);

    // Written text reads back as the written value.
    assert_eq!(parse_u32(u32_to_string(987654321).as_str()), Some(987654321));
}

#[test]
fn test_property_pairs() {
    let mut props = PropertyPairs::new();
    assert!(props.get(&String::from("speed")).is_none());

    assert!(props.insert(String::from("speed"), String::from("9")).is_none());
    assert_eq!(
        props.insert(String::from("speed"), String::from("12")),
        Some(String::from("9"))
    );
    assert_eq!(props.get(&String::from("speed")).map(|s| s.as_str()), Some("12"));

    props.insert(String::from("name"), String::from("corvette"));
    assert_eq!(props.get(&String::from("name")).map(|s| s.as_str()), Some("corvette"));
}

#[test]
fn test_properties_absorb() {
    let mut properties = Properties { props: PropertyPairs::new() };
    properties.props.insert(String::from("speed"), String::from("9"));

    properties.absorb(vec![
        (String::from("speed"), String::from("12")),
        (String::from("range"), String::from("4")),
        (String::from("range"), String::from("6")),
    ]);

    assert_eq!(properties.props.get(&String::from("speed")).map(|s| s.as_str()), Some("12"));
    assert_eq!(properties.props.get(&String::from("range")).map(|s| s.as_str()), Some("6"));
}

#[test]
fn test_properties_from_text() {
    let properties = Properties::from_text("speed : 9\nname : corvette\n");
    assert_eq!(properties.props.get(&String::from("speed")).map(|s| s.as_str()), Some("9"));
    assert_eq!(
        properties.props.get(&String::from("name")).map(|s| s.as_str()),
        Some("corvette")
    );

    // A line without a separator is a key with an empty value; a second
    // separator ends the value; later lines override earlier ones.
    let properties = Properties::from_text("flag\na : b : c\nspeed : 1\r\nspeed : 2");
    assert_eq!(properties.props.get(&String::from("flag")).map(|s| s.as_str()), Some(""));
    assert_eq!(properties.props.get(&String::from("a")).map(|s| s.as_str()), Some("b"));
    assert_eq!(properties.props.get(&String::from("speed")).map(|s| s.as_str()), Some("2"));

    let empty = Properties::from_text("");
    assert!(empty.props.get(&String::from("speed")).is_none());
}
