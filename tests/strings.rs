use poezio::error::ErrorKind;
use poezio::strings::{
    clean, finish_line, is_string_character, parse_string, parse_string_item, print_string,
    tag_value, Item, SurfaceOp,
};
use poezio::theming::{Attr, ColourPairs, PairBinding, StyleSet};

fn set(attrs: &[Attr]) -> StyleSet {
    let mut s = StyleSet::new();
    for a in attrs {
        s.insert(*a);
    }
    s
}

#[test]
fn single_tag() {
    assert_eq!(tag_value("1,-1,u}").unwrap().1, Item::AttrOnEx(1, -1, set(&[Attr::Underline])));
    assert_eq!(tag_value("1,2}").unwrap().1, Item::ColourOn(1, 2));
    tag_value("toto").unwrap_err();
}

#[test]
fn single_tags() {
    assert_eq!(parse_string_item("\x19o").unwrap().1, Item::AttrSet0);
    assert_eq!(parse_string_item("\x19b").unwrap().1, Item::AttrOn(Attr::Bold));
    assert_eq!(parse_string_item("\x19i").unwrap().1, Item::AttrOn(Attr::Italic));
    assert_eq!(parse_string_item("\x19u").unwrap().1, Item::AttrOn(Attr::Underline));
    assert_eq!(parse_string_item("\x19a").unwrap().1, Item::AttrOn(Attr::Blink));
    assert_eq!(parse_string_item("\x191}").unwrap().1, Item::ColourOn(1, -1));
    assert_eq!(parse_string_item("\x1933,41}").unwrap().1, Item::ColourOn(33, 41));
    assert_eq!(
        parse_string_item("\x1933,41,bu}").unwrap().1,
        Item::AttrOnEx(33, 41, set(&[Attr::Bold, Attr::Underline]))
    );
}

#[test]
fn single_string() {
    assert_eq!(
        parse_string_item("Hello world!\x19o").unwrap().1,
        Item::Text("Hello world!".to_string())
    );
}

#[test]
fn bold_string() {
    assert_eq!(
        parse_string("\x19bHello world!\x19o").unwrap(),
        vec![Item::AttrOn(Attr::Bold), Item::Text("Hello world!".to_string()), Item::AttrSet0]
    );
}

#[test]
fn plain_text_is_one_run() {
    assert_eq!(parse_string("no markup").unwrap(), vec![Item::Text("no markup".to_string())]);
    assert_eq!(parse_string("").unwrap(), vec![]);
}

#[test]
fn rest_after_item() {
    let (rest, item) = parse_string_item("\x1912,-1}tail").unwrap();
    assert_eq!(item, Item::ColourOn(12, -1));
    assert_eq!(rest, "tail");
    let (rest, _) = tag_value("o and more").unwrap();
    assert_eq!(rest, " and more");
}

#[test]
fn empty_style_field_and_duplicates() {
    assert_eq!(tag_value("3,4,}").unwrap().1, Item::AttrOnEx(3, 4, StyleSet::new()));
    assert_eq!(tag_value("3,4,bbb}").unwrap().1, Item::AttrOnEx(3, 4, set(&[Attr::Bold])));
}

#[test]
fn bold_then_b_is_bold_and_text() {
    assert_eq!(
        parse_string("\x19bb").unwrap(),
        vec![Item::AttrOn(Attr::Bold), Item::Text("b".to_string())]
    );
}

#[test]
fn malformed_escapes() {
    for bad in ["\x19", "\x19x", "\x1912", "\x19256}", "\x19-2}", "\x191,2,x}", "\x191,2,3,4}", "\x19}"] {
        let text = format!("ab{}", bad);
        let err = parse_string(&text).unwrap_err();
        assert_eq!(err.kind, ErrorKind::MalformedAttributeEscape, "{:?}", bad);
        assert_eq!(err.position, 2);
    }
    assert!(clean("x\x19q").is_err());
}

#[test]
fn clean_drops_markup() {
    let c = clean("\x19bHello \x1933,41,u}world\x19o!").unwrap();
    assert_eq!(c, "Hello world!");
    assert_eq!(clean(&c).unwrap(), c);
    assert!(!c.contains('\x19'));
    assert_eq!(clean("").unwrap(), "");
    assert_eq!(clean("\x19o\x19b").unwrap(), "");
}

#[test]
fn string_characters() {
    assert!(is_string_character('a'));
    assert!(!is_string_character('\x19'));
}

#[test]
fn print_string_ops() {
    let mut pairs = ColourPairs::new();
    let items = parse_string("\x19o\x19bx\x191,2}y\x191,2,u}").unwrap();
    let ops = print_string(&items, &mut pairs, true).unwrap();
    assert_eq!(
        ops,
        vec![
            SurfaceOp::ClearAttributes,
            SurfaceOp::EnableAttribute(1 << 21),
            SurfaceOp::EmitText("x".to_string()),
            SurfaceOp::BindPair(PairBinding { pair: 1, fg: 1, bg: 2 }),
            SurfaceOp::EnableAttribute(256),
            SurfaceOp::EmitText("y".to_string()),
            SurfaceOp::EnableAttribute(256 | (1 << 17)),
        ]
    );
    assert_eq!(pairs.len(), 1);
}

#[test]
fn finish_line_pads() {
    let mut pairs = ColourPairs::new();
    let ops = finish_line(3, 6, Some((4, 5)), &mut pairs, true).unwrap();
    assert_eq!(
        ops,
        vec![
            SurfaceOp::BindPair(PairBinding { pair: 1, fg: 4, bg: 5 }),
            SurfaceOp::EnableAttribute(256),
            SurfaceOp::EmitText("   ".to_string()),
        ]
    );
    let ops = finish_line(10, 6, None, &mut pairs, true).unwrap();
    assert_eq!(ops, vec![SurfaceOp::EmitText(String::new())]);
}

#[test]
fn repeated_instruction_adds_nothing() {
    let mut pairs = ColourPairs::new();
    let items = parse_string("\x19b\x19b\x193,4}\x193,4}").unwrap();
    let ops = print_string(&items, &mut pairs, true).unwrap();
    assert_eq!(
        ops,
        vec![
            SurfaceOp::EnableAttribute(1 << 21),
            SurfaceOp::EnableAttribute(1 << 21),
            SurfaceOp::BindPair(PairBinding { pair: 1, fg: 3, bg: 4 }),
            SurfaceOp::EnableAttribute(256),
            SurfaceOp::EnableAttribute(256),
        ]
    );
    assert_eq!(pairs.len(), 1);
}

#[test]
fn printed_text_is_cleaned_text() {
    let text = "\x19bHi \x191,2}there\x19o";
    let mut pairs = ColourPairs::new();
    let ops = print_string(&parse_string(text).unwrap(), &mut pairs, false).unwrap();
    let written: String = ops
        .iter()
        .filter_map(|op| match op {
            SurfaceOp::EmitText(t) => Some(t.as_str()),
            _ => None,
        })
        .collect();
    let c = clean(text).unwrap();
    assert_eq!(written, c);
    let again = print_string(&parse_string(&c).unwrap(), &mut pairs, false).unwrap();
    assert_eq!(again, vec![SurfaceOp::EmitText(c.clone())]);
}
