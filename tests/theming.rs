use poezio::error::ErrorKind;
use poezio::theming::{
    colour_256_to_16, curses_attr, downsample, parse_attrs, Attr, ColourAttr, ColourPairs,
    PairBinding, StyleSet,
};

fn set(attrs: &[Attr]) -> StyleSet {
    let mut s = StyleSet::new();
    for a in attrs {
        s.insert(*a);
    }
    s
}

#[test]
fn none() {
    let attrs = "";
    let expected = StyleSet::new();
    let received = parse_attrs(attrs);
    assert_eq!(received.1, expected);
}

#[test]
fn bold_twice() {
    let attrs = "bb";
    let mut expected = StyleSet::new();
    expected.insert(Attr::Bold);
    let received = parse_attrs(attrs);
    assert_eq!(received.1, expected);
}

#[test]
fn all() {
    let attrs = "baiu";
    let mut expected = StyleSet::new();
    expected.insert(Attr::Bold);
    expected.insert(Attr::Blink);
    expected.insert(Attr::Italic);
    expected.insert(Attr::Underline);
    let received = parse_attrs(attrs);
    assert_eq!(received.1, expected);
}

#[test]
fn style_run_stops_at_other_letter() {
    let (rest, s) = parse_attrs("buxb");
    assert_eq!(rest, "xb");
    assert_eq!(s, set(&[Attr::Bold, Attr::Underline]));
    assert!(s.contains(Attr::Bold));
    assert!(!s.contains(Attr::Blink));
}

#[test]
fn bold_escape_twice_same_set() {
    assert_eq!(parse_attrs("bb").1, parse_attrs("b").1);
}

#[test]
fn attribute_bits() {
    assert_eq!(Attr::Bold.get_attron(), 1 << 21);
    assert_eq!(Attr::Italic.get_attron(), 1 << 31);
    assert_eq!(Attr::Underline.get_attron(), 1 << 17);
    assert_eq!(Attr::Blink.get_attron(), 1 << 19);
}

#[test]
fn table_lookup() {
    assert_eq!(colour_256_to_16(-1), -1);
    assert_eq!(colour_256_to_16(5), 5);
    assert_eq!(colour_256_to_16(16), 0);
    assert_eq!(colour_256_to_16(196), 9);
    assert_eq!(colour_256_to_16(255), 15);
}

#[test]
fn downsample_is_asymmetric() {
    let (f, b, s) = downsample(196, 196, StyleSet::new());
    assert_eq!((f, b), (1, 1));
    assert_eq!(s, set(&[Attr::Bold]));
    let (f, b, s) = downsample(1, 12, set(&[Attr::Italic]));
    assert_eq!((f, b), (1, 4));
    assert_eq!(s, set(&[Attr::Italic]));
    let (f, b, s) = downsample(-1, -1, StyleSet::new());
    assert_eq!((f, b), (-1, -1));
    assert_eq!(s, StyleSet::new());
}

#[test]
fn pairs_are_reused_and_distinct() {
    let mut pairs = ColourPairs::new();
    assert_eq!(pairs.get_pair((1, 2)), Ok((1, true)));
    assert_eq!(pairs.get_pair((2, 1)), Ok((2, true)));
    assert_eq!(pairs.get_pair((1, 2)), Ok((1, false)));
    assert_eq!(pairs.get_pair((-1, -1)), Ok((3, true)));
    assert_eq!(pairs.get_pair((2, 1)), Ok((2, false)));
    assert_eq!(pairs.len(), 3);
}

#[test]
fn pairs_run_out() {
    let mut pairs = ColourPairs::new();
    let mut n = 0;
    for fg in 0..255i16 {
        assert_eq!(pairs.get_pair((fg, 0)), Ok((fg + 1, true)));
        n += 1;
    }
    assert_eq!(n, 255);
    assert_eq!(pairs.get_pair((255, 0)), Err(ErrorKind::ColorPairExhausted));
    assert_eq!(pairs.get_pair((3, 0)), Ok((4, false)));
}

#[test]
fn attribute_words() {
    let mut pairs = ColourPairs::new();
    let r = curses_attr(&mut pairs, true, (1, 2), set(&[Attr::Bold])).unwrap();
    assert_eq!(
        r,
        ColourAttr { attr: 256 | (1 << 21), bind: Some(PairBinding { pair: 1, fg: 1, bg: 2 }) }
    );
    let r = curses_attr(&mut pairs, true, (1, 2), StyleSet::new()).unwrap();
    assert_eq!(r, ColourAttr { attr: 256, bind: None });
    // 196 is bright red: red and bold on 16 colours; as a background, red only.
    let r = curses_attr(&mut pairs, false, (196, 196), StyleSet::new()).unwrap();
    assert_eq!(
        r,
        ColourAttr { attr: 2 * 256 | (1 << 21), bind: Some(PairBinding { pair: 2, fg: 1, bg: 1 }) }
    );
    let r = curses_attr(&mut pairs, true, (196, 196), set(&[Attr::Italic, Attr::Blink])).unwrap();
    assert_eq!(
        r,
        ColourAttr {
            attr: 3 * 256 | (1 << 31) | (1 << 19),
            bind: Some(PairBinding { pair: 3, fg: 196, bg: 196 })
        }
    );
}
