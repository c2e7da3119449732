//! The inline display markup and its execution.
//!
//! Text runs hold no `\x19`; an escape is `\x19` followed by `o` (reset),
//! `b`, `i`, `u` or `a` (bold, italic, underline, blink), or a colour payload
//! closed by `}`: `fg}`, `fg,bg}` or `fg,bg,letters}`, where a colour is `-1`
//! (the terminal default) or `0` to `255` in decimal, and letters are zero or
//! more style letters.
use vstd::prelude::*;
use crate::error::{ErrorKind, ParseError};
use crate::text::{all_digits, chars_of, decimal_value, is_digit, push_char, string_of_range};
use crate::theming::{
    lemma_pair_again, pairs_wf, shown_colours, spec_get_pair,
    all_style_letters, letter_style, spec_curses_attr, style_bit, style_of_letter, styles_in,
    styles_of, curses_attr, is_colour, Attr, ColourPairs, PairBinding, StyleSet,
};

verus! {

/// The escape marker.
pub const ESCAPE: char = '\u{19}';

/// A character that can stand in a text run.
pub fn is_string_character(ch: char) -> (r: bool)
    ensures
        r == (ch != ESCAPE),
{
    ch != ESCAPE
}

/// One instruction of parsed markup.
#[derive(Clone, Debug, PartialEq)]
pub enum Item {
    /// Clear all attributes.
    AttrSet0,
    /// Turn a style on.
    AttrOn(Attr),
    /// Turn colours `(fg, bg)` on.
    ColourOn(i16, i16),
    /// Turn colours `(fg, bg)` and styles on.
    AttrOnEx(i16, i16, StyleSet),
    /// Literal text.
    Text(String),
}

pub enum MarkupView {
    AttrSet0,
    AttrOn(Attr),
    ColourOn(i16, i16),
    AttrOnEx(i16, i16, Set<Attr>),
    Text(Seq<char>),
}

impl View for Item {
    type V = MarkupView;

    open spec fn view(&self) -> MarkupView {
        match self {
            Item::AttrSet0 => MarkupView::AttrSet0,
            Item::AttrOn(a) => MarkupView::AttrOn(*a),
            Item::ColourOn(f, b) => MarkupView::ColourOn(*f, *b),
            Item::AttrOnEx(f, b, s) => MarkupView::AttrOnEx(*f, *b, s@),
            Item::Text(t) => MarkupView::Text(t@),
        }
    }
}

pub open spec fn markup_views(items: Seq<Item>) -> Seq<MarkupView> {
    items.map_values(|it: Item| it@)
}

// ---------------------------------------------------------------------------
// The grammar, over absolute positions.
/// The first position in `from..to` that holds `c`.
pub open spec fn find_char(s: Seq<char>, from: int, to: int, c: char) -> Option<int>
    decreases to - from,
{
    if 0 <= from < to && to <= s.len() {
        if s[from] == c {
            Some(from)
        } else {
            find_char(s, from + 1, to, c)
        }
    } else {
        None
    }
}

/// The value of a colour field: `-1`, or `0` to `255`, in decimal.
pub open spec fn colour_value(f: Seq<char>) -> Option<i16> {
    if f.len() >= 2 && f[0] == '-' && all_digits(f.skip(1)) && decimal_value(f.skip(1)) <= 1 {
        Some((0 - decimal_value(f.skip(1))) as i16)
    } else if f.len() >= 1 && all_digits(f) && decimal_value(f) <= 255 {
        Some(decimal_value(f) as i16)
    } else {
        None
    }
}

/// The colour payload `s[q..z]` (the `}` stands at `z`).
pub open spec fn payload(s: Seq<char>, q: int, z: int) -> Option<MarkupView> {
    match find_char(s, q, z, ',') {
        None => match colour_value(s.subrange(q, z)) {
            Some(f) => Some(MarkupView::ColourOn(f, -1i16)),
            None => None,
        },
        Some(c1) => match find_char(s, c1 + 1, z, ',') {
            None => match (colour_value(s.subrange(q, c1)), colour_value(s.subrange(c1 + 1, z))) {
                (Some(f), Some(b)) => Some(MarkupView::ColourOn(f, b)),
                _ => None,
            },
            Some(c2) => match (
                colour_value(s.subrange(q, c1)),
                colour_value(s.subrange(c1 + 1, c2)),
            ) {
                (Some(f), Some(b)) => if all_style_letters(s.subrange(c2 + 1, z)) {
                    Some(MarkupView::AttrOnEx(f, b, styles_of(s.subrange(c2 + 1, z))))
                } else {
                    None
                },
                _ => None,
            },
        },
    }
}

/// The escape body at `q` (just after the marker), and the position after it.
pub open spec fn tag_at(s: Seq<char>, q: int) -> Option<(MarkupView, int)> {
    if !(0 <= q < s.len()) {
        None
    } else if s[q] == 'o' {
        Some((MarkupView::AttrSet0, q + 1))
    } else if letter_style(s[q]) is Some {
        Some((MarkupView::AttrOn(letter_style(s[q])->0), q + 1))
    } else {
        match find_char(s, q, s.len() as int, '}') {
            None => None,
            Some(z) => match payload(s, q, z) {
                Some(v) => Some((v, z + 1)),
                None => None,
            },
        }
    }
}

/// The end of the text run that starts at `from`.
pub open spec fn text_run_end(s: Seq<char>, from: int) -> int
    decreases s.len() - from,
{
    if 0 <= from < s.len() && s[from] != ESCAPE {
        text_run_end(s, from + 1)
    } else {
        from
    }
}

/// The item at `p`: an escape, or the text run up to the next marker.
pub open spec fn item_at(s: Seq<char>, p: int) -> Option<(MarkupView, int)> {
    if 0 <= p < s.len() && s[p] == ESCAPE {
        tag_at(s, p + 1)
    } else {
        Some((MarkupView::Text(s.subrange(p, text_run_end(s, p))), text_run_end(s, p)))
    }
}

/// The items from `p` to the end, or the position of the escape that fails.
pub open spec fn spec_markup(s: Seq<char>, p: int) -> Result<Seq<MarkupView>, int>
    decreases s.len() - p,
{
    if p < 0 || p >= s.len() {
        Ok(Seq::empty())
    } else {
        match item_at(s, p) {
            None => Err(p),
            Some((it, e)) => if p < e <= s.len() {
                match spec_markup(s, e) {
                    Ok(rest) => Ok(seq![it] + rest),
                    Err(q) => Err(q),
                }
            } else {
                Err(p)
            },
        }
    }
}

/// The text that the items show, with every other instruction dropped.
pub open spec fn plain_text(items: Seq<MarkupView>) -> Seq<char>
    decreases items.len(),
{
    if items.len() == 0 {
        Seq::empty()
    } else {
        plain_text(items.drop_last()) + match items.last() {
            MarkupView::Text(t) => t,
            _ => Seq::empty(),
        }
    }
}

/// The cleaned text of `s`, if its markup parses.
pub open spec fn spec_clean(s: Seq<char>) -> Option<Seq<char>> {
    match spec_markup(s, 0) {
        Ok(items) => Some(plain_text(items)),
        Err(_) => None,
    }
}

} // verus!

verus! {

// ---------------------------------------------------------------------------
// Reading the grammar.
fn find_char_in(cs: &Vec<char>, from: usize, to: usize, c: char) -> (r: Option<usize>)
    requires
        from <= to <= cs@.len(),
    ensures
        match r {
            Some(k) => find_char(cs@, from as int, to as int, c) == Some(k as int) && from <= k
                < to,
            None => find_char(cs@, from as int, to as int, c) is None,
        },
{
    let mut i = from;
    while i < to
        invariant
            from <= i <= to <= cs@.len(),
            find_char(cs@, i as int, to as int, c) == find_char(cs@, from as int, to as int, c),
        decreases to - i,
    {
        if cs[i] == c {
            return Some(i);
        }
        i += 1;
    }
    None
}

/// The value of the digits `cs[from..to]`, capped at 256, if they are all digits.
fn capped_decimal(cs: &Vec<char>, from: usize, to: usize) -> (r: Option<u32>)
    requires
        from <= to <= cs@.len(),
    ensures
        r is Some <==> all_digits(cs@.subrange(from as int, to as int)),
        r matches Some(v) ==> (if decimal_value(cs@.subrange(from as int, to as int)) < 256 {
            v as nat == decimal_value(cs@.subrange(from as int, to as int))
        } else {
            v == 256
        }),
{
    let mut v: u32 = 0;
    let mut i = from;
    while i < to
        invariant
            from <= i <= to <= cs@.len(),
            all_digits(cs@.subrange(from as int, i as int)),
            v <= 256,
            if decimal_value(cs@.subrange(from as int, i as int)) < 256 {
                v as nat == decimal_value(cs@.subrange(from as int, i as int))
            } else {
                v == 256
            },
        decreases to - i,
    {
        let ghost t = cs@.subrange(from as int, i + 1);
        assert(t.drop_last() =~= cs@.subrange(from as int, i as int));
        let ch = cs[i];
        if !(ch >= '0' && ch <= '9') {
            assert(cs@.subrange(from as int, to as int)[i - from] == cs@[i as int]);
            return None;
        }
        assert(all_digits(t)) by {
            assert forall|k: int| 0 <= k < t.len() implies is_digit(#[trigger] t[k]) by {
                if k < t.len() - 1 {
                    assert(t[k] == cs@.subrange(from as int, i as int)[k]);
                }
            }
        }
        let d = (ch as u32) - ('0' as u32);
        if v >= 256 {
            v = 256;
        } else {
            let w = v * 10 + d;
            v = if w >= 256 {
                256
            } else {
                w
            };
        }
        i += 1;
    }
    Some(v)
}

fn colour_in(cs: &Vec<char>, from: usize, to: usize) -> (r: Option<i16>)
    requires
        from <= to <= cs@.len(),
    ensures
        r == colour_value(cs@.subrange(from as int, to as int)),
        r matches Some(c) ==> is_colour(c),
{
    let ghost f = cs@.subrange(from as int, to as int);
    if to - from >= 2 && cs[from] == '-' {
        assert(f[0] == cs@[from as int]);
        assert(f.skip(1) =~= cs@.subrange(from + 1, to as int));
        match capped_decimal(cs, from + 1, to) {
            Some(v) => {
                if v <= 1 {
                    return Some(0 - (v as i16));
                }
                return None;
            },
            None => {
                return None;
            },
        }
    }
    if to - from >= 1 {
        match capped_decimal(cs, from, to) {
            Some(v) => {
                if v <= 255 {
                    return Some(v as i16);
                }
                None
            },
            None => None,
        }
    } else {
        None
    }
}

fn payload_in(cs: &Vec<char>, q: usize, z: usize) -> (r: Option<Item>)
    requires
        q <= z <= cs@.len(),
    ensures
        match r {
            Some(it) => payload(cs@, q as int, z as int) == Some(it@),
            None => payload(cs@, q as int, z as int) is None,
        },
        r matches Some(it) ==> colours_ok(it@),
{
    match find_char_in(cs, q, z, ',') {
        None => match colour_in(cs, q, z) {
            Some(f) => Some(Item::ColourOn(f, -1)),
            None => None,
        },
        Some(c1) => match find_char_in(cs, c1 + 1, z, ',') {
            None => {
                let f = colour_in(cs, q, c1);
                let b = colour_in(cs, c1 + 1, z);
                match (f, b) {
                    (Some(f), Some(b)) => Some(Item::ColourOn(f, b)),
                    _ => None,
                }
            },
            Some(c2) => {
                let f = colour_in(cs, q, c1);
                let b = colour_in(cs, c1 + 1, c2);
                match (f, b) {
                    (Some(f), Some(b)) => match styles_in(cs, c2 + 1, z) {
                        Some(st) => Some(Item::AttrOnEx(f, b, st)),
                        None => None,
                    },
                    _ => None,
                }
            },
        },
    }
}

fn tag_in(cs: &Vec<char>, q: usize) -> (r: Option<(Item, usize)>)
    requires
        q <= cs@.len(),
    ensures
        match r {
            Some((it, e)) => tag_at(cs@, q as int) == Some((it@, e as int)) && q < e <= cs@.len(),
            None => tag_at(cs@, q as int) is None,
        },
        r matches Some((it, _)) ==> colours_ok(it@),
{
    if q >= cs.len() {
        return None;
    }
    let c = cs[q];
    if c == 'o' {
        return Some((Item::AttrSet0, q + 1));
    }
    match style_of_letter(c) {
        Some(a) => {
            return Some((Item::AttrOn(a), q + 1));
        },
        None => {},
    }
    match find_char_in(cs, q, cs.len(), '}') {
        None => None,
        Some(z) => match payload_in(cs, q, z) {
            Some(it) => Some((it, z + 1)),
            None => None,
        },
    }
}

fn text_run_end_in(cs: &Vec<char>, from: usize) -> (r: usize)
    requires
        from <= cs@.len(),
    ensures
        r == text_run_end(cs@, from as int),
        from <= r <= cs@.len(),
{
    let mut i = from;
    while i < cs.len() && cs[i] != ESCAPE
        invariant
            from <= i <= cs@.len(),
            text_run_end(cs@, i as int) == text_run_end(cs@, from as int),
        decreases cs@.len() - i,
    {
        i += 1;
    }
    i
}

fn item_in(cs: &Vec<char>, p: usize) -> (r: Option<(Item, usize)>)
    requires
        p <= cs@.len(),
    ensures
        match r {
            Some((it, e)) => item_at(cs@, p as int) == Some((it@, e as int)) && p <= e <= cs@.len()
                && (p < cs@.len() ==> p < e),
            None => item_at(cs@, p as int) is None,
        },
        r matches Some((it, _)) ==> colours_ok(it@),
{
    if p < cs.len() && cs[p] == ESCAPE {
        tag_in(cs, p + 1)
    } else if p < cs.len() {
        let e = text_run_end_in(cs, p + 1);
        assert(text_run_end(cs@, p as int) == text_run_end(cs@, p + 1));
        let t = string_of_range(cs, p, e);
        Some((Item::Text(t), e))
    } else {
        let e = text_run_end_in(cs, p);
        let t = string_of_range(cs, p, e);
        Some((Item::Text(t), e))
    }
}

/// The colours of the item are markup colours.
pub open spec fn colours_ok(it: MarkupView) -> bool {
    match it {
        MarkupView::ColourOn(f, b) => is_colour(f) && is_colour(b),
        MarkupView::AttrOnEx(f, b, _) => is_colour(f) && is_colour(b),
        _ => true,
    }
}

pub open spec fn prepend(it: MarkupView, r: Result<Seq<MarkupView>, int>) -> Result<Seq<MarkupView>, int> {
    match r {
        Ok(rest) => Ok(seq![it] + rest),
        Err(q) => Err(q),
    }
}

pub open spec fn after(prefix: Seq<MarkupView>, r: Result<Seq<MarkupView>, int>) -> Result<Seq<MarkupView>, int> {
    match r {
        Ok(rest) => Ok(prefix + rest),
        Err(q) => Err(q),
    }
}

/// Parses a whole string of markup into its instructions, in order.
pub fn parse_string(text: &str) -> (r: Result<Vec<Item>, ParseError>)
    ensures
        match r {
            Ok(items) => spec_markup(text@, 0) == Ok::<Seq<MarkupView>, int>(markup_views(items@)),
            Err(e) => spec_markup(text@, 0) == Err::<Seq<MarkupView>, int>(e.position as int)
                && e.kind == ErrorKind::MalformedAttributeEscape,
        },
        r matches Ok(items) ==> forall|i: int| 0 <= i < items@.len() ==> colours_ok(#[trigger] items@[i]@),
{
    let cs = chars_of(text);
    let mut items: Vec<Item> = Vec::new();
    let mut p: usize = 0;
    proof {
        match spec_markup(cs@, 0) {
            Ok(rest) => {
                assert(Seq::<MarkupView>::empty() + rest =~= rest);
            },
            Err(q) => {},
        }
        assert(markup_views(items@) =~= Seq::<MarkupView>::empty());
    }
    while p < cs.len()
        invariant
            p <= cs@.len(),
            cs@ == text@,
            spec_markup(cs@, 0) == after(markup_views(items@), spec_markup(cs@, p as int)),
            forall|i: int| 0 <= i < items@.len() ==> colours_ok(#[trigger] items@[i]@),
        decreases cs@.len() - p,
    {
        match item_in(&cs, p) {
            None => {
                return Err(ParseError { kind: ErrorKind::MalformedAttributeEscape, position: p });
            },
            Some((it, e)) => {
                let ghost before = markup_views(items@);
                let ghost v = it@;
                items.push(it);
                assert(markup_views(items@) =~= before.push(v));
                proof {
                    match spec_markup(cs@, e as int) {
                        Ok(rest) => {
                            assert(before + (seq![v] + rest) =~= before.push(v) + rest);
                        },
                        Err(q) => {},
                    }
                }
                p = e;
            },
        }
    }
    assert(markup_views(items@) + Seq::empty() =~= markup_views(items@));
    Ok(items)
}

/// Parses one escape body (what follows the marker) at the start of `i`;
/// gives the rest of the input and the instruction.
pub fn tag_value(i: &str) -> (r: Result<(String, Item), ParseError>)
    ensures
        match r {
            Ok((rest, it)) => tag_at(i@, 0) matches Some((v, e)) && v == it@ && rest@ == i@.skip(e),
            Err(err) => tag_at(i@, 0) is None && err == (ParseError {
                kind: ErrorKind::MalformedAttributeEscape,
                position: 0,
            }),
        },
{
    let cs = chars_of(i);
    match tag_in(&cs, 0) {
        Some((it, e)) => {
            let rest = string_of_range(&cs, e, cs.len());
            Ok((rest, it))
        },
        None => Err(ParseError { kind: ErrorKind::MalformedAttributeEscape, position: 0 }),
    }
}

/// Parses one instruction at the start of `i`: an escape, or the text up to
/// the next marker; gives the rest of the input and the instruction.
pub fn parse_string_item(i: &str) -> (r: Result<(String, Item), ParseError>)
    ensures
        match r {
            Ok((rest, it)) => item_at(i@, 0) matches Some((v, e)) && v == it@ && rest@ == i@.skip(e),
            Err(err) => item_at(i@, 0) is None && err == (ParseError {
                kind: ErrorKind::MalformedAttributeEscape,
                position: 0,
            }),
        },
{
    let cs = chars_of(i);
    match item_in(&cs, 0) {
        Some((it, e)) => {
            let rest = string_of_range(&cs, e, cs.len());
            Ok((rest, it))
        },
        None => Err(ParseError { kind: ErrorKind::MalformedAttributeEscape, position: 0 }),
    }
}

} // verus!

verus! {

// ---------------------------------------------------------------------------
// Cleaning.
/// The text of `s` with all markup removed.
pub fn clean(text: &str) -> (r: Result<String, ParseError>)
    ensures
        match r {
            Ok(c) => spec_clean(text@) == Some(c@),
            Err(e) => spec_clean(text@) is None && spec_markup(text@, 0) == Err::<
                Seq<MarkupView>,
                int,
            >(e.position as int) && e.kind == ErrorKind::MalformedAttributeEscape,
        },
{
    let items = parse_string(text)?;
    let mut out = String::new();
    let mut i: usize = 0;
    while i < items.len()
        invariant
            i <= items@.len(),
            out@ == plain_text(markup_views(items@).take(i as int)),
        decreases items@.len() - i,
    {
        let ghost now = markup_views(items@).take(i + 1);
        assert(now.drop_last() =~= markup_views(items@).take(i as int));
        match &items[i] {
            Item::Text(t) => {
                out.append(t.as_str());
            },
            _ => {
                assert(out@ + Seq::<char>::empty() =~= out@);
            },
        }
        i += 1;
    }
    assert(markup_views(items@).take(i as int) =~= markup_views(items@));
    Ok(out)
}

proof fn lemma_plain_text_concat(a: Seq<MarkupView>, b: Seq<MarkupView>)
    ensures
        plain_text(a + b) == plain_text(a) + plain_text(b),
    decreases b.len(),
{
    if b.len() == 0 {
        assert(a + b =~= a);
        assert(plain_text(a) + plain_text(b) =~= plain_text(a));
    } else {
        let b2 = b.drop_last();
        lemma_plain_text_concat(a, b2);
        assert((a + b).drop_last() =~= a + b2);
        assert((a + b).last() == b.last());
        let t = match b.last() {
            MarkupView::Text(t) => t,
            _ => Seq::empty(),
        };
        assert(plain_text(a) + plain_text(b2) + t =~= plain_text(a) + (plain_text(b2) + t));
    }
}

proof fn lemma_text_run(s: Seq<char>, from: int)
    requires
        0 <= from <= s.len(),
    ensures
        from <= text_run_end(s, from) <= s.len(),
        forall|i: int| from <= i < text_run_end(s, from) ==> s[i] != ESCAPE,
        text_run_end(s, from) < s.len() ==> s[text_run_end(s, from)] == ESCAPE,
    decreases s.len() - from,
{
    if from < s.len() && s[from] != ESCAPE {
        lemma_text_run(s, from + 1);
    }
}

/// Only text runs show text, and text runs hold no marker.
proof fn lemma_markup_plain(s: Seq<char>, p: int)
    requires
        0 <= p <= s.len(),
        spec_markup(s, p) is Ok,
    ensures
        !plain_text(spec_markup(s, p)->Ok_0).contains(ESCAPE),
    decreases s.len() - p,
{
    if p < s.len() {
        let (it, e) = item_at(s, p)->0;
        assert(p < e <= s.len());
        lemma_markup_plain(s, e);
        let rest = spec_markup(s, e)->Ok_0;
        assert(spec_markup(s, p)->Ok_0 == seq![it] + rest);
        lemma_plain_text_concat(seq![it], rest);
        assert(seq![it].drop_last() =~= Seq::<MarkupView>::empty());
        let shown = match it {
            MarkupView::Text(t) => t,
            _ => Seq::empty(),
        };
        assert(plain_text(Seq::<MarkupView>::empty()) == Seq::<char>::empty());
        assert(seq![it].last() == it);
        assert(plain_text(seq![it]) == Seq::<char>::empty() + shown);
        assert(!shown.contains(ESCAPE)) by {
            if s[p] != ESCAPE {
                lemma_text_run(s, p);
                let t = s.subrange(p, text_run_end(s, p));
                assert(shown == t);
                if t.contains(ESCAPE) {
                    let k = choose|k: int| 0 <= k < t.len() && t[k] == ESCAPE;
                    assert(s[p + k] == ESCAPE);
                }
            } else {
                assert(!(it is Text));
            }
        }
        let all = Seq::<char>::empty() + shown + plain_text(rest);
        assert(!all.contains(ESCAPE)) by {
            if all.contains(ESCAPE) {
                let k = choose|k: int| 0 <= k < all.len() && all[k] == ESCAPE;
                if k < shown.len() {
                    assert(shown[k] == ESCAPE);
                } else {
                    assert(plain_text(rest)[k - shown.len()] == ESCAPE);
                }
            }
        }
    } else {
        assert(!Seq::<char>::empty().contains(ESCAPE));
    }
}

/// Text without a marker parses to one text run (none when it is empty).
proof fn lemma_markup_of_plain(t: Seq<char>)
    requires
        !t.contains(ESCAPE),
    ensures
        spec_clean(t) == Some(t),
        spec_markup(t, 0) == Ok::<Seq<MarkupView>, int>(
            if t.len() > 0 {
                seq![MarkupView::Text(t)]
            } else {
                Seq::empty()
            },
        ),
{
    if t.len() > 0 {
        lemma_text_run(t, 0);
        if text_run_end(t, 0) < t.len() {
            assert(t.contains(ESCAPE)) by {
                assert(t[text_run_end(t, 0)] == ESCAPE);
            }
        }
        assert(t[0] != ESCAPE) by {
            if t[0] == ESCAPE {
                assert(t.contains(ESCAPE));
            }
        }
        assert(t.subrange(0, t.len() as int) =~= t);
        assert(item_at(t, 0) == Some((MarkupView::Text(t), t.len() as int)));
        assert(spec_markup(t, t.len() as int) == Ok::<Seq<MarkupView>, int>(Seq::empty()));
        assert(seq![MarkupView::Text(t)] + Seq::<MarkupView>::empty() =~= seq![MarkupView::Text(t)]);
        assert(spec_markup(t, 0) == Ok::<Seq<MarkupView>, int>(seq![MarkupView::Text(t)]));
        assert(seq![MarkupView::Text(t)].drop_last() =~= Seq::<MarkupView>::empty());
        assert(plain_text(Seq::<MarkupView>::empty()) == Seq::<char>::empty());
        assert(seq![MarkupView::Text(t)].last() == MarkupView::Text(t));
        assert(Seq::<char>::empty() + t =~= t);
    } else {
        assert(plain_text(Seq::<MarkupView>::empty()) == Seq::<char>::empty());
        assert(t =~= Seq::<char>::empty());
    }
}

/// Cleaning is idempotent: the cleaned text holds no marker, and cleaning it
/// again gives it back unchanged.
pub proof fn lemma_clean_idempotent(s: Seq<char>)
    requires
        spec_clean(s) is Some,
    ensures
        !(spec_clean(s)->0).contains(ESCAPE),
        spec_clean(spec_clean(s)->0) == spec_clean(s),
{
    lemma_markup_plain(s, 0);
    lemma_markup_of_plain(spec_clean(s)->0);
}

} // verus!

verus! {

// ---------------------------------------------------------------------------
// Execution against a rendering surface.
/// One call on the rendering surface.
#[derive(Clone, Debug, PartialEq)]
pub enum SurfaceOp {
    /// Clear all attributes.
    ClearAttributes,
    /// Turn on the attributes of a word.
    EnableAttribute(u32),
    /// Write text.
    EmitText(String),
    /// Bind a new colour pair to its colours on the terminal.
    BindPair(PairBinding),
}

pub enum OpView {
    ClearAttributes,
    EnableAttribute(u32),
    EmitText(Seq<char>),
    BindPair(PairBinding),
}

impl View for SurfaceOp {
    type V = OpView;

    open spec fn view(&self) -> OpView {
        match self {
            SurfaceOp::ClearAttributes => OpView::ClearAttributes,
            SurfaceOp::EnableAttribute(w) => OpView::EnableAttribute(*w),
            SurfaceOp::EmitText(t) => OpView::EmitText(t@),
            SurfaceOp::BindPair(b) => OpView::BindPair(*b),
        }
    }
}

pub open spec fn op_views(ops: Seq<SurfaceOp>) -> Seq<OpView> {
    ops.map_values(|op: SurfaceOp| op@)
}

/// The calls for one colour instruction: bind the pair if it is new, then
/// turn its attribute word on.
pub open spec fn colour_ops(
    res: (Result<crate::theming::ColourAttr, ErrorKind>, Seq<(i16, i16)>),
) -> (Result<Seq<OpView>, ErrorKind>, Seq<(i16, i16)>) {
    match res.0 {
        Ok(ca) => (
            Ok(
                match ca.bind {
                    Some(b) => seq![OpView::BindPair(b), OpView::EnableAttribute(ca.attr)],
                    None => seq![OpView::EnableAttribute(ca.attr)],
                },
            ),
            res.1,
        ),
        Err(k) => (Err(k), res.1),
    }
}

/// The calls for one instruction, with the pair table `v` before and after.
pub open spec fn item_ops(it: MarkupView, v: Seq<(i16, i16)>, supports_256: bool) -> (Result<
    Seq<OpView>,
    ErrorKind,
>, Seq<(i16, i16)>) {
    match it {
        MarkupView::AttrSet0 => (Ok(seq![OpView::ClearAttributes]), v),
        MarkupView::AttrOn(a) => (Ok(seq![OpView::EnableAttribute(style_bit(a))]), v),
        MarkupView::ColourOn(f, b) => colour_ops(
            spec_curses_attr(v, supports_256, f, b, Set::empty()),
        ),
        MarkupView::AttrOnEx(f, b, st) => colour_ops(spec_curses_attr(v, supports_256, f, b, st)),
        MarkupView::Text(t) => (Ok(seq![OpView::EmitText(t)]), v),
    }
}

/// The calls for the instructions in order, left to right, stopping at the
/// first failure; with the pair table before and after.
pub open spec fn spec_render(items: Seq<MarkupView>, v: Seq<(i16, i16)>, supports_256: bool) -> (Result<
    Seq<OpView>,
    ErrorKind,
>, Seq<(i16, i16)>)
    decreases items.len(),
{
    if items.len() == 0 {
        (Ok(Seq::empty()), v)
    } else {
        let (r1, v1) = spec_render(items.drop_last(), v, supports_256);
        match r1 {
            Err(k) => (Err(k), v1),
            Ok(ops) => {
                let (r2, v2) = item_ops(items.last(), v1, supports_256);
                match r2 {
                    Ok(more) => (Ok(ops + more), v2),
                    Err(k) => (Err(k), v2),
                }
            },
        }
    }
}

proof fn lemma_render_stops(items: Seq<MarkupView>, v: Seq<(i16, i16)>, sup: bool, n: int, m: int)
    requires
        0 <= n <= m <= items.len(),
        spec_render(items.take(n), v, sup).0 is Err,
    ensures
        spec_render(items.take(m), v, sup) == spec_render(items.take(n), v, sup),
    decreases m,
{
    if n < m {
        lemma_render_stops(items, v, sup, n, m - 1);
        assert(items.take(m).drop_last() =~= items.take(m - 1));
    }
}

fn item_surface_ops(
    it: &Item,
    pairs: &mut ColourPairs,
    supports_256: bool,
    out: &mut Vec<SurfaceOp>,
) -> (r: Result<(), ErrorKind>)
    requires
        old(pairs).wf(),
        colours_ok(it@),
    ensures
        final(pairs).wf(),
        final(pairs)@ == item_ops(it@, old(pairs)@, supports_256).1,
        match item_ops(it@, old(pairs)@, supports_256).0 {
            Ok(more) => r is Ok && op_views(final(out)@) == op_views(old(out)@) + more,
            Err(k) => r == Err::<(), ErrorKind>(k),
        },
{
    let ghost before = op_views(out@);
    match it {
        Item::AttrSet0 => {
            out.push(SurfaceOp::ClearAttributes);
        },
        Item::AttrOn(a) => {
            out.push(SurfaceOp::EnableAttribute(a.get_attron()));
        },
        Item::ColourOn(f, b) => {
            let ca = curses_attr(pairs, supports_256, (*f, *b), StyleSet::new())?;
            match ca.bind {
                Some(pb) => out.push(SurfaceOp::BindPair(pb)),
                None => {},
            }
            out.push(SurfaceOp::EnableAttribute(ca.attr));
        },
        Item::AttrOnEx(f, b, st) => {
            let ca = curses_attr(pairs, supports_256, (*f, *b), *st)?;
            match ca.bind {
                Some(pb) => out.push(SurfaceOp::BindPair(pb)),
                None => {},
            }
            out.push(SurfaceOp::EnableAttribute(ca.attr));
        },
        Item::Text(t) => {
            out.push(SurfaceOp::EmitText(t.clone()));
        },
    }
    assert(op_views(out@) =~= before + item_ops(it@, old(pairs)@, supports_256).0->Ok_0);
    Ok(())
}

/// The surface calls that show `items`, in order: a reset clears the
/// attributes, a style or colour turns attributes on (colours through
/// `curses_attr`, binding new pairs first), text is written. Stops at the
/// first colour that finds no pair left.
pub fn print_string(items: &Vec<Item>, pairs: &mut ColourPairs, supports_256: bool) -> (r: Result<
    Vec<SurfaceOp>,
    ErrorKind,
>)
    requires
        old(pairs).wf(),
        forall|i: int| 0 <= i < items@.len() ==> colours_ok(#[trigger] items@[i]@),
    ensures
        final(pairs).wf(),
        match r {
            Ok(ops) => spec_render(markup_views(items@), old(pairs)@, supports_256) == (Ok::<
                Seq<OpView>,
                ErrorKind,
            >(op_views(ops@)), final(pairs)@),
            Err(k) => spec_render(markup_views(items@), old(pairs)@, supports_256) == (Err::<
                Seq<OpView>,
                ErrorKind,
            >(k), final(pairs)@),
        },
{
    let ghost v0 = pairs@;
    let ghost views = markup_views(items@);
    let mut out: Vec<SurfaceOp> = Vec::new();
    let mut i: usize = 0;
    assert(views.take(0) =~= Seq::<MarkupView>::empty());
    assert(op_views(out@) =~= Seq::<OpView>::empty());
    while i < items.len()
        invariant
            i <= items@.len(),
            views == markup_views(items@),
            v0 == old(pairs)@,
            pairs.wf(),
            forall|j: int| 0 <= j < items@.len() ==> colours_ok(#[trigger] items@[j]@),
            spec_render(views.take(i as int), v0, supports_256) == (Ok::<Seq<OpView>, ErrorKind>(
                op_views(out@),
            ), pairs@),
        decreases items@.len() - i,
    {
        assert(views.take(i + 1).drop_last() =~= views.take(i as int));
        assert(views.take(i + 1).last() == items@[i as int]@);
        let ghost v1 = pairs@;
        match item_surface_ops(&items[i], pairs, supports_256, &mut out) {
            Ok(()) => {},
            Err(k) => {
                proof {
                    assert(item_ops(items@[i as int]@, v1, supports_256) == (Err::<
                        Seq<OpView>,
                        ErrorKind,
                    >(k), pairs@));
                    assert(spec_render(views.take(i + 1), v0, supports_256) == (Err::<
                        Seq<OpView>,
                        ErrorKind,
                    >(k), pairs@));
                    lemma_render_stops(views, v0, supports_256, i + 1, views.len() as int);
                    assert(views.take(views.len() as int) =~= views);
                    assert(spec_render(views, v0, supports_256) == (Err::<
                        Seq<OpView>,
                        ErrorKind,
                    >(k), pairs@));
                }
                return Err(k);
            },
        }
        i += 1;
    }
    assert(views.take(i as int) =~= views);
    Ok(out)
}

pub open spec fn spaces(n: nat) -> Seq<char> {
    Seq::new(n, |_i: int| ' ')
}

/// The columns from the cursor to the width; none when the cursor is at or
/// past it.
pub open spec fn fill_width(cursor_x: i32, width: i32) -> nat {
    if width > cursor_x {
        (width - cursor_x) as nat
    } else {
        0
    }
}

/// The instructions that pad a line: the colours, if any, then spaces up to
/// the width.
pub open spec fn fill_items(cursor_x: i32, width: i32, colour: Option<(i16, i16)>) -> Seq<MarkupView> {
    let pad = MarkupView::Text(spaces(fill_width(cursor_x, width)));
    match colour {
        Some((f, b)) => seq![MarkupView::ColourOn(f, b), pad],
        None => seq![pad],
    }
}

/// The surface calls that pad the line from column `cursor_x` to `width`
/// with spaces, in colours `colour` when given.
pub fn finish_line(
    cursor_x: i32,
    width: i32,
    colour: Option<(i16, i16)>,
    pairs: &mut ColourPairs,
    supports_256: bool,
) -> (r: Result<Vec<SurfaceOp>, ErrorKind>)
    requires
        old(pairs).wf(),
        colour matches Some((f, b)) ==> is_colour(f) && is_colour(b),
    ensures
        final(pairs).wf(),
        match r {
            Ok(ops) => spec_render(fill_items(cursor_x, width, colour), old(pairs)@, supports_256)
                == (Ok::<Seq<OpView>, ErrorKind>(op_views(ops@)), final(pairs)@),
            Err(k) => spec_render(fill_items(cursor_x, width, colour), old(pairs)@, supports_256)
                == (Err::<Seq<OpView>, ErrorKind>(k), final(pairs)@),
        },
{
    let n: i64 = if width > cursor_x {
        width as i64 - cursor_x as i64
    } else {
        0
    };
    let mut pad = String::new();
    let mut i: i64 = 0;
    while i < n
        invariant
            0 <= i <= n,
            n == fill_width(cursor_x, width),
            pad@ == spaces(i as nat),
        decreases n - i,
    {
        push_char(&mut pad, ' ');
        assert(pad@ =~= spaces((i + 1) as nat));
        i += 1;
    }
    let mut items: Vec<Item> = Vec::new();
    match colour {
        Some((f, b)) => items.push(Item::ColourOn(f, b)),
        None => {},
    }
    items.push(Item::Text(pad));
    assert(markup_views(items@) =~= fill_items(cursor_x, width, colour));
    print_string(&items, pairs, supports_256)
}

// ---------------------------------------------------------------------------
// Laws of execution.
/// The text that the calls write, in order.
pub open spec fn emitted_text(ops: Seq<OpView>) -> Seq<char>
    decreases ops.len(),
{
    if ops.len() == 0 {
        Seq::empty()
    } else {
        emitted_text(ops.drop_last()) + match ops.last() {
            OpView::EmitText(t) => t,
            _ => Seq::empty(),
        }
    }
}

/// The terminal's attribute word after the calls, from `w`: a clear sets it
/// to 0, an enable ORs its word in, the others leave it.
pub open spec fn attr_after(w: u32, ops: Seq<OpView>) -> u32
    decreases ops.len(),
{
    if ops.len() == 0 {
        w
    } else {
        match ops.last() {
            OpView::ClearAttributes => 0,
            OpView::EnableAttribute(a) => attr_after(w, ops.drop_last()) | a,
            _ => attr_after(w, ops.drop_last()),
        }
    }
}

proof fn lemma_emitted_concat(a: Seq<OpView>, b: Seq<OpView>)
    ensures
        emitted_text(a + b) == emitted_text(a) + emitted_text(b),
    decreases b.len(),
{
    if b.len() == 0 {
        assert(a + b =~= a);
        assert(emitted_text(a) + emitted_text(b) =~= emitted_text(a));
    } else {
        let b2 = b.drop_last();
        lemma_emitted_concat(a, b2);
        assert((a + b).drop_last() =~= a + b2);
        assert((a + b).last() == b.last());
        let t = match b.last() {
            OpView::EmitText(t) => t,
            _ => Seq::empty(),
        };
        assert(emitted_text(a) + emitted_text(b2) + t =~= emitted_text(a) + (emitted_text(b2) + t));
    }
}

proof fn lemma_item_text(it: MarkupView, v: Seq<(i16, i16)>, sup: bool)
    requires
        item_ops(it, v, sup).0 is Ok,
    ensures
        emitted_text(item_ops(it, v, sup).0->Ok_0) == match it {
            MarkupView::Text(t) => t,
            _ => Seq::<char>::empty(),
        },
{
    reveal_with_fuel(emitted_text, 3);
    let ops = item_ops(it, v, sup).0->Ok_0;
    if let MarkupView::Text(t) = it {
        assert(Seq::<char>::empty() + t =~= t);
    } else {
        assert(Seq::<char>::empty() + Seq::<char>::empty() =~= Seq::<char>::empty());
        if ops.len() == 2 {
            assert(ops.drop_last().drop_last() =~= Seq::<OpView>::empty());
            assert(emitted_text(ops.drop_last()) == Seq::<char>::empty());
        } else {
            assert(ops.drop_last() =~= Seq::<OpView>::empty());
        }
    }
}

/// The calls for instructions write exactly the text that the instructions
/// show.
pub proof fn lemma_render_text(items: Seq<MarkupView>, v: Seq<(i16, i16)>, sup: bool)
    requires
        spec_render(items, v, sup).0 is Ok,
    ensures
        emitted_text(spec_render(items, v, sup).0->Ok_0) == plain_text(items),
    decreases items.len(),
{
    if items.len() > 0 {
        let (r1, v1) = spec_render(items.drop_last(), v, sup);
        lemma_render_text(items.drop_last(), v, sup);
        let ops = r1->Ok_0;
        let more = item_ops(items.last(), v1, sup).0->Ok_0;
        lemma_emitted_concat(ops, more);
        lemma_item_text(items.last(), v1, sup);
    }
}

/// What the calls for a string write is its cleaned text; and the calls for
/// the cleaned text write it in one go (none when it is empty), touching
/// neither attributes nor pairs.
pub proof fn lemma_render_shows_clean(s: Seq<char>, v: Seq<(i16, i16)>, sup: bool)
    requires
        spec_clean(s) is Some,
    ensures
        spec_render(spec_markup(s, 0)->Ok_0, v, sup).0 matches Ok(ops) ==> emitted_text(ops)
            == spec_clean(s)->0,
        ({
            let c = spec_clean(s)->0;
            spec_render(spec_markup(c, 0)->Ok_0, v, sup) == (Ok::<Seq<OpView>, ErrorKind>(
                if c.len() > 0 {
                    seq![OpView::EmitText(c)]
                } else {
                    Seq::empty()
                },
            ), v)
        }),
{
    if spec_render(spec_markup(s, 0)->Ok_0, v, sup).0 is Ok {
        lemma_render_text(spec_markup(s, 0)->Ok_0, v, sup);
    }
    lemma_clean_idempotent(s);
    let c = spec_clean(s)->0;
    lemma_markup_of_plain(c);
    if c.len() > 0 {
        let items = seq![MarkupView::Text(c)];
        assert(items.drop_last() =~= Seq::<MarkupView>::empty());
        assert(items.last() == MarkupView::Text(c));
        assert(spec_markup(c, 0)->Ok_0 == items);
        assert(Seq::<OpView>::empty() + seq![OpView::EmitText(c)] =~= seq![OpView::EmitText(c)]);
        assert(spec_render(Seq::<MarkupView>::empty(), v, sup) == (Ok::<Seq<OpView>, ErrorKind>(
            Seq::empty(),
        ), v));
        assert(item_ops(MarkupView::Text(c), v, sup) == (Ok::<Seq<OpView>, ErrorKind>(
            seq![OpView::EmitText(c)],
        ), v));
        assert(spec_render(items, v, sup) == (Ok::<Seq<OpView>, ErrorKind>(
            seq![OpView::EmitText(c)],
        ), v));
    } else {
        assert(spec_markup(c, 0)->Ok_0 == Seq::<MarkupView>::empty());
        assert(spec_render(Seq::<MarkupView>::empty(), v, sup) == (Ok::<Seq<OpView>, ErrorKind>(
            Seq::empty(),
        ), v));
    }
}

proof fn lemma_or_twice(x: u32, a: u32)
    ensures
        (x | a) | a == x | a,
{
    assert((x | a) | a == x | a) by (bit_vector);
}

/// The second of two same instructions: its calls are one enable of the
/// word that ends the first one's calls (or the same single call), and the
/// pair table stays.
proof fn lemma_item_again(it: MarkupView, v: Seq<(i16, i16)>, sup: bool)
    requires
        pairs_wf(v),
        item_ops(it, v, sup).0 is Ok,
    ensures
        ({
            let (r0, v0) = item_ops(it, v, sup);
            let (rr, vv) = item_ops(it, v0, sup);
            &&& rr is Ok
            &&& vv == v0
            &&& (rr->Ok_0).len() == 1
            &&& (r0->Ok_0).len() >= 1
            &&& (r0->Ok_0).last() == (rr->Ok_0)[0]
            &&& (r0->Ok_0).len() == 2 ==> (rr->Ok_0)[0] is EnableAttribute
        }),
{
    match it {
        MarkupView::ColourOn(f, b) => {
            let (f2, b2, st) = shown_colours(sup, f, b, Set::empty());
            lemma_pair_again(v, (f2, b2));
        },
        MarkupView::AttrOnEx(f, b, st0) => {
            let (f2, b2, st) = shown_colours(sup, f, b, st0);
            lemma_pair_again(v, (f2, b2));
        },
        _ => {},
    }
}

/// Turning on the same instruction twice in a row leaves the same attribute
/// word and the same pair table as turning it on once: enabling is additive,
/// and a repeated colour reuses its pair.
pub proof fn lemma_item_twice(it: MarkupView, v: Seq<(i16, i16)>, sup: bool, w: u32)
    requires
        pairs_wf(v),
        spec_render(seq![it], v, sup).0 is Ok,
    ensures
        ({
            let (r1, v1) = spec_render(seq![it], v, sup);
            let (r2, v2) = spec_render(seq![it, it], v, sup);
            &&& r2 is Ok
            &&& v2 == v1
            &&& attr_after(w, r2->Ok_0) == attr_after(w, r1->Ok_0)
        }),
{
    let one = seq![it];
    let two = seq![it, it];
    assert(one.drop_last() =~= Seq::<MarkupView>::empty());
    assert(two.drop_last() =~= one);
    assert(one.last() == it);
    assert(two.last() == it);
    assert(spec_render(Seq::<MarkupView>::empty(), v, sup) == (Ok::<Seq<OpView>, ErrorKind>(
        Seq::empty(),
    ), v));
    let (r0, v0) = item_ops(it, v, sup);
    let ops1 = r0->Ok_0;
    assert(Seq::<OpView>::empty() + ops1 =~= ops1);
    assert(spec_render(one, v, sup) == (Ok::<Seq<OpView>, ErrorKind>(ops1), v0));
    let (rr, vv) = item_ops(it, v0, sup);
    lemma_item_again(it, v, sup);
    let more = rr->Ok_0;
    let ops2 = ops1 + more;
    assert(spec_render(two, v, sup) == (Ok::<Seq<OpView>, ErrorKind>(ops2), vv));
    assert(ops2.drop_last() =~= ops1);
    assert(ops2.last() == more[0]);
    match more[0] {
        OpView::EnableAttribute(a) => {
            lemma_or_twice(attr_after(w, ops1.drop_last()), a);
        },
        OpView::ClearAttributes => {},
        _ => {
            assert(ops1.drop_last() =~= Seq::<OpView>::empty());
        },
    }
}

} // verus!
