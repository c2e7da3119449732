//! Display attributes: styles, the colour table for terminals limited to 16
//! colours, the colour-pair allocator, and the attribute words handed to the
//! terminal.
use vstd::prelude::*;
use crate::error::ErrorKind;
use crate::text::{chars_of, string_of_range};

verus! {

/// A text style.
#[derive(Clone, Copy, Debug, PartialEq, Eq, Structural)]
pub enum Attr {
    Bold,
    Italic,
    Underline,
    Blink,
}

/// A set of styles; inserting a style twice is inserting it once.
#[derive(Clone, Copy, Debug, PartialEq, Eq, Structural)]
pub struct StyleSet {
    bold: bool,
    italic: bool,
    underline: bool,
    blink: bool,
}

impl View for StyleSet {
    type V = Set<Attr>;

    closed spec fn view(&self) -> Set<Attr> {
        Set::new(
            |a: Attr|
                match a {
                    Attr::Bold => self.bold,
                    Attr::Italic => self.italic,
                    Attr::Underline => self.underline,
                    Attr::Blink => self.blink,
                },
        )
    }
}

impl StyleSet {
    /// The empty set.
    pub fn new() -> (r: StyleSet)
        ensures
            r@ == Set::<Attr>::empty(),
    {
        let r = StyleSet { bold: false, italic: false, underline: false, blink: false };
        assert(r@ =~= Set::<Attr>::empty());
        r
    }

    pub fn contains(&self, a: Attr) -> (r: bool)
        ensures
            r == self@.contains(a),
    {
        match a {
            Attr::Bold => self.bold,
            Attr::Italic => self.italic,
            Attr::Underline => self.underline,
            Attr::Blink => self.blink,
        }
    }

    pub fn insert(&mut self, a: Attr)
        ensures
            final(self)@ == old(self)@.insert(a),
    {
        match a {
            Attr::Bold => self.bold = true,
            Attr::Italic => self.italic = true,
            Attr::Underline => self.underline = true,
            Attr::Blink => self.blink = true,
        }
        assert(self@ =~= old(self)@.insert(a));
    }

    /// Two sets are equal exactly when they hold the same styles, so `==` on
    /// sets is equality of their views.
    pub proof fn lemma_view_eq(a: StyleSet, b: StyleSet)
        ensures
            a@ == b@ <==> a == b,
    {
        if a@ == b@ {
            assert(a@.contains(Attr::Bold) == b@.contains(Attr::Bold));
            assert(a@.contains(Attr::Italic) == b@.contains(Attr::Italic));
            assert(a@.contains(Attr::Underline) == b@.contains(Attr::Underline));
            assert(a@.contains(Attr::Blink) == b@.contains(Attr::Blink));
        }
    }
}

/// Inserting a style that is already there changes nothing.
pub proof fn lemma_insert_idempotent(s: Set<Attr>, a: Attr)
    ensures
        s.insert(a).insert(a) == s.insert(a),
{
    assert(s.insert(a).insert(a) =~= s.insert(a));
}

/// The closest of the 16 basic colours to each of the 256 extended ones.
pub const TABLE_256_TO_16: [u8; 256] = [
     0,  1,  2,  3,  4,  5,  6,  7,  8,  9, 10, 11, 12, 13, 14, 15,
     0,  4,  4,  4, 12, 12,  2,  6,  4,  4, 12, 12,  2,  2,  6,  4,
    12, 12,  2,  2,  2,  6, 12, 12, 10, 10, 10, 10, 14, 12, 10, 10,
    10, 10, 10, 14,  1,  5,  4,  4, 12, 12,  3,  8,  4,  4, 12, 12,
     2,  2,  6,  4, 12, 12,  2,  2,  2,  6, 12, 12, 10, 10, 10, 10,
    14, 12, 10, 10, 10, 10, 10, 14,  1,  1,  5,  4, 12, 12,  1,  1,
     5,  4, 12, 12,  3,  3,  8,  4, 12, 12,  2,  2,  2,  6, 12, 12,
    10, 10, 10, 10, 14, 12, 10, 10, 10, 10, 10, 14,  1,  1,  1,  5,
    12, 12,  1,  1,  1,  5, 12, 12,  1,  1,  1,  5, 12, 12,  3,  3,
     3,  7, 12, 12, 10, 10, 10, 10, 14, 12, 10, 10, 10, 10, 10, 14,
     9,  9,  9,  9, 13, 12,  9,  9,  9,  9, 13, 12,  9,  9,  9,  9,
    13, 12,  9,  9,  9,  9, 13, 12, 11, 11, 11, 11,  7, 12, 10, 10,
    10, 10, 10, 14,  9,  9,  9,  9,  9, 13,  9,  9,  9,  9,  9, 13,
     9,  9,  9,  9,  9, 13,  9,  9,  9,  9,  9, 13,  9,  9,  9,  9,
     9, 13, 11, 11, 11, 11, 11, 15,  0,  0,  0,  0,  0,  0,  8,  8,
     8,  8,  8,  8,  7,  7,  7,  7,  7,  7, 15, 15, 15, 15, 15, 15,
];

/// `colour` seen on a 16-colour terminal: the table's entry, and the terminal's
/// default colour (-1) for itself.
pub open spec fn spec_colour_256_to_16(colour: i16) -> i16 {
    if colour == -1 {
        -1i16
    } else {
        TABLE_256_TO_16@[colour as int] as i16
    }
}

/// A colour of the markup: the terminal default (-1) or one of 256.
pub open spec fn is_colour(c: i16) -> bool {
    -1 <= c <= 255
}

pub fn colour_256_to_16(colour: i16) -> (r: i16)
    requires
        is_colour(colour),
    ensures
        r == spec_colour_256_to_16(colour),
        -1 <= r < 16,
{
    if colour == -1 {
        return -1;
    }
    let t = TABLE_256_TO_16;
    assert(forall|i: int| 0 <= i < 256 ==> #[trigger] t@[i] < 16);
    t[colour as usize] as i16
}

/// Relies on ncurses' `A_BOLD`: the bold bit, `1 << 21`.
pub assume_specification[ ncurses::A_BOLD ]() -> (r: ncurses::attr_t)
    ensures
        r == 0x0020_0000u32,
;

/// Relies on ncurses' `A_ITALIC`: the italic bit, `1 << 31`.
pub assume_specification[ ncurses::A_ITALIC ]() -> (r: ncurses::attr_t)
    ensures
        r == 0x8000_0000u32,
;

/// Relies on ncurses' `A_UNDERLINE`: the underline bit, `1 << 17`.
pub assume_specification[ ncurses::A_UNDERLINE ]() -> (r: ncurses::attr_t)
    ensures
        r == 0x0002_0000u32,
;

/// Relies on ncurses' `A_BLINK`: the blink bit, `1 << 19`.
pub assume_specification[ ncurses::A_BLINK ]() -> (r: ncurses::attr_t)
    ensures
        r == 0x0008_0000u32,
;

/// Relies on ncurses' `COLOR_PAIR`: the pair number shifted into bits 8 to 15.
pub assume_specification[ ncurses::COLOR_PAIR ](n: i16) -> (r: ncurses::attr_t)
    ensures
        0 <= n <= 255 ==> r == (n as u32) * 256,
;

/// The attribute bit of a style.
pub open spec fn style_bit(a: Attr) -> u32 {
    match a {
        Attr::Bold => 0x0020_0000u32,
        Attr::Italic => 0x8000_0000u32,
        Attr::Underline => 0x0002_0000u32,
        Attr::Blink => 0x0008_0000u32,
    }
}

impl Attr {
    /// The attribute bit that turns this style on.
    pub fn get_attron(&self) -> (r: ncurses::attr_t)
        ensures
            r == style_bit(*self),
    {
        match *self {
            Attr::Bold => ncurses::A_BOLD(),
            Attr::Italic => ncurses::A_ITALIC(),
            Attr::Underline => ncurses::A_UNDERLINE(),
            Attr::Blink => ncurses::A_BLINK(),
        }
    }
}

pub open spec fn bit_if(s: Set<Attr>, a: Attr) -> u32 {
    if s.contains(a) {
        style_bit(a)
    } else {
        0
    }
}

/// The attribute word of colour pair `pair` with the styles of `s`.
pub open spec fn attr_word(pair: i16, s: Set<Attr>) -> u32 {
    (((pair as u32) * 256) as u32) | bit_if(s, Attr::Bold) | bit_if(s, Attr::Italic) | bit_if(
        s,
        Attr::Underline,
    ) | bit_if(s, Attr::Blink)
}

/// The colours and styles that a terminal without 256 colours shows for
/// `(fg, bg)` with `styles`: both colours go through the table; a result of 8
/// or more loses 8, and for the foreground only, that brings bold with it.
pub open spec fn spec_downsample(fg: i16, bg: i16, styles: Set<Attr>) -> (i16, i16, Set<Attr>) {
    let f = spec_colour_256_to_16(fg);
    let b = spec_colour_256_to_16(bg);
    (
        if f >= 8 { (f - 8) as i16 } else { f },
        if b >= 8 { (b - 8) as i16 } else { b },
        if f >= 8 { styles.insert(Attr::Bold) } else { styles },
    )
}

/// The colours and styles that reach the allocator.
pub open spec fn shown_colours(supports_256: bool, fg: i16, bg: i16, styles: Set<Attr>) -> (i16, i16, Set<Attr>) {
    if supports_256 {
        (fg, bg, styles)
    } else {
        spec_downsample(fg, bg, styles)
    }
}

pub fn downsample(fg: i16, bg: i16, attrs: StyleSet) -> (r: (i16, i16, StyleSet))
    requires
        is_colour(fg),
        is_colour(bg),
    ensures
        (r.0, r.1, r.2@) == spec_downsample(fg, bg, attrs@),
        is_colour(r.0) && r.0 < 8,
        is_colour(r.1) && r.1 < 8,
{
    let mut attrs = attrs;
    let mut f = colour_256_to_16(fg);
    let mut b = colour_256_to_16(bg);
    if f >= 8 {
        f -= 8;
        attrs.insert(Attr::Bold);
    }
    if b >= 8 {
        b -= 8;
    }
    (f, b, attrs)
}

// ---------------------------------------------------------------------------
// The colour-pair allocator.
/// The largest pair number that an attribute word can hold (8 bits).
pub const MAX_PAIRS: usize = 255;

/// The first index at or after `i` where `v` holds `c`.
pub open spec fn pair_index_from(v: Seq<(i16, i16)>, c: (i16, i16), i: int) -> Option<int>
    decreases v.len() - i,
{
    if 0 <= i < v.len() {
        if v[i] == c {
            Some(i)
        } else {
            pair_index_from(v, c, i + 1)
        }
    } else {
        None
    }
}

/// Looking up or allocating the pair of `c` in the table `v` (the colours in
/// order of allocation; the pair of `v[k]` is `k + 1`): the pair, whether it is
/// new, and the table after.
pub open spec fn spec_get_pair(v: Seq<(i16, i16)>, c: (i16, i16)) -> (Result<(i16, bool), ErrorKind>, Seq<(i16, i16)>) {
    match pair_index_from(v, c, 0) {
        Some(k) => (Ok(((k + 1) as i16, false)), v),
        None => if v.len() < MAX_PAIRS {
            (Ok(((v.len() + 1) as i16, true)), v.push(c))
        } else {
            (Err(ErrorKind::ColorPairExhausted), v)
        },
    }
}

/// A table of colour pairs: distinct colours, at most `MAX_PAIRS` of them.
pub open spec fn pairs_wf(v: Seq<(i16, i16)>) -> bool {
    v.no_duplicates() && v.len() <= MAX_PAIRS
}

/// The mapping from `(foreground, background)` to terminal colour pairs.
/// Pairs are numbered from 1 in order of first use, never reused or rebound.
pub struct ColourPairs {
    entries: Vec<(i16, i16)>,
}

impl View for ColourPairs {
    type V = Seq<(i16, i16)>;

    closed spec fn view(&self) -> Seq<(i16, i16)> {
        self.entries@
    }
}

proof fn lemma_pair_index(v: Seq<(i16, i16)>, c: (i16, i16), i: int)
    requires
        0 <= i <= v.len(),
    ensures
        match pair_index_from(v, c, i) {
            Some(k) => i <= k < v.len() && v[k] == c,
            None => forall|j: int| i <= j < v.len() ==> v[j] != c,
        },
    decreases v.len() - i,
{
    if i < v.len() {
        lemma_pair_index(v, c, i + 1);
    }
}

impl ColourPairs {
    pub open spec fn wf(&self) -> bool {
        pairs_wf(self@)
    }

    /// An empty table.
    pub fn new() -> (r: ColourPairs)
        ensures
            r@ == Seq::<(i16, i16)>::empty(),
            r.wf(),
    {
        ColourPairs { entries: Vec::new() }
    }

    /// The number of pairs handed out.
    pub fn len(&self) -> (r: usize)
        ensures
            r == self@.len(),
    {
        self.entries.len()
    }

    /// The pair of `colours`: the one it was given before, or the next free
    /// one, which is recorded; `true` with a new pair.
    pub fn get_pair(&mut self, colours: (i16, i16)) -> (r: Result<(i16, bool), ErrorKind>)
        requires
            old(self).wf(),
        ensures
            (r, final(self)@) == spec_get_pair(old(self)@, colours),
            final(self).wf(),
            r matches Ok((id, _)) ==> 1 <= id <= final(self)@.len() && final(self)@[id - 1]
                == colours,
    {
        let ghost v = self@;
        let mut i: usize = 0;
        while i < self.entries.len()
            invariant
                i <= self.entries@.len(),
                self@ == v,
                pairs_wf(v),
                pair_index_from(v, colours, i as int) == pair_index_from(v, colours, 0),
            decreases self.entries@.len() - i,
        {
            if self.entries[i].0 == colours.0 && self.entries[i].1 == colours.1 {
                assert(self.entries@[i as int] == colours);
                return Ok(((i + 1) as i16, false));
            }
            i += 1;
        }
        proof {
            lemma_pair_index(v, colours, 0);
            lemma_get_pair_facts(v, colours);
        }
        if self.entries.len() < MAX_PAIRS {
            self.entries.push(colours);
            Ok(((i + 1) as i16, true))
        } else {
            Err(ErrorKind::ColorPairExhausted)
        }
    }
}

/// One lookup keeps the table well formed; the pair it gives is the
/// position of the colours in the table after, plus one.
pub proof fn lemma_get_pair_facts(v: Seq<(i16, i16)>, c: (i16, i16))
    requires
        pairs_wf(v),
    ensures
        pairs_wf(spec_get_pair(v, c).1),
        spec_get_pair(v, c).0 matches Ok((id, _)) ==> 1 <= id <= spec_get_pair(v, c).1.len()
            && spec_get_pair(v, c).1[id - 1] == c,
        spec_get_pair(v, c).0 is Ok || spec_get_pair(v, c).1 == v,
        spec_get_pair(v, c).1 == v || spec_get_pair(v, c).1 == v.push(c),
{
    lemma_pair_index(v, c, 0);
    if pair_index_from(v, c, 0) is None && v.len() < MAX_PAIRS {
        let w = v.push(c);
        assert forall|a: int, b: int| 0 <= a < w.len() && 0 <= b < w.len() && a != b implies w[a]
            != w[b] by {
            if a == v.len() {
                assert(v[b] != c);
            } else if b == v.len() {
                assert(v[a] != c);
            } else {
                assert(w[a] == v[a] && w[b] == v[b]);
            }
        }
    }
}

/// Once colours have a pair, every later lookup of them gives that pair and
/// allocates nothing, whatever other colours were looked up in between.
pub proof fn lemma_pair_kept(v: Seq<(i16, i16)>, c: (i16, i16), d: (i16, i16))
    requires
        pairs_wf(v),
        spec_get_pair(v, c).0 is Ok,
    ensures
        ({
            let id = (spec_get_pair(v, c).0->Ok_0).0;
            let v2 = spec_get_pair(spec_get_pair(v, c).1, d).1;
            spec_get_pair(v2, c) == (Ok::<(i16, bool), ErrorKind>((id, false)), v2)
        }),
{
    let id = (spec_get_pair(v, c).0->Ok_0).0;
    let v1 = spec_get_pair(v, c).1;
    lemma_get_pair_facts(v, c);
    lemma_get_pair_facts(v1, d);
    let v2 = spec_get_pair(v1, d).1;
    assert(v2[id - 1] == c);
    lemma_pair_index(v2, c, 0);
    let k = pair_index_from(v2, c, 0)->0;
    assert(v2[k] == c);
}

/// Two lookups of different colours, one after the other, never give the
/// same pair.
pub proof fn lemma_pair_distinct(v: Seq<(i16, i16)>, c: (i16, i16), d: (i16, i16))
    requires
        pairs_wf(v),
        c != d,
        spec_get_pair(v, c).0 is Ok,
        spec_get_pair(spec_get_pair(v, c).1, d).0 is Ok,
    ensures
        (spec_get_pair(v, c).0->Ok_0).0 != (spec_get_pair(spec_get_pair(v, c).1, d).0->Ok_0).0,
{
    let v1 = spec_get_pair(v, c).1;
    lemma_get_pair_facts(v, c);
    lemma_get_pair_facts(v1, d);
    let id1 = (spec_get_pair(v, c).0->Ok_0).0;
    let v2 = spec_get_pair(v1, d).1;
    assert(v2[id1 - 1] == c);
}

/// Looking up colours a second time gives the pair of the first lookup and
/// leaves the table as it was.
pub proof fn lemma_pair_again(v: Seq<(i16, i16)>, c: (i16, i16))
    requires
        pairs_wf(v),
        spec_get_pair(v, c).0 is Ok,
    ensures
        spec_get_pair(spec_get_pair(v, c).1, c) == (Ok::<(i16, bool), ErrorKind>(
            ((spec_get_pair(v, c).0->Ok_0).0, false),
        ), spec_get_pair(v, c).1),
{
    let v1 = spec_get_pair(v, c).1;
    let id = (spec_get_pair(v, c).0->Ok_0).0;
    lemma_get_pair_facts(v, c);
    lemma_pair_index(v1, c, 0);
    let k = pair_index_from(v1, c, 0)->0;
    assert(v1[k] == c);
}

/// Looking up `cs` in order, from the table `v`: each lookup's result, and the
/// table after the last.
pub open spec fn run_pairs(v: Seq<(i16, i16)>, cs: Seq<(i16, i16)>) -> (
    Seq<Result<(i16, bool), ErrorKind>>,
    Seq<(i16, i16)>,
)
    decreases cs.len(),
{
    if cs.len() == 0 {
        (Seq::empty(), v)
    } else {
        let (rs, v1) = run_pairs(v, cs.drop_last());
        let (r, v2) = spec_get_pair(v1, cs.last());
        (rs.push(r), v2)
    }
}

/// Over any sequence of lookups: the table stays well formed and only grows;
/// each pair given names the looked-up colours in the final table; a new
/// pair is the next number after those already given.
pub proof fn lemma_run_pairs(v: Seq<(i16, i16)>, cs: Seq<(i16, i16)>)
    requires
        pairs_wf(v),
    ensures
        ({
            let (rs, vf) = run_pairs(v, cs);
            &&& pairs_wf(vf)
            &&& rs.len() == cs.len()
            &&& v.len() <= vf.len() && vf.take(v.len() as int) == v
            &&& forall|i: int|
                0 <= i < cs.len() ==> (#[trigger] rs[i] matches Ok((id, fresh)) ==> 1 <= id
                    <= vf.len() && vf[id - 1] == cs[i] && (fresh ==> id == run_pairs(
                    v,
                    cs.take(i),
                ).1.len() + 1))
        }),
    decreases cs.len(),
{
    if cs.len() > 0 {
        let c0 = cs.drop_last();
        lemma_run_pairs(v, c0);
        let (rs0, v1) = run_pairs(v, c0);
        lemma_get_pair_facts(v1, cs.last());
        let (rs, vf) = run_pairs(v, cs);
        assert(vf.take(v1.len() as int) =~= v1);
        assert(vf.take(v.len() as int) =~= v1.take(v.len() as int));
        assert forall|i: int| 0 <= i < cs.len() implies (#[trigger] rs[i] matches Ok((id, fresh))
            ==> 1 <= id <= vf.len() && vf[id - 1] == cs[i] && (fresh ==> id == run_pairs(
            v,
            cs.take(i),
        ).1.len() + 1)) by {
            if i < c0.len() {
                assert(rs[i] == rs0[i]);
                assert(c0[i] == cs[i]);
                assert(c0.take(i) =~= cs.take(i));
                if let Ok((id, _)) = rs[i] {
                    assert(vf[id - 1] == v1[id - 1]);
                }
            } else {
                assert(cs.take(i) =~= c0);
                lemma_pair_index(v1, cs.last(), 0);
            }
        }
    }
}

/// Over any sequence of lookups from a well-formed table, two lookups give
/// the same pair exactly when they look up the same colours.
pub proof fn lemma_run_pairs_injective(v: Seq<(i16, i16)>, cs: Seq<(i16, i16)>, i: int, j: int)
    requires
        pairs_wf(v),
        0 <= i < cs.len(),
        0 <= j < cs.len(),
        run_pairs(v, cs).0[i] is Ok,
        run_pairs(v, cs).0[j] is Ok,
    ensures
        (run_pairs(v, cs).0[i]->Ok_0).0 == (run_pairs(v, cs).0[j]->Ok_0).0 <==> cs[i] == cs[j],
{
    lemma_run_pairs(v, cs);
    let (rs, vf) = run_pairs(v, cs);
    assert(rs[i] matches Ok((id, _)) ==> vf[id - 1] == cs[i]);
    assert(rs[j] matches Ok((id, _)) ==> vf[id - 1] == cs[j]);
}

/// Pair numbers identify colours: in a table, two colours share a pair number
/// only if they are the same colours, and a colour holds a single pair number.
pub proof fn lemma_pairs_injective(v: Seq<(i16, i16)>, a: int, b: int)
    requires
        pairs_wf(v),
        0 <= a < v.len(),
        0 <= b < v.len(),
    ensures
        v[a] == v[b] <==> a == b,
{
}

/// A new pair, to be bound on the terminal to its colours.
#[derive(Clone, Copy, Debug, PartialEq, Eq, Structural)]
pub struct PairBinding {
    pub pair: i16,
    pub fg: i16,
    pub bg: i16,
}

/// What the allocator decided for one colour: the attribute word, and the
/// pair to bind on the terminal when the pair is new.
#[derive(Clone, Copy, Debug, PartialEq, Eq, Structural)]
pub struct ColourAttr {
    pub attr: u32,
    pub bind: Option<PairBinding>,
}

/// Resolving `(fg, bg)` with `styles` against the table `v`: the attribute
/// word and the binding of a new pair, and the table after.
pub open spec fn spec_curses_attr(
    v: Seq<(i16, i16)>,
    supports_256: bool,
    fg: i16,
    bg: i16,
    styles: Set<Attr>,
) -> (Result<ColourAttr, ErrorKind>, Seq<(i16, i16)>) {
    let (f, b, st) = shown_colours(supports_256, fg, bg, styles);
    let (res, v2) = spec_get_pair(v, (f, b));
    match res {
        Ok((id, fresh)) => (
            Ok(
                ColourAttr {
                    attr: attr_word(id, st),
                    bind: if fresh {
                        Some(PairBinding { pair: id, fg: f, bg: b })
                    } else {
                        None
                    },
                },
            ),
            v2,
        ),
        Err(k) => (Err(k), v2),
    }
}

fn bit_of(s: StyleSet, a: Attr) -> (r: u32)
    ensures
        r == bit_if(s@, a),
{
    if s.contains(a) {
        a.get_attron()
    } else {
        0
    }
}

/// The attribute word for `colours` with `attrs`. A terminal without 256
/// colours sees the colours through `downsample` first. The pair comes from
/// `pairs`, which records it if it is new; the result then says which pair to
/// bind to which colours.
pub fn curses_attr(
    pairs: &mut ColourPairs,
    supports_256: bool,
    colours: (i16, i16),
    attrs: StyleSet,
) -> (r: Result<ColourAttr, ErrorKind>)
    requires
        old(pairs).wf(),
        is_colour(colours.0),
        is_colour(colours.1),
    ensures
        (r, final(pairs)@) == spec_curses_attr(old(pairs)@, supports_256, colours.0, colours.1, attrs@),
        final(pairs).wf(),
{
    let (f, b, st) = if supports_256 {
        (colours.0, colours.1, attrs)
    } else {
        downsample(colours.0, colours.1, attrs)
    };
    match pairs.get_pair((f, b)) {
        Ok((id, fresh)) => {
            let mut w = ncurses::COLOR_PAIR(id);
            w = w | bit_of(st, Attr::Bold);
            w = w | bit_of(st, Attr::Italic);
            w = w | bit_of(st, Attr::Underline);
            w = w | bit_of(st, Attr::Blink);
            let bind = if fresh {
                Some(PairBinding { pair: id, fg: f, bg: b })
            } else {
                None
            };
            Ok(ColourAttr { attr: w, bind })
        },
        Err(k) => Err(k),
    }
}

// ---------------------------------------------------------------------------
// Style letters.
/// The style that a letter of the markup names.
pub open spec fn letter_style(c: char) -> Option<Attr> {
    if c == 'b' {
        Some(Attr::Bold)
    } else if c == 'i' {
        Some(Attr::Italic)
    } else if c == 'u' {
        Some(Attr::Underline)
    } else if c == 'a' {
        Some(Attr::Blink)
    } else {
        None
    }
}

pub open spec fn all_style_letters(s: Seq<char>) -> bool {
    forall|i: int| 0 <= i < s.len() ==> (#[trigger] letter_style(s[i])) is Some
}

/// The styles that a run of style letters names.
pub open spec fn styles_of(s: Seq<char>) -> Set<Attr>
    decreases s.len(),
{
    if s.len() == 0 {
        Set::empty()
    } else {
        match letter_style(s.last()) {
            Some(a) => styles_of(s.drop_last()).insert(a),
            None => styles_of(s.drop_last()),
        }
    }
}

pub fn style_of_letter(c: char) -> (r: Option<Attr>)
    ensures
        r == letter_style(c),
{
    if c == 'b' {
        Some(Attr::Bold)
    } else if c == 'i' {
        Some(Attr::Italic)
    } else if c == 'u' {
        Some(Attr::Underline)
    } else if c == 'a' {
        Some(Attr::Blink)
    } else {
        None
    }
}

/// The styles that `cs[from..to]` names, if it holds style letters only.
pub fn styles_in(cs: &Vec<char>, from: usize, to: usize) -> (r: Option<StyleSet>)
    requires
        from <= to <= cs@.len(),
    ensures
        r is Some <==> all_style_letters(cs@.subrange(from as int, to as int)),
        r matches Some(set) ==> set@ == styles_of(cs@.subrange(from as int, to as int)),
{
    let mut set = StyleSet::new();
    let mut i = from;
    while i < to
        invariant
            from <= i <= to <= cs@.len(),
            all_style_letters(cs@.subrange(from as int, i as int)),
            set@ == styles_of(cs@.subrange(from as int, i as int)),
        decreases to - i,
    {
        let ghost before = cs@.subrange(from as int, i as int);
        let ghost now = cs@.subrange(from as int, i + 1);
        assert(now.drop_last() =~= before);
        match style_of_letter(cs[i]) {
            Some(a) => {
                set.insert(a);
            },
            None => {
                assert(cs@.subrange(from as int, to as int)[i - from] == cs@[i as int]);
                return None;
            },
        }
        i += 1;
    }
    Some(set)
}

/// Reads the style letters at the start of `i`: gives what follows the
/// longest run of them, and the styles that the run names.
pub fn parse_attrs(i: &str) -> (r: (String, StyleSet))
    ensures
        ({
            let n = i@.len() - r.0@.len();
            &&& 0 <= n <= i@.len()
            &&& r.0@ == i@.skip(n)
            &&& all_style_letters(i@.take(n))
            &&& (n == i@.len() || letter_style(i@[n]) is None)
            &&& r.1@ == styles_of(i@.take(n))
        }),
{
    let cs = chars_of(i);
    let mut n: usize = 0;
    while n < cs.len() && style_of_letter(cs[n]).is_some()
        invariant
            n <= cs@.len(),
            all_style_letters(cs@.take(n as int)),
        decreases cs@.len() - n,
    {
        assert(cs@.take(n + 1).drop_last() =~= cs@.take(n as int));
        n += 1;
    }
    assert(cs@.take(n as int) =~= cs@.subrange(0, n as int));
    let set = match styles_in(&cs, 0, n) {
        Some(set) => set,
        None => StyleSet::new(),
    };
    let rest = string_of_range(&cs, n, cs.len());
    assert(rest@ =~= i@.skip(n as int));
    (rest, set)
}

/// Every entry of the table is one of the 16 basic colours.
pub proof fn lemma_table_in_16(c: i16)
    requires
        is_colour(c),
    ensures
        -1 <= spec_colour_256_to_16(c) < 16,
{
    let t = TABLE_256_TO_16;
    assert(forall|i: int| 0 <= i < 256 ==> #[trigger] t@[i] < 16);
}

/// On a terminal without 256 colours, a foreground of 8 or more after the
/// table loses 8 and brings bold; a background of 8 or more only loses 8, and
/// the background never changes the styles.
pub proof fn lemma_downsample_asymmetry(fg: i16, bg: i16, styles: Set<Attr>)
    requires
        is_colour(fg),
        is_colour(bg),
    ensures
        ({
            let fg16 = spec_colour_256_to_16(fg);
            let bg16 = spec_colour_256_to_16(bg);
            let (f, b, st) = spec_downsample(fg, bg, styles);
            &&& fg16 >= 8 ==> f == fg16 - 8 && st == styles.insert(Attr::Bold)
            &&& fg16 < 8 ==> f == fg16 && st == styles
            &&& bg16 >= 8 ==> b == bg16 - 8
            &&& bg16 < 8 ==> b == bg16
            &&& forall|bg2: i16| is_colour(bg2) ==> (#[trigger] spec_downsample(fg, bg2, styles)).2 == st
        }),
{
    lemma_table_in_16(fg);
    lemma_table_in_16(bg);
}

/// Naming a style twice in a run of style letters names the same set as
/// naming it once.
pub proof fn lemma_styles_repeat(s: Seq<char>, c: char)
    requires
        letter_style(c) is Some,
    ensures
        styles_of(s.push(c).push(c)) == styles_of(s.push(c)),
{
    let a = letter_style(c)->0;
    assert(s.push(c).push(c).drop_last() =~= s.push(c));
    assert(s.push(c).drop_last() =~= s);
    lemma_insert_idempotent(styles_of(s), a);
}

} // verus!
