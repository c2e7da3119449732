//! The chat-history log format.
//!
//! ```text
//! MR YYYYMMDDTHH:MM:SSZ NNN <nickname>  first line
//!  continuation line
//! MI YYYYMMDDTHH:MM:SSZ NNN first line
//!  continuation line
//! ```
//!
//! `NNN` counts the continuation lines. The nickname ends at the first `">  "`
//! (`'>'` and two spaces). Records hold owned copies of their text.
use vstd::prelude::*;
use crate::datetime::{Instant, parse_datetime_at, spec_parse_datetime, TIMESTAMP_LEN};
use crate::error::{ErrorKind, ParseError};
use crate::text::{all_digits, chars_of, decimal_value, read_decimal, string_of_range};

verus! {

// ---------------------------------------------------------------------------
// The grammar, over absolute positions in the input's characters.
/// The three characters `M`, `c`, space start at `p`.
pub open spec fn prefix_at(s: Seq<char>, p: int, c: char) -> bool {
    0 <= p && p + 3 <= s.len() && s[p] == 'M' && s[p + 1] == c && s[p + 2] == ' '
}

/// After the timestamp: a space and three digits.
pub open spec fn count_field_at(s: Seq<char>, p: int) -> bool {
    0 <= p && p + 25 <= s.len() && s[p + 21] == ' ' && all_digits(s.subrange(p + 22, p + 25))
}

/// The number of continuation lines that the record at `p` declares.
pub open spec fn count_at(s: Seq<char>, p: int) -> nat {
    decimal_value(s.subrange(p + 22, p + 25))
}

/// `">  "` starts at `i`.
pub open spec fn is_nick_end(s: Seq<char>, i: int) -> bool {
    0 <= i && i + 3 <= s.len() && s[i] == '>' && s[i + 1] == ' ' && s[i + 2] == ' '
}

/// The first position at or after `from` where a nickname terminator starts.
pub open spec fn find_nick_end(s: Seq<char>, from: int) -> Option<int>
    decreases s.len() - from,
{
    if 0 <= from && from + 3 <= s.len() {
        if is_nick_end(s, from) {
            Some(from)
        } else {
            find_nick_end(s, from + 1)
        }
    } else {
        None
    }
}

/// The first position at or after `from` that holds a newline.
pub open spec fn find_newline(s: Seq<char>, from: int) -> Option<int>
    decreases s.len() - from,
{
    if 0 <= from < s.len() {
        if s[from] == '\n' {
            Some(from)
        } else {
            find_newline(s, from + 1)
        }
    } else {
        None
    }
}

/// `count` lines from `pos` on, each a space, text, and a newline: their texts
/// and the position after the last.
pub open spec fn body_lines(s: Seq<char>, pos: int, count: nat) -> Option<(Seq<Seq<char>>, int)>
    decreases count,
{
    if count == 0 {
        Some((Seq::empty(), pos))
    } else {
        match body_lines(s, pos, (count - 1) as nat) {
            Some((ls, e)) => {
                if 0 <= e < s.len() && s[e] == ' ' {
                    match find_newline(s, e + 1) {
                        Some(k) => Some((ls.push(s.subrange(e + 1, k)), k + 1)),
                        None => None,
                    }
                } else {
                    None
                }
            },
            None => None,
        }
    }
}

/// What a message record holds.
pub struct MessageView {
    pub time: Instant,
    pub nick: Seq<char>,
    pub lines: Seq<Seq<char>>,
}

/// What an info record holds.
pub struct InfoView {
    pub time: Instant,
    pub lines: Seq<Seq<char>>,
}

pub enum RecordView {
    Message(MessageView),
    Info(InfoView),
}

/// The message record at `p`, and the position after it.
pub open spec fn spec_message(s: Seq<char>, p: int) -> Result<(MessageView, int), ErrorKind> {
    if !prefix_at(s, p, 'R') {
        Err(ErrorKind::MalformedRecordHeader)
    } else {
        match spec_parse_datetime(s.skip(p + 3)) {
            None => Err(ErrorKind::MalformedTimestamp),
            Some(t) => {
                if !(count_field_at(s, p) && p + 27 <= s.len() && s[p + 25] == ' ' && s[p + 26]
                    == '<') {
                    Err(ErrorKind::MalformedRecordHeader)
                } else {
                    match find_nick_end(s, p + 27) {
                        None => Err(ErrorKind::MalformedRecordHeader),
                        Some(j) => match find_newline(s, j + 3) {
                            None => Err(ErrorKind::MalformedRecordHeader),
                            Some(k) => match body_lines(s, k + 1, count_at(s, p)) {
                                None => Err(ErrorKind::MalformedRecordHeader),
                                Some((ls, e)) => Ok(
                                    (
                                        MessageView {
                                            time: t,
                                            nick: s.subrange(p + 27, j),
                                            lines: seq![s.subrange(j + 3, k)] + ls,
                                        },
                                        e,
                                    ),
                                ),
                            },
                        },
                    }
                }
            },
        }
    }
}

/// The info record at `p`, and the position after it.
pub open spec fn spec_info(s: Seq<char>, p: int) -> Result<(InfoView, int), ErrorKind> {
    if !prefix_at(s, p, 'I') {
        Err(ErrorKind::MalformedRecordHeader)
    } else {
        match spec_parse_datetime(s.skip(p + 3)) {
            None => Err(ErrorKind::MalformedTimestamp),
            Some(t) => {
                if !count_field_at(s, p) {
                    Err(ErrorKind::MalformedRecordHeader)
                } else {
                    match body_lines(s, p + 25, count_at(s, p) + 1) {
                        None => Err(ErrorKind::MalformedRecordHeader),
                        Some((ls, e)) => Ok((InfoView { time: t, lines: ls }, e)),
                    }
                }
            },
        }
    }
}

/// The record at `p`, chosen by its first three characters.
pub open spec fn spec_record(s: Seq<char>, p: int) -> Result<(RecordView, int), ErrorKind> {
    if prefix_at(s, p, 'R') {
        match spec_message(s, p) {
            Ok((m, e)) => Ok((RecordView::Message(m), e)),
            Err(k) => Err(k),
        }
    } else if prefix_at(s, p, 'I') {
        match spec_info(s, p) {
            Ok((i, e)) => Ok((RecordView::Info(i), e)),
            Err(k) => Err(k),
        }
    } else {
        Err(ErrorKind::UnrecognizedRecordPrefix)
    }
}

/// The records from `p` to the end of the input, or the first failure with
/// the position of the record that failed.
pub open spec fn spec_logs(s: Seq<char>, p: int) -> Result<Seq<RecordView>, (ErrorKind, int)>
    decreases s.len() - p,
{
    if p >= s.len() {
        Ok(Seq::empty())
    } else {
        match spec_record(s, p) {
            Err(k) => Err((k, p)),
            Ok((r, e)) => {
                if p < e <= s.len() {
                    match spec_logs(s, e) {
                        Ok(rs) => Ok(seq![r] + rs),
                        Err(x) => Err(x),
                    }
                } else {
                    Err((ErrorKind::UnrecognizedRecordPrefix, p))
                }
            },
        }
    }
}

/// The lines joined with newlines between them.
pub open spec fn join_lines(ls: Seq<Seq<char>>) -> Seq<char>
    decreases ls.len(),
{
    if ls.len() == 0 {
        Seq::empty()
    } else if ls.len() == 1 {
        ls[0]
    } else {
        join_lines(ls.drop_last()) + seq!['\n'] + ls.last()
    }
}

} // verus!

verus! {

// ---------------------------------------------------------------------------
// Records.
/// An info line of the history.
#[derive(Clone, Debug, PartialEq)]
pub struct LogInfo {
    pub time: Instant,
    pub message: Vec<String>,
}

/// A chat message of the history.
#[derive(Clone, Debug, PartialEq)]
pub struct LogMessage {
    pub time: Instant,
    pub nick: String,
    pub message: Vec<String>,
}

/// One record of the history.
#[derive(Clone, Debug, PartialEq)]
pub enum Item {
    Message(LogMessage),
    Info(LogInfo),
}

impl View for LogInfo {
    type V = InfoView;

    open spec fn view(&self) -> InfoView {
        InfoView { time: self.time, lines: self.message.deep_view() }
    }
}

impl View for LogMessage {
    type V = MessageView;

    open spec fn view(&self) -> MessageView {
        MessageView { time: self.time, nick: self.nick@, lines: self.message.deep_view() }
    }
}

impl View for Item {
    type V = RecordView;

    open spec fn view(&self) -> RecordView {
        match self {
            Item::Message(m) => RecordView::Message(m@),
            Item::Info(i) => RecordView::Info(i@),
        }
    }
}

pub open spec fn item_views(items: Seq<Item>) -> Seq<RecordView> {
    items.map_values(|it: Item| it@)
}

/// What every record offers: its instant and its text.
pub trait LogItem {
    spec fn spec_time(&self) -> Instant;

    spec fn spec_lines(&self) -> Seq<Seq<char>>;

    fn get_time(&self) -> (r: &Instant)
        ensures
            *r == self.spec_time(),
    ;

    /// The lines of the record joined with newlines.
    fn get_message(&self) -> (r: String)
        ensures
            r@ == join_lines(self.spec_lines()),
    ;
}

fn join_with_newlines(lines: &Vec<String>) -> (r: String)
    ensures
        r@ == join_lines(lines.deep_view()),
{
    let mut out = String::new();
    let mut i: usize = 0;
    while i < lines.len()
        invariant
            i <= lines@.len(),
            out@ == join_lines(lines.deep_view().take(i as int)),
        decreases lines@.len() - i,
    {
        let ghost before = lines.deep_view().take(i as int);
        let ghost after = lines.deep_view().take(i + 1);
        assert(after.drop_last() =~= before);
        assert(after.last() == lines@[i as int]@);
        if i > 0 {
            out.append("\n");
            proof {
                reveal_strlit("\n");
            }
        } else {
            assert(before.len() == 0);
        }
        out.append(lines[i].as_str());
        i += 1;
    }
    assert(lines.deep_view().take(i as int) =~= lines.deep_view());
    out
}

impl LogItem for LogInfo {
    open spec fn spec_time(&self) -> Instant {
        self.time
    }

    open spec fn spec_lines(&self) -> Seq<Seq<char>> {
        self.message.deep_view()
    }

    fn get_time(&self) -> (r: &Instant) {
        &self.time
    }

    fn get_message(&self) -> (r: String) {
        join_with_newlines(&self.message)
    }
}

impl LogItem for LogMessage {
    open spec fn spec_time(&self) -> Instant {
        self.time
    }

    open spec fn spec_lines(&self) -> Seq<Seq<char>> {
        self.message.deep_view()
    }

    fn get_time(&self) -> (r: &Instant) {
        &self.time
    }

    fn get_message(&self) -> (r: String) {
        join_with_newlines(&self.message)
    }
}

impl LogMessage {
    pub fn get_nick(&self) -> (r: &str)
        ensures
            r@ == self.nick@,
    {
        self.nick.as_str()
    }
}

} // verus!

verus! {

// ---------------------------------------------------------------------------
// Reading the grammar.
fn newline_from(cs: &Vec<char>, from: usize) -> (r: Option<usize>)
    requires
        from <= cs@.len(),
    ensures
        match r {
            Some(k) => find_newline(cs@, from as int) == Some(k as int) && from <= k < cs@.len(),
            None => find_newline(cs@, from as int) is None,
        },
{
    let mut i = from;
    while i < cs.len()
        invariant
            from <= i <= cs@.len(),
            find_newline(cs@, i as int) == find_newline(cs@, from as int),
        decreases cs@.len() - i,
    {
        if cs[i] == '\n' {
            return Some(i);
        }
        i += 1;
    }
    None
}

fn nick_end_from(cs: &Vec<char>, from: usize) -> (r: Option<usize>)
    requires
        from <= cs@.len(),
    ensures
        match r {
            Some(j) => find_nick_end(cs@, from as int) == Some(j as int) && from <= j && j + 3
                <= cs@.len(),
            None => find_nick_end(cs@, from as int) is None,
        },
{
    let mut i = from;
    while cs.len() >= 3 && i <= cs.len() - 3
        invariant
            from <= i <= cs@.len(),
            find_nick_end(cs@, i as int) == find_nick_end(cs@, from as int),
        decreases cs@.len() - i,
    {
        if cs[i] == '>' && cs[i + 1] == ' ' && cs[i + 2] == ' ' {
            return Some(i);
        }
        i += 1;
    }
    None
}

proof fn lemma_body_lines_none(s: Seq<char>, pos: int, n: nat, m: nat)
    requires
        n <= m,
        body_lines(s, pos, n) is None,
    ensures
        body_lines(s, pos, m) is None,
    decreases m,
{
    if n < m {
        lemma_body_lines_none(s, pos, n, (m - 1) as nat);
    }
}

/// Reads `count` continuation lines from `pos` and appends their texts to `lines`.
fn read_body_lines(cs: &Vec<char>, pos: usize, count: usize, lines: &mut Vec<String>) -> (r:
    Option<usize>)
    requires
        pos <= cs@.len(),
    ensures
        match r {
            Some(e) => body_lines(cs@, pos as int, count as nat) matches Some((ls, e2)) && e2
                == e && final(lines).deep_view() == old(lines).deep_view() + ls && pos <= e
                <= cs@.len(),
            None => body_lines(cs@, pos as int, count as nat) is None,
        },
{
    let ghost start = lines.deep_view();
    let mut cur = pos;
    let mut i: usize = 0;
    while i < count
        invariant
            pos <= cur <= cs@.len(),
            i <= count,
            body_lines(cs@, pos as int, i as nat) matches Some((ls, e)) && e == cur
                && lines.deep_view() == start + ls,
        decreases count - i,
    {
        let ghost ls = (body_lines(cs@, pos as int, i as nat)->0).0;
        if cur >= cs.len() || cs[cur] != ' ' {
            proof {
                lemma_body_lines_none(cs@, pos as int, (i + 1) as nat, count as nat);
            }
            return None;
        }
        match newline_from(cs, cur + 1) {
            None => {
                proof {
                    lemma_body_lines_none(cs@, pos as int, (i + 1) as nat, count as nat);
                }
                return None;
            },
            Some(k) => {
                let line = string_of_range(cs, cur + 1, k);
                let ghost dv0 = lines.deep_view();
                lines.push(line);
                assert(lines.deep_view() =~= dv0.push(cs@.subrange(cur + 1, k as int)));
                assert(lines.deep_view() =~= start + ls.push(cs@.subrange(cur + 1, k as int)));
                cur = k + 1;
            },
        }
        i += 1;
    }
    Some(cur)
}

fn message_at(cs: &Vec<char>, p: usize) -> (r: Result<(LogMessage, usize), ErrorKind>)
    requires
        p <= cs@.len(),
    ensures
        match r {
            Ok((m, e)) => spec_message(cs@, p as int) == Ok::<(MessageView, int), ErrorKind>((m@, e as int)) && p < e <= cs@.len(),
            Err(k) => spec_message(cs@, p as int) == Err::<(MessageView, int), ErrorKind>(k),
        },
{
    let s = cs;
    if !(s.len() - p >= 3 && s[p] == 'M' && s[p + 1] == 'R' && s[p + 2] == ' ') {
        return Err(ErrorKind::MalformedRecordHeader);
    }
    let time = match parse_datetime_at(s, p + 3) {
        Some(t) => t,
        None => {
            return Err(ErrorKind::MalformedTimestamp);
        },
    };
    if !(s.len() - p >= 27 && s[p + 21] == ' ' && s[p + 25] == ' ' && s[p + 26] == '<'
        && digits3(s, p + 22)) {
        return Err(ErrorKind::MalformedRecordHeader);
    }
    let count = read_decimal(s, p + 22, p + 25) as usize;
    let j = match nick_end_from(s, p + 27) {
        Some(j) => j,
        None => {
            return Err(ErrorKind::MalformedRecordHeader);
        },
    };
    let k = match newline_from(s, j + 3) {
        Some(k) => k,
        None => {
            return Err(ErrorKind::MalformedRecordHeader);
        },
    };
    let nick = string_of_range(s, p + 27, j);
    let first = string_of_range(s, j + 3, k);
    let mut message: Vec<String> = Vec::new();
    message.push(first);
    match read_body_lines(s, k + 1, count, &mut message) {
        None => Err(ErrorKind::MalformedRecordHeader),
        Some(e) => {
            let ghost ls = (body_lines(cs@, k + 1, count as nat)->0).0;
            assert(message.deep_view() =~= seq![cs@.subrange(j + 3, k as int)] + ls);
            Ok((LogMessage { time, nick, message }, e))
        },
    }
}

fn digits3(cs: &Vec<char>, from: usize) -> (r: bool)
    requires
        from + 3 <= cs@.len(),
    ensures
        r == all_digits(cs@.subrange(from as int, from + 3)),
{
    let n = cs.len();
    assert(from + 2 < n);
    let (a, b, c) = (cs[from], cs[from + 1], cs[from + 2]);
    let r = a >= '0' && a <= '9' && b >= '0' && b <= '9' && c >= '0' && c <= '9';
    assert(cs@.subrange(from as int, from + 3)[0] == cs@[from as int]);
    assert(cs@.subrange(from as int, from + 3)[1] == cs@[from + 1]);
    assert(cs@.subrange(from as int, from + 3)[2] == cs@[from + 2]);
    r
}

fn info_at(cs: &Vec<char>, p: usize) -> (r: Result<(LogInfo, usize), ErrorKind>)
    requires
        p <= cs@.len(),
    ensures
        match r {
            Ok((i, e)) => spec_info(cs@, p as int) == Ok::<(InfoView, int), ErrorKind>((i@, e as int)) && p < e <= cs@.len(),
            Err(k) => spec_info(cs@, p as int) == Err::<(InfoView, int), ErrorKind>(k),
        },
{
    let s = cs;
    if !(s.len() - p >= 3 && s[p] == 'M' && s[p + 1] == 'I' && s[p + 2] == ' ') {
        return Err(ErrorKind::MalformedRecordHeader);
    }
    let time = match parse_datetime_at(s, p + 3) {
        Some(t) => t,
        None => {
            return Err(ErrorKind::MalformedTimestamp);
        },
    };
    if !(s.len() - p >= 25 && s[p + 21] == ' ' && digits3(s, p + 22)) {
        return Err(ErrorKind::MalformedRecordHeader);
    }
    let count = read_decimal(s, p + 22, p + 25) as usize;
    let mut message: Vec<String> = Vec::new();
    match read_body_lines(s, p + 25, count + 1, &mut message) {
        None => Err(ErrorKind::MalformedRecordHeader),
        Some(e) => {
            let ghost ls = (body_lines(cs@, p + 25, (count + 1) as nat)->0).0;
            assert(message.deep_view() =~= ls);
            Ok((LogInfo { time, message }, e))
        },
    }
}

} // verus!

verus! {

fn record_at(cs: &Vec<char>, p: usize) -> (r: Result<(Item, usize), ErrorKind>)
    requires
        p <= cs@.len(),
    ensures
        match r {
            Ok((it, e)) => spec_record(cs@, p as int) == Ok::<(RecordView, int), ErrorKind>(
                (it@, e as int),
            ) && p < e <= cs@.len(),
            Err(k) => spec_record(cs@, p as int) == Err::<(RecordView, int), ErrorKind>(k),
        },
{
    if cs.len() - p >= 3 && cs[p] == 'M' && cs[p + 1] == 'R' && cs[p + 2] == ' ' {
        match message_at(cs, p) {
            Ok((m, e)) => Ok((Item::Message(m), e)),
            Err(k) => Err(k),
        }
    } else if cs.len() - p >= 3 && cs[p] == 'M' && cs[p + 1] == 'I' && cs[p + 2] == ' ' {
        match info_at(cs, p) {
            Ok((i, e)) => Ok((Item::Info(i), e)),
            Err(k) => Err(k),
        }
    } else {
        Err(ErrorKind::UnrecognizedRecordPrefix)
    }
}

/// `prefix` followed by the records of `rest`, or the failure of `rest`.
pub open spec fn after(prefix: Seq<RecordView>, rest: Result<Seq<RecordView>, (ErrorKind, int)>) -> Result<
    Seq<RecordView>,
    (ErrorKind, int),
> {
    match rest {
        Ok(rs) => Ok(prefix + rs),
        Err(x) => Err(x),
    }
}

/// Reads a whole log: every record, in order, until the input is exhausted.
/// Anything that is not a record, even a stray newline after the last one,
/// fails the whole call; empty input gives no records.
pub fn parse_logs(logs: &str) -> (r: Result<Vec<Item>, ParseError>)
    ensures
        match r {
            Ok(items) => spec_logs(logs@, 0) == Ok::<Seq<RecordView>, (ErrorKind, int)>(
                item_views(items@),
            ),
            Err(e) => spec_logs(logs@, 0) == Err::<Seq<RecordView>, (ErrorKind, int)>(
                (e.kind, e.position as int),
            ),
        },
{
    let cs = chars_of(logs);
    let mut items: Vec<Item> = Vec::new();
    let mut p: usize = 0;
    assert(item_views(items@) =~= Seq::<RecordView>::empty());
    proof {
        match spec_logs(cs@, 0) {
            Ok(rs) => {
                assert(Seq::<RecordView>::empty() + rs =~= rs);
            },
            Err(x) => {},
        }
    }
    while p < cs.len()
        invariant
            p <= cs@.len(),
            cs@ == logs@,
            spec_logs(cs@, 0) == after(item_views(items@), spec_logs(cs@, p as int)),
        decreases cs@.len() - p,
    {
        match record_at(&cs, p) {
            Err(k) => {
                return Err(ParseError { kind: k, position: p });
            },
            Ok((it, e)) => {
                let ghost before = item_views(items@);
                items.push(it);
                assert(item_views(items@) =~= before.push(it@));
                proof {
                    match spec_logs(cs@, e as int) {
                        Ok(rs) => {
                            assert(before + (seq![it@] + rs) =~= before.push(it@) + rs);
                        },
                        Err(x) => {},
                    }
                }
                p = e;
            },
        }
    }
    assert(item_views(items@) + Seq::empty() =~= item_views(items@));
    Ok(items)
}

/// Reads one message record at the start of `i`; gives the rest of the input
/// and the record.
pub fn parse_log_message(i: &str) -> (r: Result<(String, LogMessage), ParseError>)
    ensures
        match r {
            Ok((rest, m)) => spec_message(i@, 0) matches Ok((v, e)) && v == m@ && rest@ == i@.skip(
                e,
            ),
            Err(err) => spec_message(i@, 0) == Err::<(MessageView, int), ErrorKind>(err.kind)
                && err.position == 0,
        },
{
    let cs = chars_of(i);
    match message_at(&cs, 0) {
        Ok((m, e)) => {
            let rest = string_of_range(&cs, e, cs.len());
            Ok((rest, m))
        },
        Err(k) => Err(ParseError { kind: k, position: 0 }),
    }
}

/// Reads one info record at the start of `i`; gives the rest of the input and
/// the record.
pub fn parse_log_info(i: &str) -> (r: Result<(String, LogInfo), ParseError>)
    ensures
        match r {
            Ok((rest, m)) => spec_info(i@, 0) matches Ok((v, e)) && v == m@ && rest@ == i@.skip(e),
            Err(err) => spec_info(i@, 0) == Err::<(InfoView, int), ErrorKind>(err.kind)
                && err.position == 0,
        },
{
    let cs = chars_of(i);
    match info_at(&cs, 0) {
        Ok((m, e)) => {
            let rest = string_of_range(&cs, e, cs.len());
            Ok((rest, m))
        },
        Err(k) => Err(ParseError { kind: k, position: 0 }),
    }
}

} // verus!

verus! {

// ---------------------------------------------------------------------------
// Laws of the log format.
/// `s2` holds the characters of `s1[lo..hi]`, moved by `d` positions.
pub open spec fn agree(s1: Seq<char>, s2: Seq<char>, d: int, lo: int, hi: int) -> bool {
    forall|i: int| lo <= i < hi ==> #[trigger] agree_at(s1, s2, d, i)
}

/// `s2` holds `s1[i]` at `i + d`.
pub open spec fn agree_at(s1: Seq<char>, s2: Seq<char>, d: int, i: int) -> bool {
    0 <= i < s1.len() && 0 <= i + d < s2.len() && s1[i] == s2[i + d]
}

proof fn lemma_agree_sub(s1: Seq<char>, s2: Seq<char>, d: int, lo: int, hi: int, lo2: int, hi2: int)
    requires
        agree(s1, s2, d, lo, hi),
        lo <= lo2,
        hi2 <= hi,
    ensures
        agree(s1, s2, d, lo2, hi2),
{
    assert forall|i: int| lo2 <= i < hi2 implies #[trigger] agree_at(s1, s2, d, i) by {
        assert(lo <= i < hi);
    }
}

proof fn lemma_agree_subrange(s1: Seq<char>, s2: Seq<char>, d: int, lo: int, hi: int, a: int, b: int)
    requires
        agree(s1, s2, d, lo, hi),
        lo <= a <= b <= hi,
        lo < hi,
    ensures
        s2.subrange(a + d, b + d) == s1.subrange(a, b),
{
    assert(agree_at(s1, s2, d, lo));
    assert(agree_at(s1, s2, d, hi - 1));
    assert forall|i: int| 0 <= i < b - a implies #[trigger] s2.subrange(a + d, b + d)[i]
        == s1.subrange(a, b)[i] by {
        assert(agree_at(s1, s2, d, a + i));
    }
    assert(s2.subrange(a + d, b + d) =~= s1.subrange(a, b));
}

proof fn lemma_find_newline_bounds(s: Seq<char>, from: int)
    ensures
        find_newline(s, from) matches Some(k) ==> from <= k < s.len() && s[k] == '\n',
    decreases s.len() - from,
{
    if 0 <= from < s.len() && s[from] != '\n' {
        lemma_find_newline_bounds(s, from + 1);
    }
}

proof fn lemma_find_nick_end_bounds(s: Seq<char>, from: int)
    ensures
        find_nick_end(s, from) matches Some(j) ==> from <= j && j + 3 <= s.len(),
    decreases s.len() - from,
{
    if 0 <= from && from + 3 <= s.len() && !is_nick_end(s, from) {
        lemma_find_nick_end_bounds(s, from + 1);
    }
}

proof fn lemma_body_lines_bounds(s: Seq<char>, pos: int, count: nat)
    requires
        0 <= pos <= s.len(),
    ensures
        body_lines(s, pos, count) matches Some((ls, e)) ==> pos <= e <= s.len() && (count > 0
            ==> pos < e),
    decreases count,
{
    if count > 0 {
        lemma_body_lines_bounds(s, pos, (count - 1) as nat);
        if let Some((ls, e)) = body_lines(s, pos, (count - 1) as nat) {
            lemma_find_newline_bounds(s, e + 1);
        }
    }
}

proof fn lemma_find_newline_shift(s1: Seq<char>, s2: Seq<char>, d: int, from: int, k: int)
    requires
        find_newline(s1, from) == Some(k),
        agree(s1, s2, d, from, k + 1),
    ensures
        find_newline(s2, from + d) == Some(k + d),
    decreases k - from,
{
    lemma_find_newline_bounds(s1, from);
    assert(agree_at(s1, s2, d, from));
    if s1[from] != '\n' {
        lemma_find_newline_shift(s1, s2, d, from + 1, k);
    }
}

proof fn lemma_find_nick_end_shift(s1: Seq<char>, s2: Seq<char>, d: int, from: int, j: int)
    requires
        find_nick_end(s1, from) == Some(j),
        agree(s1, s2, d, from, j + 3),
    ensures
        find_nick_end(s2, from + d) == Some(j + d),
    decreases j - from,
{
    lemma_find_nick_end_bounds(s1, from);
    assert(agree_at(s1, s2, d, from));
    assert(agree_at(s1, s2, d, from + 1));
    assert(agree_at(s1, s2, d, from + 2));
    if !is_nick_end(s1, from) {
        lemma_find_nick_end_bounds(s1, from + 1);
        lemma_agree_sub(s1, s2, d, from, j + 3, from + 1, j + 3);
        lemma_find_nick_end_shift(s1, s2, d, from + 1, j);
    }
}

proof fn lemma_body_lines_shift(s1: Seq<char>, s2: Seq<char>, d: int, pos: int, count: nat)
    requires
        0 <= pos <= s1.len(),
        body_lines(s1, pos, count) is Some,
        agree(s1, s2, d, pos, (body_lines(s1, pos, count)->0).1),
        0 <= pos + d <= s2.len(),
    ensures
        body_lines(s2, pos + d, count) == Some(
            ((body_lines(s1, pos, count)->0).0, (body_lines(s1, pos, count)->0).1 + d),
        ),
    decreases count,
{
    if count > 0 {
        let (ls, e) = body_lines(s1, pos, count)->0;
        let (ls1, e1) = body_lines(s1, pos, (count - 1) as nat)->0;
        lemma_body_lines_bounds(s1, pos, (count - 1) as nat);
        let k = find_newline(s1, e1 + 1)->0;
        lemma_find_newline_bounds(s1, e1 + 1);
        assert(e == k + 1);
        lemma_body_lines_shift(s1, s2, d, pos, (count - 1) as nat);
        assert(agree_at(s1, s2, d, e1));
        lemma_find_newline_shift(s1, s2, d, e1 + 1, k);
        lemma_agree_subrange(s1, s2, d, pos, e, e1 + 1, k);
    }
}

proof fn lemma_datetime_agree(x: Seq<char>, y: Seq<char>)
    requires
        x.len() >= 18,
        y.len() >= 18,
        forall|i: int| 0 <= i < 18 ==> x[i] == y[i],
    ensures
        spec_parse_datetime(x) == spec_parse_datetime(y),
{
    assert forall|a: int, b: int| 0 <= a <= b <= 18 implies #[trigger] x.subrange(a, b)
        =~= y.subrange(a, b) by {}
    assert(x.subrange(0, 8) == y.subrange(0, 8));
    assert(x.subrange(9, 11) == y.subrange(9, 11));
    assert(x.subrange(12, 14) == y.subrange(12, 14));
    assert(x.subrange(15, 17) == y.subrange(15, 17));
    assert(x.subrange(0, 4) == y.subrange(0, 4));
    assert(x.subrange(4, 6) == y.subrange(4, 6));
    assert(x.subrange(6, 8) == y.subrange(6, 8));
}

proof fn lemma_header_shift(s1: Seq<char>, s2: Seq<char>, d: int, p: int, e: int)
    requires
        0 <= p,
        p + 26 <= e,
        agree(s1, s2, d, p, e),
        spec_parse_datetime(s1.skip(p + 3)) is Some,
    ensures
        spec_parse_datetime(s2.skip(p + d + 3)) == spec_parse_datetime(s1.skip(p + 3)),
        prefix_at(s2, p + d, 'R') == prefix_at(s1, p, 'R'),
        prefix_at(s2, p + d, 'I') == prefix_at(s1, p, 'I'),
        count_field_at(s2, p + d) == count_field_at(s1, p),
        count_at(s2, p + d) == count_at(s1, p),
{
    let x = s1.skip(p + 3);
    let y = s2.skip(p + d + 3);
    assert(agree_at(s1, s2, d, p + 25));
    assert(agree_at(s1, s2, d, p + 20));
    assert(agree_at(s1, s2, d, p));
    assert(x.len() >= 18);
    assert(y.len() >= 18);
    assert forall|i: int| 0 <= i < 18 implies x[i] == y[i] by {
        assert(agree_at(s1, s2, d, p + 3 + i));
    }
    lemma_datetime_agree(x, y);
    assert(agree_at(s1, s2, d, p));
    assert(agree_at(s1, s2, d, p + 1));
    assert(agree_at(s1, s2, d, p + 2));
    assert(agree_at(s1, s2, d, p + 21));
    assert(s2.subrange(p + d + 22, p + d + 25) =~= s1.subrange(p + 22, p + 25)) by {
        assert forall|i: int| 0 <= i < 3 implies #[trigger] s2.subrange(p + d + 22, p + d + 25)[i]
            == s1.subrange(p + 22, p + 25)[i] by {
            assert(agree_at(s1, s2, d, p + 22 + i));
        }
    }
}

proof fn lemma_record_shift(s1: Seq<char>, s2: Seq<char>, d: int, p: int)
    requires
        0 <= p <= s1.len(),
        0 <= p + d <= s2.len(),
        spec_record(s1, p) is Ok,
        agree(s1, s2, d, p, (spec_record(s1, p)->Ok_0).1),
    ensures
        spec_record(s2, p + d) == Ok::<(RecordView, int), ErrorKind>(
            ((spec_record(s1, p)->Ok_0).0, (spec_record(s1, p)->Ok_0).1 + d),
        ),
{
    let e = (spec_record(s1, p)->Ok_0).1;
    if prefix_at(s1, p, 'R') {
        let j = find_nick_end(s1, p + 27)->0;
        lemma_find_nick_end_bounds(s1, p + 27);
        let k = find_newline(s1, j + 3)->0;
        lemma_find_newline_bounds(s1, j + 3);
        lemma_body_lines_bounds(s1, k + 1, count_at(s1, p));
        lemma_header_shift(s1, s2, d, p, e);
        assert(agree_at(s1, s2, d, p + 25));
        assert(agree_at(s1, s2, d, p + 26));
        lemma_find_nick_end_shift(s1, s2, d, p + 27, j);
        lemma_find_newline_shift(s1, s2, d, j + 3, k);
        assert(agree_at(s1, s2, d, k));
        assert(body_lines(s1, k + 1, count_at(s1, p)) is Some);
        assert((body_lines(s1, k + 1, count_at(s1, p))->0).1 == e);
        lemma_agree_sub(s1, s2, d, p, e, k + 1, e);
        lemma_body_lines_shift(s1, s2, d, k + 1, count_at(s1, p));
        lemma_agree_subrange(s1, s2, d, p, e, p + 27, j);
        lemma_agree_subrange(s1, s2, d, p, e, j + 3, k);
    } else {
        lemma_body_lines_bounds(s1, p + 25, count_at(s1, p) + 1);
        lemma_header_shift(s1, s2, d, p, e);
        assert(body_lines(s1, p + 25, count_at(s1, p) + 1) is Some);
        assert((body_lines(s1, p + 25, count_at(s1, p) + 1)->0).1 == e);
        lemma_agree_sub(s1, s2, d, p, e, p + 25, e);
        lemma_body_lines_shift(s1, s2, d, p + 25, count_at(s1, p) + 1);
    }
}

/// The records from `p` on, read in `s` followed by anything: those of `s`,
/// then what the rest gives.
proof fn lemma_logs_prefix(a: Seq<char>, t: Seq<char>, p: int)
    requires
        0 <= p <= a.len(),
        spec_logs(a, p) is Ok,
    ensures
        spec_logs(a + t, p) == after(spec_logs(a, p)->Ok_0, spec_logs(a + t, a.len() as int)),
    decreases a.len() - p,
{
    let s = a + t;
    if p == a.len() {
        match spec_logs(s, p) {
            Ok(rs) => {
                assert(Seq::<RecordView>::empty() + rs =~= rs);
            },
            Err(_) => {},
        }
    } else {
        let (r, e) = spec_record(a, p)->Ok_0;
        assert forall|i: int| p <= i < e implies #[trigger] agree_at(a, s, 0, i) by {}
        lemma_record_shift(a, s, 0, p);
        lemma_logs_prefix(a, t, e);
        let ra = spec_logs(a, e)->Ok_0;
        match spec_logs(s, a.len() as int) {
            Ok(rs) => {
                assert(seq![r] + (ra + rs) =~= (seq![r] + ra) + rs);
            },
            Err(_) => {},
        }
    }
}

/// The records of `s1` from `p` on, read at `p + d` in a text that ends with
/// the same characters.
proof fn lemma_logs_shift(s1: Seq<char>, s2: Seq<char>, d: int, p: int)
    requires
        0 <= p <= s1.len(),
        s2.len() == s1.len() + d,
        agree(s1, s2, d, p, s1.len() as int),
        spec_logs(s1, p) is Ok,
    ensures
        spec_logs(s2, p + d) == spec_logs(s1, p),
    decreases s1.len() - p,
{
    if p < s1.len() {
        let (r, e) = spec_record(s1, p)->Ok_0;
        assert(agree_at(s1, s2, d, p));
        lemma_agree_sub(s1, s2, d, p, s1.len() as int, p, e);
        lemma_record_shift(s1, s2, d, p);
        lemma_logs_shift(s1, s2, d, e);
    }
}

/// Reading two logs one after the other gives the records of the first, then
/// those of the second, in order.
pub proof fn lemma_logs_concat(a: Seq<char>, b: Seq<char>)
    requires
        spec_logs(a, 0) is Ok,
        spec_logs(b, 0) is Ok,
    ensures
        spec_logs(a + b, 0) == Ok::<Seq<RecordView>, (ErrorKind, int)>(
            (spec_logs(a, 0)->Ok_0) + (spec_logs(b, 0)->Ok_0),
        ),
{
    lemma_logs_prefix(a, b, 0);
    assert forall|i: int| 0 <= i < b.len() implies #[trigger] agree_at(b, a + b, a.len() as int, i) by {}
    lemma_logs_shift(b, a + b, a.len() as int, 0);
}

/// A log followed by anything that does not start a record, a single newline
/// included, fails as a whole, at the position where the stray text starts.
pub proof fn lemma_logs_trailing_text(a: Seq<char>, g: Seq<char>)
    requires
        spec_logs(a, 0) is Ok,
        g.len() > 0,
        !prefix_at(g, 0, 'R'),
        !prefix_at(g, 0, 'I'),
    ensures
        spec_logs(a + g, 0) == Err::<Seq<RecordView>, (ErrorKind, int)>(
            (ErrorKind::UnrecognizedRecordPrefix, a.len() as int),
        ),
{
    let s = a + g;
    lemma_logs_prefix(a, g, 0);
    let n = a.len() as int;
    assert(prefix_at(s, n, 'R') == prefix_at(g, 0, 'R')) by {
        if g.len() >= 3 {
            assert(s[n] == g[0] && s[n + 1] == g[1] && s[n + 2] == g[2]);
        }
    }
    assert(prefix_at(s, n, 'I') == prefix_at(g, 0, 'I')) by {
        if g.len() >= 3 {
            assert(s[n] == g[0] && s[n + 1] == g[1] && s[n + 2] == g[2]);
        }
    }
}

/// Text that does not start with `"MR "` or `"MI "` is no log: the read
/// fails at its first character and gives no records.
pub proof fn lemma_unrecognized_prefix(s: Seq<char>)
    requires
        s.len() > 0,
        !prefix_at(s, 0, 'R'),
        !prefix_at(s, 0, 'I'),
    ensures
        spec_logs(s, 0) == Err::<Seq<RecordView>, (ErrorKind, int)>(
            (ErrorKind::UnrecognizedRecordPrefix, 0),
        ),
{
}

} // verus!
