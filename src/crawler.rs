//! Finding the embedded `eventDatesData` array in a page and counting the
//! session dates it lists.
use vstd::prelude::*;

pub use crate::date::parse_date;
use crate::date::{date_of_text, SessionDate};
use crate::json::{json_of_text, parse_json, Json};
use crate::watch::{next_baseline, signals};

verus! {

/// Why a fetch or a parse gave no dates.
#[derive(Debug, Clone, Copy, PartialEq, Eq, Structural)]
pub enum CrawlError {
    /// The page could not be fetched.
    Request,
    /// The text is not one JSON document.
    Json,
}

pub open spec fn date_key() -> Seq<char> {
    seq!['d', 'a', 't', 'e']
}

/// The text of the first member named `key`, when that member holds a string.
pub open spec fn member_text(members: Seq<(String, Json)>, key: Seq<char>) -> Option<Seq<char>>
    decreases members.len(),
{
    if members.len() == 0 {
        None
    } else if members[0].0@ == key {
        match members[0].1 {
            Json::Str(t) => Some(t@),
            _ => None,
        }
    } else {
        member_text(members.drop_first(), key)
    }
}

/// The `date` string of an array element, when it is an object that has one.
pub open spec fn entry_date_text(e: Json) -> Option<Seq<char>> {
    match e {
        Json::Object(members) => member_text(members@, date_key()),
        _ => None,
    }
}

/// The session date an array element gives: none, or one.
pub open spec fn entry_dates(e: Json) -> Seq<SessionDate> {
    match entry_date_text(e) {
        Some(t) => match date_of_text(t) {
            Some(d) => seq![d],
            None => seq![],
        },
        None => seq![],
    }
}

pub open spec fn entries_dates(es: Seq<Json>) -> Seq<SessionDate>
    decreases es.len(),
{
    if es.len() == 0 {
        seq![]
    } else {
        entries_dates(es.drop_last()) + entry_dates(es.last())
    }
}

/// The session dates a JSON value lists: for an array, the readable `date`
/// of each element, in order; for anything else, none.
pub open spec fn session_dates_of(v: Json) -> Seq<SessionDate> {
    match v {
        Json::Array(items) => entries_dates(items@),
        _ => seq![],
    }
}

fn is_date_key(k: &str) -> (r: bool)
    ensures
        r == (k@ == date_key()),
{
    if k.unicode_len() != 4 {
        return false;
    }
    let r = k.get_char(0) == 'd' && k.get_char(1) == 'a' && k.get_char(2) == 't' && k.get_char(3)
        == 'e';
    assert(r ==> k@ =~= date_key());
    r
}

fn entry_date(e: &Json) -> (r: Option<SessionDate>)
    ensures
        entry_dates(*e) == match r {
            Some(d) => seq![d],
            None => Seq::<SessionDate>::empty(),
        },
        r matches Some(d) ==> d.wf(),
{
    match e {
        Json::Object(members) => {
            let mut j: usize = 0;
            assert(members@.skip(0) =~= members@);
            while j < members.len()
                invariant
                    j <= members.len(),
                    entry_date_text(*e) == member_text(members@, date_key()),
                    member_text(members@, date_key()) == member_text(
                        members@.skip(j as int),
                        date_key(),
                    ),
                decreases members.len() - j,
            {
                assert(members@.skip(j as int).drop_first() =~= members@.skip(j + 1));
                assert(members@.skip(j as int)[0] == members@[j as int]);
                if is_date_key(members[j].0.as_str()) {
                    return match &members[j].1 {
                        Json::Str(t) => parse_date(t.as_str()),
                        _ => None,
                    };
                }
                j = j + 1;
            }
            None
        },
        _ => None,
    }
}

/// The session dates that a parsed JSON value lists.
pub fn dates_from_json(v: &Json) -> (r: Vec<SessionDate>)
    ensures
        r@ == session_dates_of(*v),
        forall|i: int| 0 <= i < r.len() ==> (#[trigger] r@[i]).wf(),
{
    let mut r: Vec<SessionDate> = Vec::new();
    match v {
        Json::Array(items) => {
            let mut i: usize = 0;
            while i < items.len()
                invariant
                    i <= items.len(),
                    r@ == entries_dates(items@.take(i as int)),
                    forall|k: int| 0 <= k < r.len() ==> (#[trigger] r@[k]).wf(),
                decreases items.len() - i,
            {
                assert(items@.take(i + 1).drop_last() =~= items@.take(i as int));
                match entry_date(&items[i]) {
                    Some(d) => r.push(d),
                    None => {},
                }
                assert(r@ =~= entries_dates(items@.take(i + 1)));
                i = i + 1;
            }
            assert(items@.take(i as int) =~= items@);
        },
        _ => {},
    }
    r
}

/// Reads one segment as a JSON document and returns the session dates it
/// lists; text that is not JSON is an error.
pub fn process_segment(segment: &str) -> (r: Result<Vec<SessionDate>, CrawlError>)
    ensures
        match json_of_text(segment@) {
            Some(v) => r matches Ok(ds) && ds@ == session_dates_of(v),
            None => r == Err::<Vec<SessionDate>, CrawlError>(CrawlError::Json),
        },
        r matches Ok(ds) ==> forall|i: int| 0 <= i < ds.len() ==> (#[trigger] ds@[i]).wf(),
{
    match parse_json(segment) {
        Ok(v) => Ok(dates_from_json(&v)),
        Err(_) => Err(CrawlError::Json),
    }
}

/// The text that opens the embedded array: `var eventDatesData = `.
pub open spec fn marker() -> Seq<char> {
    seq![
        'v', 'a', 'r', ' ', 'e', 'v', 'e', 'n', 't', 'D', 'a', 't', 'e', 's', 'D', 'a', 't', 'a', ' ',
        '=', ' ',
    ]
}

/// The text that closes the embedded array: `];`.
pub open spec fn closing() -> Seq<char> {
    seq![']', ';']
}

pub open spec fn occurs_at(t: Seq<char>, p: Seq<char>, i: int) -> bool {
    0 <= i && i + p.len() <= t.len() && t.subrange(i, i + p.len()) == p
}

/// The first position at or after `from` where `p` occurs in `t`.
pub open spec fn find_from(t: Seq<char>, p: Seq<char>, from: int) -> Option<int>
    decreases t.len() + 1 - from,
{
    if from < 0 || from + p.len() > t.len() {
        None
    } else if occurs_at(t, p, from) {
        Some(from)
    } else {
        find_from(t, p, from + 1)
    }
}

/// What `find_from` finds: the first occurrence at or after `from`, or none.
pub proof fn lemma_find_from(t: Seq<char>, p: Seq<char>, from: int)
    requires
        0 <= from,
    ensures
        match find_from(t, p, from) {
            Some(k) => from <= k && occurs_at(t, p, k) && forall|i: int|
                from <= i < k ==> !occurs_at(t, p, i),
            None => forall|i: int| from <= i ==> !occurs_at(t, p, i),
        },
    decreases t.len() + 1 - from,
{
    if from + p.len() > t.len() {
    } else if occurs_at(t, p, from) {
    } else {
        lemma_find_from(t, p, from + 1);
    }
}

/// The embedded array: from just after the first marker up to and including
/// the `]` of the first `];` that follows it.
pub open spec fn extracted(t: Seq<char>) -> Option<Seq<char>> {
    match find_from(t, marker(), 0) {
        None => None,
        Some(i) => {
            let start = i + marker().len();
            match find_from(t, closing(), start) {
                None => None,
                Some(j) => Some(t.subrange(start, j + 1)),
            }
        },
    }
}

/// The characters of `s`, in order.
fn chars_of(s: &str) -> (r: Vec<char>)
    ensures
        r@ == s@,
{
    let mut r: Vec<char> = Vec::new();
    for c in it: s.chars()
        invariant
            it.seq() == s@,
            r@ == it.seq().take(it.index() as int),
    {
        r.push(c);
    }
    r
}

fn matches_at(t: &Vec<char>, p: &Vec<char>, i: usize) -> (r: bool)
    requires
        i <= t.len(),
    ensures
        r == occurs_at(t@, p@, i as int),
{
    if p.len() > t.len() - i {
        return false;
    }
    let mut k: usize = 0;
    while k < p.len()
        invariant
            k <= p.len(),
            i + p.len() <= t.len(),
            forall|m: int| 0 <= m < k ==> t@[i + m] == p@[m],
        decreases p.len() - k,
    {
        if t[i + k] != p[k] {
            assert(t@.subrange(i as int, i + p.len())[k as int] != p@[k as int]);
            return false;
        }
        k = k + 1;
    }
    assert(t@.subrange(i as int, i + p.len()) =~= p@);
    true
}

fn find(t: &Vec<char>, p: &Vec<char>, from: usize) -> (r: Option<usize>)
    requires
        from <= t.len(),
    ensures
        match r {
            Some(k) => find_from(t@, p@, from as int) == Some(k as int),
            None => find_from(t@, p@, from as int) is None,
        },
{
    let mut i: usize = from;
    while i < t.len() && p.len() <= t.len() - i
        invariant
            from <= i <= t.len(),
            find_from(t@, p@, from as int) == find_from(t@, p@, i as int),
        decreases t.len() - i,
    {
        if matches_at(t, p, i) {
            return Some(i);
        }
        i = i + 1;
    }
    if p.len() <= t.len() - i && matches_at(t, p, i) {
        return Some(i);
    }
    assert(find_from(t@, p@, i + 1) is None);
    None
}

/// Finds the embedded `eventDatesData` array: the text from just after
/// `var eventDatesData = ` up to and including the `]` of the first `];`
/// that follows. `None` where the marker or the closing `];` is missing.
pub fn extract_event_dates_data(response_text: &str) -> (r: Option<&str>)
    ensures
        match extracted(response_text@) {
            Some(seg) => r matches Some(x) && x@ == seg,
            None => r is None,
        },
{
    let t = chars_of(response_text);
    let m = chars_of("var eventDatesData = ");
    let c = chars_of("];");
    proof {
        reveal_strlit("var eventDatesData = ");
        reveal_strlit("];");
        assert(m@ =~= marker());
        assert(c@ =~= closing());
    }
    match find(&t, &m, 0) {
        None => None,
        Some(i) => {
            proof {
                lemma_find_from(t@, m@, 0);
                assert(occurs_at(t@, m@, i as int));
                assert(i + m@.len() <= t@.len());
                assert(i + m.len() <= t.len());
            }
            let start = i + m.len();
            match find(&t, &c, start) {
                None => None,
                Some(j) => {
                    proof {
                        lemma_find_from(t@, c@, start as int);
                    }
                    Some(response_text.substring_char(start, j + 1))
                },
            }
        },
    }
}

/// Unicode `White_Space`, the characters that `str::trim` removes.
pub open spec fn is_white_space(c: char) -> bool {
    ('\t' <= c && c <= '\r') || c == ' ' || c == '\u{85}' || c == '\u{A0}' || c == '\u{1680}' || (
    '\u{2000}' <= c && c <= '\u{200A}') || c == '\u{2028}' || c == '\u{2029}' || c == '\u{202F}'
        || c == '\u{205F}' || c == '\u{3000}'
}

pub open spec fn trim_start(s: Seq<char>) -> Seq<char>
    decreases s.len(),
{
    if s.len() > 0 && is_white_space(s[0]) {
        trim_start(s.drop_first())
    } else {
        s
    }
}

pub open spec fn trim_end(s: Seq<char>) -> Seq<char>
    decreases s.len(),
{
    if s.len() > 0 && is_white_space(s.last()) {
        trim_end(s.drop_last())
    } else {
        s
    }
}

/// `s` without white space at either end.
pub open spec fn trim(s: Seq<char>) -> Seq<char> {
    trim_end(trim_start(s))
}

/// The pieces of `s` between the occurrences of `c`, as `str::split` gives
/// them: one more than there are occurrences, empty ones included.
pub open spec fn split_on(s: Seq<char>, c: char) -> Seq<Seq<char>>
    decreases s.len(),
{
    if s.len() == 0 {
        seq![seq![]]
    } else {
        let prev = split_on(s.drop_last(), c);
        if s.last() == c {
            prev.push(seq![])
        } else {
            prev.update(prev.len() - 1, prev.last().push(s.last()))
        }
    }
}

/// The session dates of one piece: none where the trimmed piece is empty or
/// not JSON, else those of the value it holds.
pub open spec fn piece_dates(p: Seq<char>) -> Seq<SessionDate> {
    let t = trim(p);
    if t.len() == 0 {
        seq![]
    } else {
        match json_of_text(t) {
            Some(v) => session_dates_of(v),
            None => seq![],
        }
    }
}

pub open spec fn pieces_dates(ps: Seq<Seq<char>>) -> Seq<SessionDate>
    decreases ps.len(),
{
    if ps.len() == 0 {
        seq![]
    } else {
        pieces_dates(ps.drop_last()) + piece_dates(ps.last())
    }
}

/// The session dates of an extracted array text, over its `;`-separated
/// pieces in order.
pub open spec fn blob_dates(b: Seq<char>) -> Seq<SessionDate> {
    pieces_dates(split_on(b, ';'))
}

/// The session dates a page lists; none where it holds no array.
pub open spec fn page_dates(t: Seq<char>) -> Seq<SessionDate> {
    match extracted(t) {
        Some(b) => blob_dates(b),
        None => seq![],
    }
}

/// The number of session dates a page lists.
pub open spec fn session_count(t: Seq<char>) -> nat {
    page_dates(t).len()
}

fn is_white_space_char(c: char) -> (r: bool)
    ensures
        r == is_white_space(c),
{
    ('\t' <= c && c <= '\r') || c == ' ' || c == '\u{85}' || c == '\u{A0}' || c == '\u{1680}' || (
    '\u{2000}' <= c && c <= '\u{200A}') || c == '\u{2028}' || c == '\u{2029}' || c == '\u{202F}'
        || c == '\u{205F}' || c == '\u{3000}'
}

/// The bounds of `cs[a..b]` with white space at both ends left out.
fn trim_bounds(cs: &Vec<char>, a: usize, b: usize) -> (r: (usize, usize))
    requires
        a <= b <= cs.len(),
    ensures
        a <= r.0 <= r.1 <= b,
        cs@.subrange(r.0 as int, r.1 as int) == trim(cs@.subrange(a as int, b as int)),
{
    let mut x: usize = a;
    while x < b && is_white_space_char(cs[x])
        invariant
            a <= x <= b <= cs.len(),
            trim_start(cs@.subrange(a as int, b as int)) == trim_start(
                cs@.subrange(x as int, b as int),
            ),
        decreases b - x,
    {
        assert(cs@.subrange(x as int, b as int).drop_first() =~= cs@.subrange(x + 1, b as int));
        x = x + 1;
    }
    let mut y: usize = b;
    while y > x && is_white_space_char(cs[y - 1])
        invariant
            a <= x <= y <= b <= cs.len(),
            trim_end(cs@.subrange(x as int, b as int)) == trim_end(
                cs@.subrange(x as int, y as int),
            ),
        decreases y - x,
    {
        assert(cs@.subrange(x as int, y as int).drop_last() =~= cs@.subrange(x as int, y - 1));
        y = y - 1;
    }
    (x, y)
}

/// Adds the session dates of the piece `blob[a..b]`.
fn add_piece_dates(blob: &str, cs: &Vec<char>, a: usize, b: usize, dates: &mut Vec<SessionDate>)
    requires
        cs@ == blob@,
        a <= b <= cs.len(),
        forall|i: int| 0 <= i < old(dates).len() ==> (#[trigger] old(dates)@[i]).wf(),
    ensures
        final(dates)@ == old(dates)@ + piece_dates(cs@.subrange(a as int, b as int)),
        forall|i: int| 0 <= i < final(dates).len() ==> (#[trigger] final(dates)@[i]).wf(),
{
    let (x, y) = trim_bounds(cs, a, b);
    if x < y {
        let text = blob.substring_char(x, y);
        match process_segment(text) {
            Ok(found) => {
                let mut found = found;
                let ghost before = dates@;
                let ghost added = found@;
                dates.append(&mut found);
                assert forall|i: int| 0 <= i < dates.len() implies (#[trigger] dates@[i]).wf() by {
                    if i >= before.len() {
                        assert(dates@[i] == added[i - before.len()]);
                    }
                }
            },
            Err(_) => {},
        }
    } else {
        assert(final(dates)@ =~= old(dates)@ + piece_dates(cs@.subrange(a as int, b as int)));
    }
}

/// Reads the session dates of an extracted array text: each `;`-separated
/// piece, trimmed, that is a JSON array contributes the readable `date` of
/// each of its elements; the rest are passed over.
pub fn parse_sessions(blob: &str) -> (r: Vec<SessionDate>)
    ensures
        r@ == blob_dates(blob@),
        forall|i: int| 0 <= i < r.len() ==> (#[trigger] r@[i]).wf(),
{
    let cs = chars_of(blob);
    let mut dates: Vec<SessionDate> = Vec::new();
    let mut start: usize = 0;
    let mut i: usize = 0;
    let ghost mut done: Seq<Seq<char>> = seq![];
    assert(cs@.take(0) =~= Seq::<char>::empty());
    assert(cs@.subrange(0, 0) =~= Seq::<char>::empty());
    while i < cs.len()
        invariant
            start <= i <= cs.len(),
            cs@ == blob@,
            split_on(cs@.take(i as int), ';') == done.push(cs@.subrange(start as int, i as int)),
            dates@ == pieces_dates(done),
            forall|k: int| 0 <= k < dates.len() ==> (#[trigger] dates@[k]).wf(),
        decreases cs.len() - i,
    {
        let ghost cur = cs@.subrange(start as int, i as int);
        assert(cs@.take(i + 1).drop_last() =~= cs@.take(i as int));
        if cs[i] == ';' {
            add_piece_dates(blob, &cs, start, i, &mut dates);
            proof {
                assert(done.push(cur).drop_last() =~= done);
                done = done.push(cur);
                assert(cs@.subrange(i + 1, i + 1) =~= Seq::<char>::empty());
            }
            start = i + 1;
        } else {
            assert(cs@.subrange(start as int, i + 1) =~= cur.push(cs@[i as int]));
            assert(split_on(cs@.take(i + 1), ';') =~= done.push(cs@.subrange(start as int, i + 1)));
        }
        i = i + 1;
    }
    add_piece_dates(blob, &cs, start, i, &mut dates);
    proof {
        let cur = cs@.subrange(start as int, i as int);
        assert(cs@.take(i as int) =~= cs@);
        assert(done.push(cur).drop_last() =~= done);
    }
    dates
}

/// The number of session dates the page lists in its `eventDatesData`
/// array; a page without that array counts none.
pub fn process_response(response_text: &str) -> (r: Result<usize, CrawlError>)
    ensures
        r == Ok::<usize, CrawlError>(session_count(response_text@) as usize),
        session_count(response_text@) <= usize::MAX,
{
    match extract_event_dates_data(response_text) {
        Some(blob) => {
            let dates = parse_sessions(blob);
            Ok(dates.len())
        },
        None => Ok(0),
    }
}

/// A page without the marker yields no array. A page with the marker and a
/// `];` somewhere after it yields the text that starts right after the first
/// marker and ends with the `]` of the first `];` after that.
pub proof fn lemma_extractor(t: Seq<char>)
    ensures
        (forall|i: int| !occurs_at(t, marker(), i)) ==> extracted(t) is None,
        (exists|i: int, j: int|
            occurs_at(t, marker(), i) && i + marker().len() <= j && occurs_at(t, closing(), j))
            ==> (extracted(t) matches Some(seg) && seg.len() >= 1 && seg.last() == ']' && exists|
            k: int,
        |
            #![trigger occurs_at(t, marker(), k)]
            occurs_at(t, marker(), k) && (forall|i: int| 0 <= i < k ==> !occurs_at(t, marker(), i))
                && seg == t.subrange(k + marker().len(), k + marker().len() + seg.len())),
{
    lemma_find_from(t, marker(), 0);
    match find_from(t, marker(), 0) {
        None => {},
        Some(k) => {
            let start = k + marker().len();
            lemma_find_from(t, closing(), start);
            if exists|i: int, j: int|
                occurs_at(t, marker(), i) && i + marker().len() <= j && occurs_at(t, closing(), j) {
                let (i, j) = choose|i: int, j: int|
                    occurs_at(t, marker(), i) && i + marker().len() <= j && occurs_at(
                        t,
                        closing(),
                        j,
                    );
                assert(k <= i);
                assert(start <= j);
                let jj = find_from(t, closing(), start)->0;
                assert(t.subrange(jj, jj + 2)[0] == t[jj]);
                let seg = t.subrange(start, jj + 1);
                assert(seg.last() == t[jj]);
                assert(seg == t.subrange(start, start + seg.len()));
            }
        },
    }
}

proof fn lemma_entries_dates_concat(a: Seq<Json>, b: Seq<Json>)
    ensures
        entries_dates(a + b) == entries_dates(a) + entries_dates(b),
    decreases b.len(),
{
    if b.len() == 0 {
        assert(a + b =~= a);
        assert(entries_dates(a) + entries_dates(b) =~= entries_dates(a));
    } else {
        assert((a + b).drop_last() =~= a + b.drop_last());
        lemma_entries_dates_concat(a, b.drop_last());
        assert(entries_dates(a + b) =~= entries_dates(a) + entries_dates(b));
    }
}

proof fn lemma_all_dated_entries(items: Seq<Json>)
    requires
        forall|i: int|
            0 <= i < items.len() ==> (entry_date_text(#[trigger] items[i]) matches Some(t)
                && date_of_text(t) is Some),
    ensures
        entries_dates(items).len() == items.len(),
        forall|i: int|
            0 <= i < items.len() ==> entries_dates(items)[i] == date_of_text(
                entry_date_text(#[trigger] items[i])->0,
            )->0,
    decreases items.len(),
{
    if items.len() > 0 {
        let front = items.drop_last();
        assert forall|i: int| 0 <= i < front.len() implies (entry_date_text(#[trigger] front[i]) matches Some(t)
            && date_of_text(t) is Some) by {
            assert(front[i] == items[i]);
        }
        lemma_all_dated_entries(front);
        assert(items[items.len() - 1] == items.last());
        assert forall|i: int| 0 <= i < items.len() implies entries_dates(items)[i] == date_of_text(
            entry_date_text(#[trigger] items[i])->0,
        )->0 by {
            if i < front.len() {
                assert(front[i] == items[i]);
            }
        }
    }
}

/// An array of N elements that each hold a readable `date` lists exactly N
/// session dates, the date of each element in the elements' order.
pub proof fn lemma_all_dated(v: Json)
    requires
        v matches Json::Array(items) && forall|i: int|
            0 <= i < items@.len() ==> (entry_date_text(#[trigger] items@[i]) matches Some(t)
                && date_of_text(t) is Some),
    ensures
        session_dates_of(v).len() == v->Array_0@.len(),
        forall|i: int|
            0 <= i < v->Array_0@.len() ==> session_dates_of(v)[i] == date_of_text(
                entry_date_text(#[trigger] v->Array_0@[i])->0,
            )->0,
{
    lemma_all_dated_entries(v->Array_0@);
}

/// An element without a readable `date` (no such member, not a string, or
/// not a day written as `YYYY-MM-DD`) adds no date and leaves the dates of
/// the other elements as they are.
pub proof fn lemma_undated_entry_dropped(items: Seq<Json>, k: int)
    requires
        0 <= k < items.len(),
        entry_dates(items[k]).len() == 0,
    ensures
        entries_dates(items) == entries_dates(items.remove(k)),
{
    let a = items.take(k);
    let b = items.skip(k + 1);
    let x = seq![items[k]];
    assert(items =~= a + x + b);
    assert(items.remove(k) =~= a + b);
    lemma_entries_dates_concat(a + x, b);
    lemma_entries_dates_concat(a, x);
    lemma_entries_dates_concat(a, b);
    assert(x.drop_last() =~= Seq::<Json>::empty());
    assert(entries_dates(x.drop_last()) =~= Seq::<SessionDate>::empty());
    assert(x.last() == items[k]);
    assert(entries_dates(x) =~= entry_dates(items[k]));
    assert(entries_dates(a) + entries_dates(x) =~= entries_dates(a));
}

/// Reading the same page twice gives the same session dates and the same
/// count.
pub proof fn lemma_pipeline_repeatable(t1: Seq<char>, t2: Seq<char>)
    requires
        t1 == t2,
    ensures
        page_dates(t1) == page_dates(t2),
        session_count(t1) == session_count(t2),
{
}

/// A page without the marker counts no session, and that count raises no
/// signal and leaves any baseline as it was.
pub proof fn lemma_no_marker_no_signal(t: Seq<char>, baseline: nat)
    requires
        forall|i: int| !occurs_at(t, marker(), i),
    ensures
        session_count(t) == 0,
        !signals(baseline, session_count(t)),
        next_baseline(baseline, session_count(t)) == baseline,
{
    lemma_extractor(t);
}

} // verus!
