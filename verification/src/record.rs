//! One response's worth of captured headers, and the line-by-line rules
//! that cut a capture into such records.
//!
//! A capture is a status line followed by header lines, records separated
//! by a blank line, as `curl -D -` writes them. Reading the capture is left
//! to the caller: [`RecordParser`] takes one line at a time and hands back a
//! record each time one is complete, so only the current record is ever
//! held in memory.

use vstd::prelude::*;

use crate::text::{
    chars_of, collect_chars, eq_ignore_ascii_case, find_char, has_prefix, lemma_lower_idempotent,
    lemma_split_once_at, lower, skip_trailing, split_once, starts_with, to_ascii_lower, trim,
    trim_bounds, trim_class, trim_end_class, trim_start_class, in_class, is_first_index,
    is_whitespace, lemma_trim_class_fixed, TrimClass,
};

verus! {

/// A header as the contracts see it: its name and its value.
pub type HeaderView = (Seq<char>, Seq<char>);

/// A record as the contracts see it: its status line, if any, and its
/// headers in the order they appeared.
pub type RecordView = (Option<Seq<char>>, Seq<HeaderView>);

/// One response's worth of headers, in the order they appeared.
#[derive(Debug)]
pub struct HeaderRecord {
    pub status_line: Option<String>,
    pub headers: Vec<(String, String)>,
}

impl View for HeaderRecord {
    type V = RecordView;

    open spec fn view(&self) -> RecordView {
        (
            match self.status_line {
                Some(s) => Some(s@),
                None => None,
            },
            self.headers@.map_values(|h: (String, String)| (h.0@, h.1@)),
        )
    }
}

/// A record with no status line and no headers.
pub open spec fn empty_record() -> RecordView {
    (None, Seq::empty())
}

pub open spec fn record_is_empty(r: RecordView) -> bool {
    r.0 is None && r.1.len() == 0
}

/// The value of the first header whose name matches `name` with ASCII case
/// ignored.
pub open spec fn lookup_header(hs: Seq<HeaderView>, name: Seq<char>) -> Option<Seq<char>>
    decreases hs.len(),
{
    if hs.len() == 0 {
        None
    } else if eq_ignore_ascii_case(hs[0].0, name) {
        Some(hs[0].1)
    } else {
        lookup_header(hs.drop_first(), name)
    }
}

/// What one line of a capture does to the record being read, and the
/// record it completes, if any. The line's trailing carriage returns and
/// line feeds are dropped first. A blank line ends a record that has
/// started and is skipped otherwise; a line that starts with `HTTP/` is the
/// status line; a line with a `:` is a header, its name and value trimmed;
/// any other line is ignored.
pub open spec fn line_step(rec: RecordView, line: Seq<char>) -> (RecordView, Option<RecordView>) {
    let t = trim_end_class(line, TrimClass::LineEnd);
    if t.len() == 0 {
        if record_is_empty(rec) {
            (rec, None)
        } else {
            (empty_record(), Some(rec))
        }
    } else if starts_with(t, "HTTP/"@) {
        ((Some(t), rec.1), None)
    } else {
        match split_once(t, ':') {
            Some((name, value)) => ((rec.0, rec.1.push((trim(name), trim(value)))), None),
            None => (rec, None),
        }
    }
}

/// Looking a header up ignores the ASCII case of the name asked for.
pub proof fn lemma_lookup_ignores_case(hs: Seq<HeaderView>, name: Seq<char>)
    ensures
        lookup_header(hs, name) == lookup_header(hs, lower(name)),
    decreases hs.len(),
{
    lemma_lower_idempotent(name);
    if hs.len() > 0 {
        lemma_lookup_ignores_case(hs.drop_first(), name);
    }
}

/// Looking a header up gives the value of the first header whose name
/// matches ignoring ASCII case, exactly as stored; and nothing when no
/// header's name matches.
pub proof fn lemma_lookup_first_match(hs: Seq<HeaderView>, name: Seq<char>)
    ensures
        forall|i: int|
            0 <= i < hs.len() && eq_ignore_ascii_case(#[trigger] hs[i].0, name) && (forall|j: int|
                0 <= j < i ==> !eq_ignore_ascii_case(#[trigger] hs[j].0, name)) ==> lookup_header(hs, name)
                == Some(hs[i].1),
        (forall|j: int| 0 <= j < hs.len() ==> !eq_ignore_ascii_case(#[trigger] hs[j].0, name)) ==> lookup_header(
            hs,
            name,
        ) is None,
    decreases hs.len(),
{
    if hs.len() > 0 {
        let rest = hs.drop_first();
        lemma_lookup_first_match(rest, name);
        assert forall|i: int|
            0 <= i < hs.len() && eq_ignore_ascii_case(#[trigger] hs[i].0, name) && (forall|j: int|
                0 <= j < i ==> !eq_ignore_ascii_case(#[trigger] hs[j].0, name)) implies lookup_header(hs, name)
            == Some(hs[i].1) by {
            if i > 0 {
                assert(!eq_ignore_ascii_case(hs[0].0, name));
                assert(rest[i - 1] == hs[i]);
                assert forall|j: int| 0 <= j < i - 1 implies !eq_ignore_ascii_case(#[trigger] rest[j].0, name) by {
                    assert(rest[j] == hs[j + 1]);
                }
            }
        }
        if forall|j: int| 0 <= j < hs.len() ==> !eq_ignore_ascii_case(#[trigger] hs[j].0, name) {
            assert(!eq_ignore_ascii_case(hs[0].0, name));
            assert forall|j: int| 0 <= j < rest.len() implies !eq_ignore_ascii_case(#[trigger] rest[j].0, name) by {
                assert(rest[j] == hs[j + 1]);
            }
        }
    }
}

/// Trailing line-ending characters are dropped, and only those.
proof fn lemma_trim_line_end(t: Seq<char>, e: Seq<char>)
    requires
        t.len() > 0,
        !in_class(t.last(), TrimClass::LineEnd),
        forall|i: int| 0 <= i < e.len() ==> in_class(#[trigger] e[i], TrimClass::LineEnd),
    ensures
        trim_end_class(t + e, TrimClass::LineEnd) == t,
    decreases e.len(),
{
    if e.len() == 0 {
        assert(t + e =~= t);
    } else {
        let e2 = e.drop_last();
        assert((t + e).drop_last() =~= t + e2);
        assert((t + e).last() == e[e.len() - 1]);
        assert forall|i: int| 0 <= i < e2.len() implies in_class(#[trigger] e2[i], TrimClass::LineEnd) by {
            assert(e2[i] == e[i]);
        }
        lemma_trim_line_end(t, e2);
    }
}

/// Leading whitespace in front of a string that does not start with any is
/// all that trimming the start removes.
proof fn lemma_trim_start_whitespace(w: Seq<char>, v: Seq<char>)
    requires
        forall|i: int| 0 <= i < w.len() ==> is_whitespace(#[trigger] w[i]),
        v.len() > 0 ==> !is_whitespace(v[0]),
    ensures
        trim_start_class(w + v, TrimClass::Whitespace) == v,
    decreases w.len(),
{
    if w.len() == 0 {
        assert(w + v =~= v);
    } else {
        assert((w + v)[0] == w[0]);
        assert((w + v).drop_first() =~= w.drop_first() + v);
        assert forall|i: int| 0 <= i < w.drop_first().len() implies is_whitespace(#[trigger] w.drop_first()[i]) by {
            assert(w.drop_first()[i] == w[i + 1]);
        }
        lemma_trim_start_whitespace(w.drop_first(), v);
    }
}

/// A header line reads as its header whatever the spacing: `name`, a colon,
/// any run of whitespace (none included), the value, and any line ending
/// read as the header `(name, value)`, the value being everything after the
/// whitespace that follows the first colon, unchanged. The name is non-empty
/// and has no colon and no whitespace at its ends, and the line does not
/// start with `HTTP/`; the value has no whitespace at its ends.
pub proof fn lemma_header_line_any_spacing(
    rec: RecordView,
    name: Seq<char>,
    w: Seq<char>,
    value: Seq<char>,
    ending: Seq<char>,
)
    requires
        name.len() > 0,
        !name.contains(':'),
        !is_whitespace(name[0]) && !is_whitespace(name.last()),
        !starts_with(name, "HTTP/"@),
        forall|i: int| 0 <= i < w.len() ==> is_whitespace(#[trigger] w[i]) && !in_class(w[i], TrimClass::LineEnd),
        value.len() > 0 ==> !is_whitespace(value[0]) && !is_whitespace(value.last()),
        forall|i: int| 0 <= i < ending.len() ==> in_class(#[trigger] ending[i], TrimClass::LineEnd),
    ensures
        line_step(rec, name + seq![':'] + w + value + ending) == ((rec.0, rec.1.push((name, value))), None::<
            RecordView,
        >),
{
    reveal_strlit("HTTP/");
    let t = name + seq![':'] + w + value;
    assert(name + seq![':'] + w + value + ending =~= t + ending);
    assert(t.len() > 0);
    if value.len() > 0 {
        assert(t.last() == value[value.len() - 1]);
        assert(!in_class(t.last(), TrimClass::LineEnd));
    } else if w.len() > 0 {
        assert(t.last() == w[w.len() - 1]);
        assert(!in_class(t.last(), TrimClass::LineEnd));
    } else {
        assert(t.last() == ':');
    }
    lemma_trim_line_end(t, ending);
    let p = "HTTP/"@;
    assert(p.len() == 5 && p[0] == 'H' && p[1] == 'T' && p[2] == 'T' && p[3] == 'P' && p[4] == '/');
    assert(!starts_with(t, p)) by {
        if starts_with(t, p) {
            if name.len() >= 5 {
                assert(name.take(5) =~= t.take(5));
            } else {
                assert(t[name.len() as int] == ':');
                assert(t.take(5)[name.len() as int] == p[name.len() as int]);
            }
        }
    }
    assert(is_first_index(t, ':', name.len() as int)) by {
        assert forall|j: int| 0 <= j < name.len() implies t[j] != ':' by {
            assert(t[j] == name[j]);
        }
    }
    lemma_split_once_at(t, ':', name.len() as int);
    assert(t.take(name.len() as int) =~= name);
    assert(t.skip(name.len() as int + 1) =~= w + value);
    lemma_trim_class_fixed(name, TrimClass::Whitespace);
    lemma_trim_start_whitespace(w, value);
    lemma_trim_class_fixed(value, TrimClass::Whitespace);
    assert(trim_start_class(value, TrimClass::Whitespace) == value);
    assert(trim(w + value) == trim_end_class(value, TrimClass::Whitespace));
    assert(trim_end_class(value, TrimClass::Whitespace) == trim_class(value, TrimClass::Whitespace));
}

/// A record that a line completes is never empty: blank lines between
/// records, or before the first, are separators and not empty records.
pub proof fn lemma_completed_records_nonempty(rec: RecordView, line: Seq<char>)
    ensures
        line_step(rec, line).1 matches Some(done) ==> !record_is_empty(done) && done == rec,
{
}

/// The record a step completes, as a sequence of none or one.
pub open spec fn completed(o: Option<RecordView>) -> Seq<RecordView> {
    match o {
        Some(r) => seq![r],
        None => Seq::empty(),
    }
}

/// Feeding `lines` one after the other to a parser that is reading `rec`:
/// the record it is reading afterwards, and the records the lines complete,
/// in order.
pub open spec fn feed_lines(rec: RecordView, lines: Seq<Seq<char>>) -> (RecordView, Seq<RecordView>)
    decreases lines.len(),
{
    if lines.len() == 0 {
        (rec, Seq::empty())
    } else {
        let step = line_step(rec, lines[0]);
        let rest = feed_lines(step.0, lines.drop_first());
        (rest.0, completed(step.1) + rest.1)
    }
}

/// The records of a whole capture, as a fresh parser gives them when fed
/// every line with `feed_line` and then ended with `finish`.
pub open spec fn records_of(lines: Seq<Seq<char>>) -> Seq<RecordView> {
    let fed = feed_lines(empty_record(), lines);
    fed.1 + if record_is_empty(fed.0) {
        Seq::<RecordView>::empty()
    } else {
        seq![fed.0]
    }
}

/// Feeding two runs of lines is feeding the first, then the second.
pub proof fn lemma_feed_lines_append(rec: RecordView, a: Seq<Seq<char>>, b: Seq<Seq<char>>)
    ensures
        feed_lines(rec, a + b) == (
            feed_lines(feed_lines(rec, a).0, b).0,
            feed_lines(rec, a).1 + feed_lines(feed_lines(rec, a).0, b).1,
        ),
    decreases a.len(),
{
    if a.len() == 0 {
        assert(a + b =~= b);
        assert(feed_lines(rec, a).1 + feed_lines(rec, b).1 =~= feed_lines(rec, b).1);
    } else {
        let step = line_step(rec, a[0]);
        lemma_feed_lines_append(step.0, a.drop_first(), b);
        assert((a + b).drop_first() =~= a.drop_first() + b);
        assert((a + b)[0] == a[0]);
        let mid = feed_lines(step.0, a.drop_first());
        let tail = feed_lines(mid.0, b);
        assert(completed(step.1) + (mid.1 + tail.1) =~= (completed(step.1) + mid.1) + tail.1);
    }
}

/// A record, once a line completes it, depends only on the lines up to
/// that one: whatever follows, the records that a run of lines completes
/// are the first records of the whole capture.
pub proof fn lemma_records_prefix(a: Seq<Seq<char>>, b: Seq<Seq<char>>)
    ensures
        records_of(a + b).take(feed_lines(empty_record(), a).1.len() as int) == feed_lines(
            empty_record(),
            a,
        ).1,
{
    lemma_feed_lines_append(empty_record(), a, b);
    let first = feed_lines(empty_record(), a).1;
    let whole = records_of(a + b);
    assert(whole.take(first.len() as int) =~= first);
}

/// A line ending.
pub open spec fn crlf() -> Seq<char> {
    seq!['\r', '\n']
}

/// A header written as a capture line: `name: value` and a line ending.
pub open spec fn header_line(h: HeaderView) -> Seq<char> {
    h.0 + seq![':', ' '] + h.1 + crlf()
}

pub open spec fn header_lines(hs: Seq<HeaderView>) -> Seq<Seq<char>>
    decreases hs.len(),
{
    if hs.len() == 0 {
        Seq::empty()
    } else {
        seq![header_line(hs[0])] + header_lines(hs.drop_first())
    }
}

/// A response in a capture: its status line and its headers.
pub type CaptureRecord = (Seq<char>, Seq<HeaderView>);

/// The lines of one response: the status line, the header lines, and the
/// blank line that ends it.
pub open spec fn record_lines(r: CaptureRecord) -> Seq<Seq<char>> {
    seq![r.0 + crlf()] + header_lines(r.1) + seq![crlf()]
}

/// The lines of a capture of several responses, one after the other.
pub open spec fn capture_lines(recs: Seq<CaptureRecord>) -> Seq<Seq<char>>
    decreases recs.len(),
{
    if recs.len() == 0 {
        Seq::empty()
    } else {
        record_lines(recs[0]) + capture_lines(recs.drop_first())
    }
}

pub open spec fn no_line_break(s: Seq<char>) -> bool {
    !s.contains('\r') && !s.contains('\n')
}

/// A status line as `curl -D -` writes one: it starts with `HTTP/`.
pub open spec fn well_formed_status(s: Seq<char>) -> bool {
    starts_with(s, "HTTP/"@) && no_line_break(s)
}

/// A header as a server sends one: a non-empty trimmed name without `:`
/// that does not start with `HTTP/`, and a trimmed value.
pub open spec fn well_formed_header(h: HeaderView) -> bool {
    &&& h.0.len() > 0
    &&& trim(h.0) == h.0
    &&& !h.0.contains(':')
    &&& !starts_with(h.0, "HTTP/"@)
    &&& trim(h.1) == h.1
    &&& no_line_break(h.0)
    &&& no_line_break(h.1)
}

pub open spec fn well_formed_capture(recs: Seq<CaptureRecord>) -> bool {
    forall|i: int|
        0 <= i < recs.len() ==> {
            &&& well_formed_status((#[trigger] recs[i]).0)
            &&& forall|j: int| 0 <= j < recs[i].1.len() ==> well_formed_header(#[trigger] recs[i].1[j])
        }
}

/// The record that a response of a capture should read as.
pub open spec fn expected_record(r: CaptureRecord) -> RecordView {
    (Some(r.0), r.1)
}

proof fn lemma_status_step(st: RecordView, s: Seq<char>)
    requires
        well_formed_status(s),
    ensures
        line_step(st, s + crlf()) == ((Some(s), st.1), None::<RecordView>),
{
    reveal_strlit("HTTP/");
    let l = s + crlf();
    assert(l.drop_last() =~= s.push('\r'));
    assert(s.push('\r').drop_last() =~= s);
    assert(s.len() >= 5);
    assert(s.last() == s[s.len() - 1]);
    assert(trim_end_class(s, TrimClass::LineEnd) == s);
    assert(trim_end_class(s.push('\r'), TrimClass::LineEnd) == s);
    assert(trim_end_class(l, TrimClass::LineEnd) == s);
}

proof fn lemma_header_step(st: RecordView, h: HeaderView)
    requires
        well_formed_header(h),
    ensures
        line_step(st, header_line(h)) == ((st.0, st.1.push(h)), None::<RecordView>),
{
    reveal_strlit("HTTP/");
    let n = h.0;
    let v = h.1;
    let t = n + seq![':', ' '] + v;
    let l = header_line(h);
    assert(l =~= t + crlf());
    assert(l.drop_last() =~= t.push('\r'));
    assert(t.push('\r').drop_last() =~= t);
    assert(t.len() > 0);
    if v.len() > 0 {
        assert(t.last() == v[v.len() - 1]);
    } else {
        assert(t.last() == ' ');
    }
    assert(!in_class(t.last(), TrimClass::LineEnd));
    assert(trim_end_class(t, TrimClass::LineEnd) == t);
    assert(trim_end_class(t.push('\r'), TrimClass::LineEnd) == t);
    assert(trim_end_class(l, TrimClass::LineEnd) == t);
    let p = "HTTP/"@;
    assert(p.len() == 5 && p[0] == 'H' && p[1] == 'T' && p[2] == 'T' && p[3] == 'P' && p[4] == '/');
    assert(!starts_with(t, p)) by {
        if starts_with(t, p) {
            if n.len() >= 5 {
                assert(n.take(5) =~= t.take(5));
            } else {
                assert(t[n.len() as int] == ':');
                assert(t.take(5)[n.len() as int] == p[n.len() as int]);
            }
        }
    }
    assert(is_first_index(t, ':', n.len() as int)) by {
        assert forall|j: int| 0 <= j < n.len() implies t[j] != ':' by {
            assert(t[j] == n[j]);
        }
    }
    lemma_split_once_at(t, ':', n.len() as int);
    assert(t.take(n.len() as int) =~= n);
    let sv = seq![' '] + v;
    assert(t.skip(n.len() as int + 1) =~= sv);
    assert(sv.drop_first() =~= v);
    assert(is_whitespace(sv[0]));
    assert(trim_start_class(sv, TrimClass::Whitespace) == trim_start_class(v, TrimClass::Whitespace));
    assert(trim(sv) == v);
}

proof fn lemma_blank_step(st: RecordView)
    requires
        !record_is_empty(st),
    ensures
        line_step(st, crlf()) == (empty_record(), Some(st)),
{
    assert(crlf().drop_last() =~= seq!['\r']);
    let cr = seq!['\r'];
    assert(cr.drop_last() =~= Seq::<char>::empty());
    assert(cr.last() == '\r');
    assert(trim_end_class(Seq::<char>::empty(), TrimClass::LineEnd) =~= Seq::<char>::empty());
    assert(trim_end_class(cr, TrimClass::LineEnd) =~= Seq::<char>::empty());
    assert(crlf().last() == '\n');
    assert(trim_end_class(crlf(), TrimClass::LineEnd) =~= Seq::<char>::empty());
}

/// A line that is not blank once its line ending is dropped.
pub open spec fn is_nonblank(line: Seq<char>) -> bool {
    trim_end_class(line, TrimClass::LineEnd).len() > 0
}

/// A line that puts something into the record being read: a status line,
/// or a line with a `:`.
pub open spec fn fills_record(line: Seq<char>) -> bool {
    let t = trim_end_class(line, TrimClass::LineEnd);
    t.len() > 0 && (starts_with(t, "HTTP/"@) || t.contains(':'))
}

proof fn lemma_nonblank_lines(rec: RecordView, a: Seq<Seq<char>>)
    requires
        forall|i: int| 0 <= i < a.len() ==> is_nonblank(#[trigger] a[i]),
    ensures
        feed_lines(rec, a).1 == Seq::<RecordView>::empty(),
        !record_is_empty(rec) || (exists|i: int| 0 <= i < a.len() && fills_record(#[trigger] a[i]))
            ==> !record_is_empty(feed_lines(rec, a).0),
    decreases a.len(),
{
    if a.len() > 0 {
        let l = a[0];
        let t = trim_end_class(l, TrimClass::LineEnd);
        let step = line_step(rec, l);
        assert(is_nonblank(l));
        assert(step.1 is None);
        if fills_record(l) || !record_is_empty(rec) {
            if !starts_with(t, "HTTP/"@) && t.contains(':') {
                assert(split_once(t, ':') is Some);
            }
            assert(!record_is_empty(step.0));
        }
        assert forall|i: int| 0 <= i < a.drop_first().len() implies is_nonblank(#[trigger] a.drop_first()[i]) by {
            assert(a.drop_first()[i] == a[i + 1]);
        }
        lemma_nonblank_lines(step.0, a.drop_first());
        assert(completed(step.1) + feed_lines(step.0, a.drop_first()).1 =~= Seq::<RecordView>::empty());
        if exists|i: int| 0 <= i < a.len() && fills_record(#[trigger] a[i]) {
            let i = choose|i: int| 0 <= i < a.len() && fills_record(#[trigger] a[i]);
            if i > 0 {
                assert(a.drop_first()[i - 1] == a[i]);
            }
        }
    }
}

/// A record depends only on the input up to the blank line that ends it:
/// after lines that are none of them blank, at least one of them a status
/// line or a header, a blank line ends the record they make, and that record
/// comes first whatever lines follow; it is the record those lines alone
/// give.
pub proof fn lemma_record_ends_at_blank_line(a: Seq<Seq<char>>, b: Seq<Seq<char>>)
    requires
        forall|i: int| 0 <= i < a.len() ==> is_nonblank(#[trigger] a[i]),
        exists|i: int| 0 <= i < a.len() && fills_record(#[trigger] a[i]),
    ensures
        records_of(a).len() == 1,
        records_of(a + seq![crlf()] + b).len() >= 1,
        records_of(a + seq![crlf()] + b)[0] == records_of(a)[0],
{
    lemma_nonblank_lines(empty_record(), a);
    let pending = feed_lines(empty_record(), a).0;
    assert(!record_is_empty(pending));
    assert(records_of(a) =~= seq![pending]);
    let c = seq![crlf()] + b;
    assert(a + seq![crlf()] + b =~= a + c);
    lemma_feed_lines_append(empty_record(), a, c);
    lemma_blank_step(pending);
    assert(c[0] == crlf());
    let after = feed_lines(empty_record(), c.drop_first());
    assert(feed_lines(pending, c).1 == seq![pending] + after.1);
    let whole = feed_lines(empty_record(), a + c);
    assert(whole.1 =~= seq![pending] + after.1);
    assert(records_of(a + c)[0] == whole.1[0]);
}

proof fn lemma_headers_steps(st: RecordView, hs: Seq<HeaderView>)
    requires
        forall|j: int| 0 <= j < hs.len() ==> well_formed_header(#[trigger] hs[j]),
    ensures
        feed_lines(st, header_lines(hs)) == ((st.0, st.1 + hs), Seq::<RecordView>::empty()),
    decreases hs.len(),
{
    if hs.len() == 0 {
        assert(st.1 + hs =~= st.1);
    } else {
        let lines = header_lines(hs);
        assert(lines[0] == header_line(hs[0]));
        assert(lines.drop_first() =~= header_lines(hs.drop_first()));
        lemma_header_step(st, hs[0]);
        let next = (st.0, st.1.push(hs[0]));
        assert forall|j: int| 0 <= j < hs.drop_first().len() implies well_formed_header(#[trigger] hs.drop_first()[j]) by {
            assert(hs.drop_first()[j] == hs[j + 1]);
        }
        lemma_headers_steps(next, hs.drop_first());
        assert(st.1.push(hs[0]) + hs.drop_first() =~= st.1 + hs);
        assert(completed(None) + Seq::<RecordView>::empty() =~= Seq::<RecordView>::empty());
    }
}

proof fn lemma_record_steps(r: CaptureRecord)
    requires
        well_formed_status(r.0),
        forall|j: int| 0 <= j < r.1.len() ==> well_formed_header(#[trigger] r.1[j]),
    ensures
        feed_lines(empty_record(), record_lines(r)) == (empty_record(), seq![expected_record(r)]),
{
    let a = seq![r.0 + crlf()];
    let b = header_lines(r.1);
    let c = seq![crlf()];
    assert(record_lines(r) == a + b + c);
    lemma_feed_lines_append(empty_record(), a + b, c);
    lemma_feed_lines_append(empty_record(), a, b);
    lemma_status_step(empty_record(), r.0);
    let after_status: RecordView = (Some(r.0), Seq::empty());
    assert(a.drop_first() =~= Seq::<Seq<char>>::empty());
    assert(a[0] == r.0 + crlf());
    assert(feed_lines(after_status, a.drop_first()) == (after_status, Seq::<RecordView>::empty()));
    assert(completed(None) + Seq::<RecordView>::empty() =~= Seq::<RecordView>::empty());
    assert(feed_lines(empty_record(), a) == (after_status, Seq::<RecordView>::empty()));
    lemma_headers_steps(after_status, r.1);
    assert(after_status.1 + r.1 =~= r.1);
    let full: RecordView = (Some(r.0), r.1);
    assert(feed_lines(empty_record(), a + b) == (full, Seq::<RecordView>::empty()));
    lemma_blank_step(full);
    assert(c.drop_first() =~= Seq::<Seq<char>>::empty());
    assert(c[0] == crlf());
    assert(feed_lines(empty_record(), c.drop_first()) == (empty_record(), Seq::<RecordView>::empty()));
    assert(completed(Some(full)) + Seq::<RecordView>::empty() =~= seq![full]);
    assert(feed_lines(full, c) == (empty_record(), seq![full]));
    assert(Seq::<RecordView>::empty() + seq![full] =~= seq![full]);
}

/// A capture written as `curl -D -` writes one (each response a status line,
/// header lines and a blank line, all ending in CR LF) reads back, line by
/// line, as exactly its responses, in order, each with its status line and
/// its headers in order.
pub proof fn lemma_capture_records(recs: Seq<CaptureRecord>)
    requires
        well_formed_capture(recs),
    ensures
        records_of(capture_lines(recs)) == recs.map_values(|r: CaptureRecord| expected_record(r)),
{
    lemma_capture_feed(recs);
}

proof fn lemma_capture_feed(recs: Seq<CaptureRecord>)
    requires
        well_formed_capture(recs),
    ensures
        feed_lines(empty_record(), capture_lines(recs)) == (
            empty_record(),
            recs.map_values(|r: CaptureRecord| expected_record(r)),
        ),
    decreases recs.len(),
{
    if recs.len() == 0 {
        assert(recs.map_values(|r: CaptureRecord| expected_record(r)) =~= Seq::<RecordView>::empty());
    } else {
        assert(well_formed_status(recs[0].0));
        assert(forall|j: int| 0 <= j < recs[0].1.len() ==> well_formed_header(#[trigger] recs[0].1[j]));
        lemma_record_steps(recs[0]);
        let rest = recs.drop_first();
        assert forall|i: int| 0 <= i < rest.len() implies {
            &&& well_formed_status((#[trigger] rest[i]).0)
            &&& forall|j: int| 0 <= j < rest[i].1.len() ==> well_formed_header(#[trigger] rest[i].1[j])
        } by {
            assert(rest[i] == recs[i + 1]);
            assert(well_formed_status(recs[i + 1].0));
        }
        lemma_capture_feed(rest);
        lemma_feed_lines_append(empty_record(), record_lines(recs[0]), capture_lines(rest));
        assert(recs.map_values(|r: CaptureRecord| expected_record(r)) =~= seq![expected_record(recs[0])]
            + rest.map_values(|r: CaptureRecord| expected_record(r)));
    }
}

/// Whether the characters of `name` match `other` with ASCII case ignored.
fn matches_ignoring_case(name: &Vec<char>, other: &str) -> (r: bool)
    ensures
        r == eq_ignore_ascii_case(other@, name@),
{
    let cs = chars_of(other);
    if cs.len() != name.len() {
        assert(lower(other@).len() != lower(name@).len());
        return false;
    }
    let n = cs.len();
    let mut i: usize = 0;
    while i < n
        invariant
            n == cs@.len() == name@.len(),
            cs@ == other@,
            i <= n,
            forall|j: int| 0 <= j < i ==> lower(cs@)[j] == lower(name@)[j],
        decreases n - i,
    {
        if to_ascii_lower(cs[i]) != to_ascii_lower(name[i]) {
            assert(lower(cs@)[i as int] != lower(name@)[i as int]);
            return false;
        }
        i = i + 1;
    }
    assert(lower(cs@) =~= lower(name@));
    true
}

impl HeaderRecord {
    /// The value of the first header whose name matches `name`, ignoring
    /// ASCII case.
    pub fn get(&self, name: &str) -> (r: Option<&str>)
        ensures
            match r {
                Some(v) => lookup_header(self@.1, name@) == Some(v@),
                None => lookup_header(self@.1, name@) is None,
            },
    {
        let key = chars_of(name);
        let n = self.headers.len();
        let ghost hs = self@.1;
        let mut i: usize = 0;
        assert(hs.skip(0) =~= hs);
        while i < n
            invariant
                n == self.headers@.len(),
                hs == self@.1,
                n == hs.len(),
                key@ == name@,
                i <= n,
                lookup_header(hs, name@) == lookup_header(hs.skip(i as int), name@),
            decreases n - i,
        {
            let h = &self.headers[i];
            assert(hs.skip(i as int)[0] == (h.0@, h.1@));
            if matches_ignoring_case(&key, h.0.as_str()) {
                return Some(h.1.as_str());
            }
            assert(hs.skip(i as int).drop_first() =~= hs.skip(i + 1));
            i = i + 1;
        }
        None
    }

    /// Whether the record has neither a status line nor a header.
    pub fn is_empty(&self) -> (r: bool)
        ensures
            r == record_is_empty(self@),
    {
        self.status_line.is_none() && self.headers.len() == 0
    }
}

impl Clone for HeaderRecord {
    fn clone(&self) -> (r: Self)
        ensures
            r@ == self@,
    {
        let mut headers: Vec<(String, String)> = Vec::new();
        let n = self.headers.len();
        let mut i: usize = 0;
        while i < n
            invariant
                n == self.headers@.len(),
                i <= n,
                headers@.map_values(|h: (String, String)| (h.0@, h.1@)) == self@.1.take(i as int),
            decreases n - i,
        {
            let h = &self.headers[i];
            let ghost before = headers@;
            let copy = (h.0.clone(), h.1.clone());
            assert(copy.0@ == h.0@ && copy.1@ == h.1@);
            headers.push(copy);
            assert(headers@ == before.push(copy));
            assert(self@.1[i as int] == (h.0@, h.1@));
            assert(self@.1.take(i + 1) =~= self@.1.take(i as int).push((h.0@, h.1@)));
            i = i + 1;
            assert(headers@.map_values(|h: (String, String)| (h.0@, h.1@)) =~= self@.1.take(i as int));
        }
        assert(self@.1.take(n as int) =~= self@.1);
        HeaderRecord {
            status_line: match &self.status_line {
                Some(s) => Some(s.clone()),
                None => None,
            },
            headers,
        }
    }
}

impl Default for HeaderRecord {
    fn default() -> (r: Self)
        ensures
            r@ == empty_record(),
    {
        let r = HeaderRecord { status_line: None, headers: Vec::new() };
        assert(r@.1 =~= Seq::<HeaderView>::empty());
        r
    }
}

/// Cuts a capture into records, one line at a time.
///
/// The reader of the capture hands each line to [`RecordParser::feed_line`]
/// and, at the end of the input, calls [`RecordParser::finish`]. Blank lines
/// between records, or before the first one, are separators and never make
/// an empty record.
#[derive(Debug)]
pub struct RecordParser {
    record: HeaderRecord,
}

impl View for RecordParser {
    type V = RecordView;

    /// The record read so far.
    closed spec fn view(&self) -> RecordView {
        self.record@
    }
}

impl RecordParser {
    /// A parser that has read nothing yet.
    pub fn new() -> (r: Self)
        ensures
            r@ == empty_record(),
    {
        RecordParser { record: HeaderRecord::default() }
    }

    /// Takes one line of the capture, with or without its line ending, and
    /// returns the record that the line completes, if any.
    pub fn feed_line(&mut self, line: &str) -> (r: Option<HeaderRecord>)
        ensures
            final(self)@ == line_step(old(self)@, line@).0,
            match r {
                Some(rec) => line_step(old(self)@, line@).1 == Some(rec@),
                None => line_step(old(self)@, line@).1 is None,
            },
    {
        let chars = chars_of(line);
        let n = chars.len();
        let end = skip_trailing(&chars, 0, n, TrimClass::LineEnd);
        let ghost t = chars@.subrange(0, end as int);
        assert(chars@.subrange(0, n as int) =~= line@);
        if end == 0 {
            assert(t.len() == 0);
            if self.record.is_empty() {
                return None;
            }
            let mut done = HeaderRecord::default();
            std::mem::swap(&mut done, &mut self.record);
            return Some(done);
        }
        let is_status = has_prefix(&chars, end, "HTTP/");
        if is_status {
            let status = collect_chars(&chars, 0, end, false);
            self.record.status_line = Some(status);
            return None;
        }
        let k = find_char(&chars, 0, end, ':');
        if k == end {
            return None;
        }
        proof {
            lemma_split_once_at(t, ':', k as int);
            assert(t.take(k as int) =~= chars@.subrange(0, k as int));
            assert(t.skip(k + 1) =~= chars@.subrange(k + 1, end as int));
        }
        let (na, nb) = trim_bounds(&chars, 0, k, TrimClass::Whitespace);
        let name = collect_chars(&chars, na, nb, false);
        let (va, vb) = trim_bounds(&chars, k + 1, end, TrimClass::Whitespace);
        let value = collect_chars(&chars, va, vb, false);
        let ghost old_headers = self.record@.1;
        self.record.headers.push((name, value));
        assert(self.record@.1 =~= old_headers.push((trim(chars@.subrange(0, k as int)), trim(chars@.subrange(k + 1, end as int)))));
        None
    }

    /// Ends the input: the record still being read, unless nothing of it
    /// was read.
    pub fn finish(self) -> (r: Option<HeaderRecord>)
        ensures
            match r {
                Some(rec) => !record_is_empty(self@) && rec@ == self@,
                None => record_is_empty(self@),
            },
    {
        if self.record.is_empty() {
            None
        } else {
            Some(self.record)
        }
    }
}

} // verus!
