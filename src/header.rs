use crate::normalize::{chars_of, push_char, slugified, string_of, titleize, titleized};
use crate::parse::{markdown_events, parse_events, EventKind, ParseEvent};
use crate::slug::{
    base_stands_apart, counted_slug, lemma_kth_occurrence_suffix, lemma_slug_sequence_len,
    lemma_slug_sequence_prefix, slug_sequence, unique_slug, AnchorSlugger,
};
use vstd::prelude::*;
use vstd::string::*;
use vstd::utf8::*;

verus! {

/// The mathematical content of a heading record.
pub ghost struct HeaderModel {
    pub level: int,
    pub title: Seq<char>,
    pub anchor: Seq<char>,
}

/// A level from 1 to 6 and an anchor that begins with `#`.
pub open spec fn well_formed(h: HeaderModel) -> bool {
    &&& 1 <= h.level <= 6
    &&& h.anchor.len() > 0
    &&& h.anchor[0] == '#'
}

/// `[title](anchor)`: the heading as a one-line Markdown link.
pub open spec fn link_text(h: HeaderModel) -> Seq<char> {
    seq!['['] + h.title + seq![']', '('] + h.anchor + seq![')']
}

pub open spec fn promoted_level(level: int) -> int {
    if level <= 1 {
        1
    } else {
        level - 1
    }
}

pub open spec fn demoted_level(level: int) -> int {
    if level >= 6 {
        6
    } else {
        level + 1
    }
}

/// A heading of a document: its level, display title and anchor link.
#[derive(Debug, PartialEq)]
pub struct Header {
    level: usize,
    title: String,
    anchor: String,
}

impl View for Header {
    type V = HeaderModel;

    closed spec fn view(&self) -> HeaderModel {
        HeaderModel { level: self.level as int, title: self.title@, anchor: self.anchor@ }
    }
}

impl Header {
    #[verifier::type_invariant]
    closed spec fn inv(&self) -> bool {
        well_formed(self@)
    }

    pub fn new(level: usize, title: String, anchor: String) -> (r: Header)
        requires
            1 <= level <= 6,
            anchor@.len() > 0,
            anchor@[0] == '#',
        ensures
            r@ == (HeaderModel { level: level as int, title: title@, anchor: anchor@ }),
    {
        Header { level, title, anchor }
    }

    /// The heading's level, from 1 to 6.
    pub fn level(&self) -> (r: usize)
        ensures
            r == self@.level,
            well_formed(self@),
    {
        proof {
            use_type_invariant(self);
        }
        self.level
    }

    pub fn title(&self) -> (r: &str)
        ensures
            r@ == self@.title,
    {
        self.title.as_str()
    }

    pub fn anchor(&self) -> (r: &str)
        ensures
            r@ == self@.anchor,
    {
        self.anchor.as_str()
    }

    pub fn into_title(self) -> (r: String)
        ensures
            r@ == self@.title,
    {
        self.title
    }

    pub fn into_anchor(self) -> (r: String)
        ensures
            r@ == self@.anchor,
    {
        self.anchor
    }

    /// One level up, but never above level 1.
    pub fn promote(self) -> (r: Header)
        ensures
            r@ == (HeaderModel { level: promoted_level(self@.level), ..self@ }),
    {
        proof {
            use_type_invariant(&self);
        }
        Header {
            level: if self.level == 1 {
                self.level
            } else {
                self.level - 1
            },
            title: self.title,
            anchor: self.anchor,
        }
    }

    /// One level down, but never below level 6.
    pub fn demote(self) -> (r: Header)
        ensures
            r@ == (HeaderModel { level: demoted_level(self@.level), ..self@ }),
    {
        proof {
            use_type_invariant(&self);
        }
        Header {
            level: if self.level == 6 {
                self.level
            } else {
                self.level + 1
            },
            title: self.title,
            anchor: self.anchor,
        }
    }

    /// The heading as a Markdown link, `[title](anchor)`.
    pub fn to_string(&self) -> (r: String)
        ensures
            r@ == link_text(self@),
    {
        let mut s = String::new();
        push_char(&mut s, '[');
        s.append(self.title.as_str());
        push_char(&mut s, ']');
        push_char(&mut s, '(');
        s.append(self.anchor.as_str());
        push_char(&mut s, ')');
        assert(s@ =~= link_text(self@));
        s
    }
}

/// Where a heading stands in the event stream while it is being read.
pub enum State {
    NoHeader,
    /// A heading opened, with its level and the end offset it was opened with.
    FoundHeader(i32, usize),
    /// The heading's raw text spans these offsets.
    FoundRange(i32, usize, usize),
}

impl State {
    /// A heading opened and its text has not begun yet.
    pub fn found_header(&self) -> (r: bool)
        ensures
            r == self is FoundHeader,
    {
        match *self {
            State::FoundHeader(_, _) => true,
            _ => false,
        }
    }

    /// A heading is open.
    pub fn processing_header(&self) -> (r: bool)
        ensures
            r == !(self is NoHeader),
    {
        match *self {
            State::FoundHeader(_, _) | State::FoundRange(_, _, _) => true,
            _ => false,
        }
    }
}

/// The next heading that closes at or after event `pos`, read from `state`: its level, the
/// byte span of its raw text, and the event index after its close. A heading start records
/// its level and end offset; the first event after it fixes the start of the span; a close
/// yields the span (empty at the end offset where nothing came between). Other events are
/// passed over.
pub open spec fn scan(events: Seq<ParseEvent>, pos: int, state: State) -> Option<(i32, int, int, int)>
    decreases events.len() - pos,
{
    if pos < 0 || pos >= events.len() {
        None
    } else {
        let e = events[pos];
        if e.kind is HeadingStart {
            scan(events, pos + 1, State::FoundHeader(e.kind->HeadingStart_0, e.end))
        } else if e.kind is HeadingEnd && !(state is NoHeader) {
            match state {
                State::FoundHeader(level, end) => Some((level, end as int, end as int, pos + 1)),
                State::FoundRange(level, start, end) => Some(
                    (level, start as int, end as int, pos + 1),
                ),
                State::NoHeader => None,
            }
        } else if state is FoundHeader {
            scan(
                events,
                pos + 1,
                State::FoundRange(state->FoundHeader_0, e.start, state->FoundHeader_1),
            )
        } else {
            scan(events, pos + 1, state)
        }
    }
}

/// The parser's report is usable: a level from 1 to 6 and a span on character boundaries
/// of the source.
pub open spec fn span_fits(bytes: Seq<u8>, level: i32, start: int, end: int) -> bool {
    &&& 1 <= level <= 6
    &&& 0 <= start <= end <= bytes.len()
    &&& is_char_boundary(bytes, start)
    &&& is_char_boundary(bytes, end)
}

/// `t` without one trailing `\n`, and then without one trailing `\r`.
pub open spec fn trim_line_end(t: Seq<char>) -> Seq<char> {
    let a = if t.len() > 0 && t.last() == '\n' {
        t.drop_last()
    } else {
        t
    };
    if a.len() > 0 && a.last() == '\r' {
        a.drop_last()
    } else {
        a
    }
}

/// The raw text of a heading: the source's characters over the span, line end trimmed.
pub open spec fn raw_heading(bytes: Seq<u8>, start: int, end: int) -> Seq<char> {
    trim_line_end(decode_utf8(bytes.subrange(start, end)))
}

/// The slug issued for raw heading text after the slugs `issued`.
pub open spec fn heading_slug(raw: Seq<char>, issued: Seq<Seq<char>>) -> Seq<char> {
    unique_slug(issued.to_set(), slugified(raw))
}

pub open spec fn heading_record(level: i32, raw: Seq<char>, issued: Seq<Seq<char>>) -> HeaderModel {
    HeaderModel { level: level as int, title: titleized(raw), anchor: seq!['#'] + heading_slug(raw, issued) }
}

/// The state of an extraction: the document's events and bytes, the index of the next
/// event to read, and the slugs issued so far.
pub ghost struct HeadersModel {
    pub events: Seq<ParseEvent>,
    pub bytes: Seq<u8>,
    pub pos: int,
    pub issued: Seq<Seq<char>>,
}

/// The headings an extraction still yields, in order. A report that does not fit the
/// source ends the sequence. (The scan always moves forward; the bound on `next` states
/// that for the recursion.)
pub open spec fn records_from(m: HeadersModel) -> Seq<HeaderModel>
    decreases m.events.len() - m.pos,
{
    match scan(m.events, m.pos, State::NoHeader) {
        Some((level, start, end, next)) => {
            if span_fits(m.bytes, level, start, end) && m.pos < next <= m.events.len() {
                let raw = raw_heading(m.bytes, start, end);
                seq![heading_record(level, raw, m.issued)] + records_from(
                    HeadersModel {
                        pos: next,
                        issued: m.issued.push(heading_slug(raw, m.issued)),
                        ..m
                    },
                )
            } else {
                seq![]
            }
        },
        None => seq![],
    }
}

/// The next report of the extraction does not fit the source.
pub open spec fn report_fault(m: HeadersModel) -> bool {
    match scan(m.events, m.pos, State::NoHeader) {
        Some((level, start, end, next)) => !(span_fits(m.bytes, level, start, end) && m.pos < next
            <= m.events.len()),
        None => false,
    }
}

/// The headings of a document, in document order.
pub open spec fn document_headers(doc: Seq<char>) -> Seq<HeaderModel> {
    records_from(
        HeadersModel {
            events: markdown_events(doc),
            bytes: encode_utf8(doc),
            pos: 0,
            issued: seq![],
        },
    )
}

pub open spec fn models(hs: Seq<Header>) -> Seq<HeaderModel> {
    hs.map_values(|h: Header| h@)
}

/// Event `i` closes a heading: a heading end with a heading start before it and no heading
/// end in between.
pub open spec fn closes_heading(events: Seq<ParseEvent>, i: int) -> bool {
    &&& 0 <= i < events.len()
    &&& events[i].kind is HeadingEnd
    &&& exists|k: int|
        0 <= k < i && (#[trigger] events[k]).kind is HeadingStart && forall|m: int|
            k < m < i ==> !(#[trigger] events[m].kind is HeadingEnd)
}

/// The heading start nearest before event `i`.
pub open spec fn nearest_start(events: Seq<ParseEvent>, i: int) -> int {
    choose|k: int|
        0 <= k < i && (#[trigger] events[k]).kind is HeadingStart && forall|m: int|
            k < m < i ==> !(#[trigger] events[m].kind is HeadingStart)
}

/// The level of the heading that event `i` closes.
pub open spec fn closed_level(events: Seq<ParseEvent>, i: int) -> i32 {
    events[nearest_start(events, i)].kind->HeadingStart_0
}

/// The indices of the events at or after `p` that close a heading, in order.
pub open spec fn closes_from(events: Seq<ParseEvent>, p: int) -> Seq<int>
    decreases events.len() - p,
{
    if p < 0 || p >= events.len() {
        seq![]
    } else {
        (if closes_heading(events, p) {
            seq![p]
        } else {
            seq![]
        }) + closes_from(events, p + 1)
    }
}

/// `p` starts the document or follows a heading end.
pub open spec fn fresh_point(events: Seq<ParseEvent>, p: int) -> bool {
    p == 0 || (0 < p <= events.len() && events[p - 1].kind is HeadingEnd)
}

/// Every heading that the parser reports has a level from 1 to 6 and a span on character
/// boundaries of the source.
pub open spec fn reports_fit(events: Seq<ParseEvent>, bytes: Seq<u8>) -> bool {
    forall|p: int|
        #![trigger scan(events, p, State::NoHeader)]
        fresh_point(events, p) ==> match scan(events, p, State::NoHeader) {
            Some((level, start, end, _)) => span_fits(bytes, level, start, end),
            None => true,
        }
}

/// What the scan from a fresh point `p` knows when it stands at `q` in `state`.
pub open spec fn scan_inv(events: Seq<ParseEvent>, p: int, q: int, state: State) -> bool {
    &&& fresh_point(events, p)
    &&& p <= q <= events.len()
    &&& forall|i: int| p <= i < q ==> !closes_heading(events, i)
    &&& state is NoHeader ==> forall|m: int|
        p <= m < q ==> !(#[trigger] events[m].kind is HeadingStart)
    &&& !(state is NoHeader) ==> exists|k: int| #[trigger] scan_open(events, p, q, k, state_level(state))
}

/// The level of the heading being read, if any.
pub open spec fn state_level(state: State) -> i32 {
    match state {
        State::FoundHeader(level, _) => level,
        State::FoundRange(level, _, _) => level,
        State::NoHeader => 0,
    }
}

/// The heading start at `k`, of `level`, is the nearest before `q`, with no end after it.
pub open spec fn scan_open(events: Seq<ParseEvent>, p: int, q: int, k: int, level: i32) -> bool {
    &&& 0 <= p <= k < q
    &&& events[k].kind == EventKind::HeadingStart(level)
    &&& forall|m: int| k < m < q ==> !(#[trigger] events[m].kind is HeadingStart)
    &&& forall|m: int| k < m < q ==> !(#[trigger] events[m].kind is HeadingEnd)
}

proof fn lemma_no_close_before_fresh(events: Seq<ParseEvent>, p: int, i: int)
    requires
        fresh_point(events, p),
        p <= i < events.len(),
        forall|m: int| p <= m < i ==> !(#[trigger] events[m].kind is HeadingStart),
    ensures
        !closes_heading(events, i),
{
    if closes_heading(events, i) {
        let k = choose|k: int|
            0 <= k < i && (#[trigger] events[k]).kind is HeadingStart && forall|m: int|
                k < m < i ==> !(#[trigger] events[m].kind is HeadingEnd);
        if k >= p {
        } else {
            assert(events[p - 1].kind is HeadingEnd);
            assert(k < p - 1);
        }
    }
}

proof fn lemma_nearest_start(events: Seq<ParseEvent>, p: int, q: int, k: int, level: i32)
    requires
        scan_open(events, p, q, k, level),
    ensures
        nearest_start(events, q) == k,
        closed_level(events, q) == level,
{
    let c = nearest_start(events, q);
    assert(0 <= k < q && events[k].kind is HeadingStart && forall|m: int|
        k < m < q ==> !(#[trigger] events[m].kind is HeadingStart));
    if c < k {
        assert(events[k].kind is HeadingStart);
    } else if c > k {
        assert(events[c].kind is HeadingStart);
    }
}

proof fn lemma_scan_closes(events: Seq<ParseEvent>, p: int, q: int, state: State)
    requires
        scan_inv(events, p, q, state),
    ensures
        match scan(events, q, state) {
            Some((level, _, _, next)) => {
                &&& q < next <= events.len()
                &&& closes_heading(events, next - 1)
                &&& closed_level(events, next - 1) == level
                &&& forall|i: int| p <= i < next - 1 ==> !closes_heading(events, i)
            },
            None => forall|i: int| p <= i < events.len() ==> !closes_heading(events, i),
        },
    decreases events.len() - q,
{
    if q < events.len() {
        let e = events[q];
        if e.kind is HeadingStart {
            let level = e.kind->HeadingStart_0;
            assert(!closes_heading(events, q));
            assert(forall|i: int| p <= i < q + 1 ==> !closes_heading(events, i));
            assert(scan_open(events, p, q + 1, q, level));
            assert(exists|k: int| #[trigger] scan_open(events, p, q + 1, k, level));
            assert(state_level(State::FoundHeader(level, e.end)) == level);
            assert(scan_inv(events, p, q + 1, State::FoundHeader(level, e.end)));
            lemma_scan_closes(events, p, q + 1, State::FoundHeader(level, e.end));
        } else if e.kind is HeadingEnd && !(state is NoHeader) {
            let level = state_level(state);
            let k = choose|k: int| #[trigger] scan_open(events, p, q, k, level);
            assert(closes_heading(events, q));
            lemma_nearest_start(events, p, q, k, level);
        } else if state is FoundHeader {
            let level = state_level(state);
            let k = choose|k: int| #[trigger] scan_open(events, p, q, k, level);
            assert(!closes_heading(events, q)) by {
                if e.kind is HeadingEnd {
                }
            }
            assert(forall|i: int| p <= i < q + 1 ==> !closes_heading(events, i));
            assert(scan_open(events, p, q + 1, k, level));
            assert(state_level(State::FoundRange(level, e.start, state->FoundHeader_1)) == level);
            assert(scan_inv(events, p, q + 1, State::FoundRange(level, e.start, state->FoundHeader_1)));
            lemma_scan_closes(events, p, q + 1, State::FoundRange(level, e.start, state->FoundHeader_1));
        } else {
            if state is NoHeader {
                lemma_no_close_before_fresh(events, p, q);
            } else {
                let level = state_level(state);
                let k = choose|k: int| #[trigger] scan_open(events, p, q, k, level);
                assert(!(e.kind is HeadingEnd));
                assert(scan_open(events, p, q + 1, k, level));
            }
            assert(forall|i: int| p <= i < q + 1 ==> !closes_heading(events, i));
            lemma_scan_closes(events, p, q + 1, state);
        }
    } else {
        assert(scan(events, q, state) is None);
    }
}

proof fn lemma_closes_from_skip(events: Seq<ParseEvent>, p: int, c: int)
    requires
        0 <= p <= c <= events.len(),
        forall|i: int| p <= i < c ==> !closes_heading(events, i),
    ensures
        closes_from(events, p) == closes_from(events, c),
    decreases c - p,
{
    if p < c {
        assert(!closes_heading(events, p));
        lemma_closes_from_skip(events, p + 1, c);
        assert(closes_from(events, p) =~= closes_from(events, p + 1));
    }
}

#[verifier::rlimit(40)]
proof fn lemma_records_follow_closes(m: HeadersModel)
    requires
        fresh_point(m.events, m.pos),
        reports_fit(m.events, m.bytes),
    ensures
        records_from(m).len() == closes_from(m.events, m.pos).len(),
        forall|j: int|
            0 <= j < records_from(m).len() ==> #[trigger] records_from(m)[j].level == closed_level(
                m.events,
                closes_from(m.events, m.pos)[j],
            ) as int,
    decreases m.events.len() - m.pos,
{
    let events = m.events;
    let p = m.pos;
    assert(scan_inv(events, p, p, State::NoHeader));
    lemma_scan_closes(events, p, p, State::NoHeader);
    assert(fresh_point(events, p));
    match scan(events, p, State::NoHeader) {
        Some((level, start, end, next)) => {
            let raw = raw_heading(m.bytes, start, end);
            let m2 = HeadersModel { pos: next, issued: m.issued.push(heading_slug(raw, m.issued)), ..m };
            lemma_records_follow_closes(m2);
            lemma_closes_from_skip(events, p, next - 1);
            assert(closes_from(events, next - 1) =~= seq![next - 1] + closes_from(events, next));
            let rs = records_from(m);
            assert(rs == seq![heading_record(level, raw, m.issued)] + records_from(m2));
            assert forall|j: int| 0 <= j < rs.len() implies #[trigger] rs[j].level == closed_level(
                events,
                closes_from(events, p)[j],
            ) as int by {
                if j > 0 {
                    assert(rs[j] == records_from(m2)[j - 1]);
                }
            }
        },
        None => {
            lemma_closes_from_skip(events, p, events.len() as int);
        },
    }
}

/// Ordering: where every heading that the parser reports fits the source, a document yields
/// exactly one record per heading close, in document order, each with the level of the
/// heading start that the close ends.
pub proof fn lemma_ordering(doc: Seq<char>)
    requires
        reports_fit(markdown_events(doc), encode_utf8(doc)),
    ensures
        document_headers(doc).len() == closes_from(markdown_events(doc), 0).len(),
        forall|j: int|
            0 <= j < document_headers(doc).len() ==> #[trigger] document_headers(doc)[j].level
                == closed_level(markdown_events(doc), closes_from(markdown_events(doc), 0)[j]) as int,
{
    lemma_records_follow_closes(
        HeadersModel { events: markdown_events(doc), bytes: encode_utf8(doc), pos: 0, issued: seq![] },
    );
}

/// The slug bases of the headings an extraction still yields, in order, read as
/// `records_from` reads them.
pub open spec fn heading_bases(m: HeadersModel) -> Seq<Seq<char>>
    decreases m.events.len() - m.pos,
{
    match scan(m.events, m.pos, State::NoHeader) {
        Some((level, start, end, next)) => {
            if span_fits(m.bytes, level, start, end) && m.pos < next <= m.events.len() {
                let raw = raw_heading(m.bytes, start, end);
                seq![slugified(raw)] + heading_bases(
                    HeadersModel {
                        pos: next,
                        issued: m.issued.push(heading_slug(raw, m.issued)),
                        ..m
                    },
                )
            } else {
                seq![]
            }
        },
        None => seq![],
    }
}

/// The slug bases of the headings of a document, in document order.
pub open spec fn document_bases(doc: Seq<char>) -> Seq<Seq<char>> {
    heading_bases(
        HeadersModel {
            events: markdown_events(doc),
            bytes: encode_utf8(doc),
            pos: 0,
            issued: seq![],
        },
    )
}

proof fn lemma_anchors_follow_slugs(m: HeadersModel, prior: Seq<Seq<char>>)
    requires
        m.issued == slug_sequence(prior),
    ensures
        heading_bases(m).len() == records_from(m).len(),
        forall|j: int|
            0 <= j < records_from(m).len() ==> #[trigger] records_from(m)[j].anchor == seq!['#']
                + slug_sequence(prior + heading_bases(m))[prior.len() + j],
    decreases m.events.len() - m.pos,
{
    match scan(m.events, m.pos, State::NoHeader) {
        Some((level, start, end, next)) => {
            if span_fits(m.bytes, level, start, end) && m.pos < next <= m.events.len() {
                let raw = raw_heading(m.bytes, start, end);
                let b0 = slugified(raw);
                let m2 = HeadersModel {
                    pos: next,
                    issued: m.issued.push(heading_slug(raw, m.issued)),
                    ..m
                };
                let extended = prior.push(b0);
                assert(extended.drop_last() =~= prior);
                assert(m2.issued == slug_sequence(extended));
                lemma_anchors_follow_slugs(m2, extended);
                let rest = heading_bases(m2);
                assert(prior + heading_bases(m) =~= extended + rest);
                lemma_slug_sequence_prefix(extended, rest);
                lemma_slug_sequence_len(extended);
                let rs = records_from(m);
                assert forall|j: int| 0 <= j < rs.len() implies #[trigger] rs[j].anchor == seq!['#']
                    + slug_sequence(prior + heading_bases(m))[prior.len() + j] by {
                    if j == 0 {
                        assert(slug_sequence(extended + rest)[prior.len() as int] == slug_sequence(
                            extended,
                        ).subrange(0, extended.len() as int)[prior.len() as int]);
                    } else {
                        assert(rs[j] == records_from(m2)[j - 1]);
                    }
                }
            }
        },
        None => {},
    }
}

/// Slug uniqueness for a document: for the slug base `b` of heading `j`, where no heading's
/// base equals `b` followed by a dash and a positive number and `b` equals no heading's base
/// followed by one, heading `j` has the anchor `#b` if it is the first with base `b`, and
/// `#b-(K-1)` if it is the K-th (K >= 2).
pub proof fn lemma_document_anchor_suffix(doc: Seq<char>, j: int)
    requires
        0 <= j < document_headers(doc).len(),
        base_stands_apart(document_bases(doc), document_bases(doc)[j]),
    ensures
        document_headers(doc)[j].anchor == seq!['#'] + counted_slug(document_bases(doc), j),
{
    let m = HeadersModel { events: markdown_events(doc), bytes: encode_utf8(doc), pos: 0, issued: seq![] };
    assert(slug_sequence(seq![]) == Seq::<Seq<char>>::empty());
    lemma_anchors_follow_slugs(m, seq![]);
    assert(Seq::<Seq<char>>::empty() + heading_bases(m) =~= heading_bases(m));
    lemma_kth_occurrence_suffix(document_bases(doc), j);
}

/// The headings of a document, read one at a time.
pub struct Headers<'a> {
    slugger: AnchorSlugger,
    events: Vec<ParseEvent>,
    pos: usize,
    buf: &'a str,
    fault: bool,
}

impl<'a> View for Headers<'a> {
    type V = HeadersModel;

    closed spec fn view(&self) -> HeadersModel {
        HeadersModel {
            events: self.events@,
            bytes: self.buf.spec_bytes(),
            pos: self.pos as int,
            issued: self.slugger@,
        }
    }
}

/// Starts reading the headings of `buf`.
pub fn headers<'a>(buf: &'a str) -> (r: Headers<'a>)
    ensures
        r@ == (HeadersModel {
            events: markdown_events(buf@),
            bytes: encode_utf8(buf@),
            pos: 0,
            issued: seq![],
        }),
        r.wf(),
        !r.faulted(),
{
    Headers { slugger: AnchorSlugger::new(), events: parse_events(buf), pos: 0, buf, fault: false }
}

proof fn lemma_boundary_in_prefix(bytes: Seq<u8>, start: int, end: int)
    requires
        valid_utf8(bytes),
        0 <= start <= end <= bytes.len(),
        is_char_boundary(bytes, start),
        is_char_boundary(bytes, end),
    ensures
        valid_utf8(bytes.subrange(0, end)),
        is_char_boundary(bytes.subrange(0, end), start),
{
    let p = bytes.subrange(0, end);
    valid_utf8_split(bytes, end);
    is_char_boundary_start_end_of_seq(p);
    if 0 < start < end {
        is_char_boundary_iff_not_is_continuation_byte(bytes, start);
        is_char_boundary_iff_not_is_continuation_byte(p, start);
    } else if start == end {
        assert(p.len() == end);
    }
}

impl<'a> Headers<'a> {
    /// The sequence ended on a parser report that does not fit the source.
    pub closed spec fn faulted(&self) -> bool {
        self.fault
    }

    /// Whether the sequence ended on a parser report that does not fit the source: a level
    /// outside 1 to 6, or a span off the source's character boundaries.
    pub fn parser_fault(&self) -> (r: bool)
        ensures
            r == self.faulted(),
    {
        self.fault
    }

    pub closed spec fn wf(&self) -> bool {
        &&& self.pos <= self.events@.len()
        &&& self.buf.spec_bytes() == encode_utf8(self.buf@)
    }

    /// The heading at the span, or `None` where the parser's report does not fit the source.
    fn record(&mut self, level: i32, start: usize, end: usize) -> (r: Option<Header>)
        requires
            old(self).wf(),
        ensures
            final(self).wf(),
            final(self).events@ == old(self).events@,
            final(self).buf == old(self).buf,
            final(self).pos == old(self).pos,
            final(self).fault == old(self).fault,
            span_fits(old(self)@.bytes, level, start as int, end as int) ==> {
                let raw = raw_heading(old(self)@.bytes, start as int, end as int);
                &&& r is Some
                &&& r->Some_0@ == heading_record(level, raw, old(self)@.issued)
                &&& final(self)@.issued == old(self)@.issued.push(heading_slug(raw, old(self)@.issued))
            },
            !span_fits(old(self)@.bytes, level, start as int, end as int) ==> r is None
                && final(self)@.issued == old(self)@.issued,
            r matches Some(h) ==> final(self)@.issued == old(self)@.issued.push(h@.anchor.drop_first()),
    {
        let len = self.buf.as_bytes().len();
        if !(1 <= level && level <= 6) || !(start <= end && end <= len)
            || !self.buf.is_char_boundary(start) || !self.buf.is_char_boundary(end) {
            return None;
        }
        let ghost bytes = self.buf.spec_bytes();
        proof {
            encode_utf8_valid_utf8(self.buf@);
            lemma_boundary_in_prefix(bytes, start as int, end as int);
        }
        let (head, _) = self.buf.split_at(end);
        let (_, raw) = head.split_at(start);
        proof {
            assert(raw.spec_bytes() =~= bytes.subrange(start as int, end as int));
            encode_utf8_decode_utf8(raw@);
        }
        let mut cs = chars_of(raw);
        if cs.len() > 0 && cs[cs.len() - 1] == '\n' {
            cs.pop();
        }
        if cs.len() > 0 && cs[cs.len() - 1] == '\r' {
            cs.pop();
        }
        let text = string_of(&cs);
        assert(text@ =~= raw_heading(bytes, start as int, end as int));
        let title = titleize(text.as_str());
        let slug = self.slugger.slug(text.as_str());
        let mut anchor = String::new();
        push_char(&mut anchor, '#');
        anchor.append(slug.as_str());
        assert(anchor@ =~= seq!['#'] + slug@);
        assert(anchor@.drop_first() =~= slug@);
        Some(Header::new(level as usize, title, anchor))
    }

    /// The next heading of the document, or `None` at the end of the document or where the
    /// parser's report does not fit the source.
    pub fn next(&mut self) -> (r: Option<Header>)
        requires
            old(self).wf(),
        ensures
            final(self).wf(),
            final(self)@.events == old(self)@.events,
            final(self)@.bytes == old(self)@.bytes,
            final(self)@.pos <= final(self)@.events.len(),
            records_from(old(self)@) == match r {
                Some(h) => seq![h@] + records_from(final(self)@),
                None => Seq::<HeaderModel>::empty(),
            },
            r is Some ==> old(self)@.pos < final(self)@.pos,
            r matches Some(h) ==> final(self)@.issued == old(self)@.issued.push(h@.anchor.drop_first()),
            final(self).faulted() == (old(self).faulted() || (r is None && report_fault(old(self)@))),
    {
        let ghost m0 = self@;
        let mut state = State::NoHeader;
        while self.pos < self.events.len()
            invariant
                m0 == old(self)@,
                self.fault == old(self).fault,
                self.wf(),
                self@.events == m0.events,
                self@.bytes == m0.bytes,
                self@.issued == m0.issued,
                m0.pos <= self@.pos,
                scan(m0.events, m0.pos, State::NoHeader) == scan(self@.events, self@.pos, state),
                state is FoundHeader ==> state->FoundHeader_1 <= usize::MAX,
            decreases self.events@.len() - self.pos,
        {
            let i = self.pos;
            self.pos = self.pos + 1;
            let event = &self.events[i];
            let (opens, opened_level) = match &event.kind {
                EventKind::HeadingStart(level) => (true, *level),
                _ => (false, 0),
            };
            let closes = match &event.kind {
                EventKind::HeadingEnd => true,
                _ => false,
            };
            let (event_start, event_end) = (event.start, event.end);
            if opens {
                state = State::FoundHeader(opened_level, event_end);
            } else if closes && state.processing_header() {
                let (level, start, end) = match state {
                    State::FoundHeader(level, end) => (level, end, end),
                    State::FoundRange(level, start, end) => (level, start, end),
                    State::NoHeader => (0, 0, 0),
                };
                let r = self.record(level, start, end);
                if r.is_none() {
                    self.pos = self.events.len();
                    self.fault = true;
                }
                return r;
            } else if state.found_header() {
                if let State::FoundHeader(level, end) = state {
                    state = State::FoundRange(level, event_start, end);
                }
            }
        }
        None
    }

    /// Every heading that is still to come, in order.
    pub fn into_vec(self) -> (r: Vec<Header>)
        requires
            self.wf(),
        ensures
            models(r@) == records_from(self@),
    {
        let ghost m0 = self@;
        let mut it = self;
        let mut r: Vec<Header> = Vec::new();
        loop
            invariant
                m0 == self@,
                it.wf(),
                models(r@) + records_from(it@) == records_from(m0),
            decreases it@.events.len() - it@.pos,
        {
            let ghost before = it@;
            match it.next() {
                Some(h) => {
                    let ghost before = models(r@);
                    r.push(h);
                    assert(models(r@) =~= before.push(h@));
                },
                None => {
                    assert(models(r@) =~= models(r@) + records_from(before));
                    return r;
                },
            }
        }
    }
}

} // verus!
