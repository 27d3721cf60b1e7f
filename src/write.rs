use crate::format::{append_bytes, toc_text, Format, Formatter};
use crate::header::{
    document_headers, headers, models, promoted_level, records_from, Header, HeaderModel,
};
use crate::parse::{markdown_events, parse_events, EventKind, ParseEvent};
use vstd::prelude::*;
use vstd::slice::slice_subrange;
use vstd::string::*;
use vstd::utf8::*;

verus! {

pub const DEFAULT_BEGIN_MARKER: &'static str = "<!-- toc -->";

pub const DEFAULT_END_MARKER: &'static str = "<!-- tocstop -->";

/// `needle` stands in `hay` at offset `i`.
pub open spec fn occurs_at(hay: Seq<u8>, needle: Seq<u8>, i: int) -> bool {
    0 <= i && i + needle.len() <= hay.len() && hay.subrange(i, i + needle.len()) == needle
}

/// The offset of the first occurrence of `needle` in `hay`.
pub open spec fn first_occurrence(hay: Seq<u8>, needle: Seq<u8>) -> Option<int> {
    if exists|i: int| occurs_at(hay, needle, i) {
        Some(
            choose|i: int|
                occurs_at(hay, needle, i) && forall|j: int| 0 <= j < i ==> !occurs_at(hay, needle, j),
        )
    } else {
        None
    }
}

/// The first raw HTML event at or after `from` whose text holds `marker`: its index, and
/// the marker's offset in the source, taken as the event's start plus the marker's offset
/// in the event's text.
pub open spec fn find_marker(events: Seq<ParseEvent>, from: int, marker: Seq<u8>) -> Option<(int, int)>
    decreases events.len() - from,
{
    if from < 0 || from >= events.len() {
        None
    } else {
        match events[from].kind {
            EventKind::Html(text) => match first_occurrence(encode_utf8(text@), marker) {
                Some(k) => Some((from, events[from].start + k)),
                None => find_marker(events, from + 1, marker),
            },
            _ => find_marker(events, from + 1, marker),
        }
    }
}

/// The length of the line ending (`\r\n` or `\n`) at offset `p` of `src`, or 0.
pub open spec fn line_end_len(src: Seq<u8>, p: int) -> int {
    if 0 <= p && p + 2 <= src.len() && src[p] == 13u8 && src[p + 1] == 10u8 {
        2
    } else if 0 <= p && p + 1 <= src.len() && src[p] == 10u8 {
        1
    } else {
        0
    }
}

/// The begin marker as the writer takes it: the index of the event after the one that
/// holds it, and the offset behind the line ending that must follow it.
pub open spec fn begin_cut(src: Seq<u8>, events: Seq<ParseEvent>, marker: Seq<u8>) -> Option<(int, int)> {
    match find_marker(events, 0, marker) {
        Some((k, idx)) => {
            let p = idx + marker.len();
            if line_end_len(src, p) > 0 {
                Some((k + 1, p + line_end_len(src, p)))
            } else {
                None
            }
        },
        None => None,
    }
}

/// The end marker as the writer takes it, searched from event `from`: its offset, where a
/// line ending follows it.
pub open spec fn end_cut(src: Seq<u8>, events: Seq<ParseEvent>, from: int, marker: Seq<u8>) -> Option<int> {
    match find_marker(events, from, marker) {
        Some((k, idx)) => {
            if line_end_len(src, idx + marker.len()) > 0 {
                Some(idx)
            } else {
                None
            }
        },
        None => None,
    }
}

/// The source with the table spliced in behind the begin cut: the source up to the cut, a
/// blank line, the table, a blank line, then the source from the end marker on, or, with no
/// end marker, the end marker on a line of its own and the source from the cut on. Without
/// a begin cut, the source itself.
pub open spec fn spliced(
    src: Seq<u8>,
    begin: Option<int>,
    end: Option<int>,
    end_marker: Seq<u8>,
    toc: Seq<u8>,
) -> Seq<u8> {
    match begin {
        None => src,
        Some(b) => src.subrange(0, b) + seq![10u8] + toc + seq![10u8] + match end {
            Some(e) => src.subrange(e, src.len() as int),
            None => end_marker + seq![10u8] + src.subrange(b, src.len() as int),
        },
    }
}

/// The end cut of a document, searched after the begin marker's event.
pub open spec fn end_cut_after(src: Seq<u8>, events: Seq<ParseEvent>, begin: Seq<u8>, end: Seq<u8>) -> Option<int> {
    match begin_cut(src, events, begin) {
        Some((k, _)) => end_cut(src, events, k, end),
        None => None,
    }
}

/// What the writer puts out for a document, its markers and a rendered table.
pub open spec fn written(doc: Seq<char>, begin: Seq<char>, end: Seq<char>, toc: Seq<u8>) -> Seq<u8> {
    let src = encode_utf8(doc);
    let events = markdown_events(doc);
    let b = begin_cut(src, events, encode_utf8(begin));
    spliced(
        src,
        match b {
            Some((_, c)) => Some(c),
            None => None,
        },
        end_cut_after(src, events, encode_utf8(begin), encode_utf8(end)),
        encode_utf8(end),
        toc,
    )
}

/// The headings listed by default: all but those of level 1, each promoted one level.
pub open spec fn default_selection(hs: Seq<HeaderModel>) -> Seq<HeaderModel>
    decreases hs.len(),
{
    if hs.len() == 0 {
        seq![]
    } else {
        let h = hs.last();
        default_selection(hs.drop_last()) + if h.level > 1 {
            seq![HeaderModel { level: promoted_level(h.level), ..h }]
        } else {
            seq![]
        }
    }
}


proof fn lemma_least_occurrence(hay: Seq<u8>, needle: Seq<u8>, i: int)
    requires
        occurs_at(hay, needle, i),
    ensures
        exists|c: int| occurs_at(hay, needle, c) && forall|j: int| 0 <= j < c ==> !occurs_at(hay, needle, j),
    decreases i,
{
    if exists|j: int| 0 <= j < i && occurs_at(hay, needle, j) {
        let j = choose|j: int| 0 <= j < i && occurs_at(hay, needle, j);
        lemma_least_occurrence(hay, needle, j);
    } else {
        assert(forall|j: int| 0 <= j < i ==> !occurs_at(hay, needle, j));
    }
}

/// The first occurrence, where there is one, is an occurrence.
pub proof fn lemma_first_occurrence(hay: Seq<u8>, needle: Seq<u8>)
    ensures
        first_occurrence(hay, needle) matches Some(c) ==> occurs_at(hay, needle, c),
{
    if exists|i: int| occurs_at(hay, needle, i) {
        let i = choose|i: int| occurs_at(hay, needle, i);
        lemma_least_occurrence(hay, needle, i);
    }
}

proof fn lemma_find_marker_bounds(events: Seq<ParseEvent>, from: int, marker: Seq<u8>)
    requires
        0 <= from,
    ensures
        find_marker(events, from, marker) matches Some((k, idx)) ==> from <= k < events.len() && 0 <= idx,
    decreases events.len() - from,
{
    if from < events.len() {
        lemma_find_marker_bounds(events, from + 1, marker);
        if let EventKind::Html(text) = events[from].kind {
            lemma_first_occurrence(encode_utf8(text@), marker);
        }
    }
}

/// Locality: without a begin marker the document comes out unchanged. With one, the output
/// begins with the document up to the line end behind the begin marker, and ends with the
/// document from the end marker on, or, where no end marker was found, from that line end on.
pub proof fn lemma_locality(doc: Seq<char>, begin: Seq<char>, end: Seq<char>, toc: Seq<u8>)
    ensures
        ({
            let src = encode_utf8(doc);
            let events = markdown_events(doc);
            let out = written(doc, begin, end, toc);
            match begin_cut(src, events, encode_utf8(begin)) {
                None => out == src,
                Some((_, b)) => {
                    &&& 0 <= b <= src.len()
                    &&& out.subrange(0, b) == src.subrange(0, b)
                    &&& match end_cut_after(src, events, encode_utf8(begin), encode_utf8(end)) {
                        Some(e) => 0 <= e <= src.len() && out.subrange(
                            out.len() - (src.len() - e),
                            out.len() as int,
                        ) == src.subrange(e, src.len() as int),
                        None => out.subrange(out.len() - (src.len() - b), out.len() as int)
                            == src.subrange(b, src.len() as int),
                    }
                },
            }
        }),
{
    let src = encode_utf8(doc);
    let events = markdown_events(doc);
    let bm = encode_utf8(begin);
    let em = encode_utf8(end);
    let out = written(doc, begin, end, toc);
    lemma_find_marker_bounds(events, 0, bm);
    if let Some((k, b)) = begin_cut(src, events, bm) {
        lemma_find_marker_bounds(events, k, em);
        let head = src.subrange(0, b) + seq![10u8] + toc + seq![10u8];
        match end_cut(src, events, k, em) {
            Some(e) => {
                assert(out == head + src.subrange(e, src.len() as int));
                assert(out.subrange(0, b) =~= src.subrange(0, b));
                assert(out.subrange(out.len() - (src.len() - e), out.len() as int) =~= src.subrange(
                    e,
                    src.len() as int,
                ));
            },
            None => {
                let tail = em + seq![10u8] + src.subrange(b, src.len() as int);
                assert(out == head + tail);
                assert(out.subrange(0, b) =~= src.subrange(0, b));
                assert(out.subrange(out.len() - (src.len() - b), out.len() as int) =~= src.subrange(
                    b,
                    src.len() as int,
                ));
            },
        }
    }
}

/// Idempotence: a second run over the output that finds the begin marker's line end at the
/// same offset and the end marker right behind the table written there, and that renders
/// the same table, reproduces the output byte for byte.
pub proof fn lemma_splice_idempotent(
    src: Seq<u8>,
    b: int,
    e: Option<int>,
    end_marker: Seq<u8>,
    toc: Seq<u8>,
)
    requires
        0 <= b <= src.len(),
        e matches Some(x) ==> 0 <= x <= src.len(),
    ensures
        ({
            let out = spliced(src, Some(b), e, end_marker, toc);
            spliced(out, Some(b), Some(b + toc.len() + 2), end_marker, toc) == out
        }),
{
    let out = spliced(src, Some(b), e, end_marker, toc);
    let head = src.subrange(0, b) + seq![10u8] + toc + seq![10u8];
    let tail = match e {
        Some(x) => src.subrange(x, src.len() as int),
        None => end_marker + seq![10u8] + src.subrange(b, src.len() as int),
    };
    assert(out == head + tail);
    assert(out.subrange(0, b) =~= src.subrange(0, b));
    assert(out.subrange(b + toc.len() + 2, out.len() as int) =~= tail);
    assert(spliced(out, Some(b), Some(b + toc.len() + 2), end_marker, toc) =~= out);
}


/// Idempotence of the writer: run again on its own output `again`, with the same markers and
/// the same rendered table, the writer reproduces that output byte for byte, provided that
/// the parse of the output finds the begin marker's line end where it was and the end
/// marker right behind the table. Without a begin marker the document passes through as it
/// is, so a second run sees the same document.
pub proof fn lemma_rewrite_idempotent(
    doc: Seq<char>,
    again: Seq<char>,
    begin: Seq<char>,
    end: Seq<char>,
    toc: Seq<u8>,
)
    requires
        encode_utf8(again) == written(doc, begin, end, toc),
        begin_cut(encode_utf8(doc), markdown_events(doc), encode_utf8(begin)) matches Some((_, b))
            ==> {
            &&& begin_cut(encode_utf8(again), markdown_events(again), encode_utf8(begin)) matches Some(
                (_, b2),
            ) && b2 == b
            &&& end_cut_after(
                encode_utf8(again),
                markdown_events(again),
                encode_utf8(begin),
                encode_utf8(end),
            ) == Some(b + toc.len() + 2)
        },
    ensures
        written(again, begin, end, toc) == encode_utf8(again),
{
    let src = encode_utf8(doc);
    let events = markdown_events(doc);
    lemma_locality(doc, begin, end, toc);
    lemma_find_marker_bounds(events, 0, encode_utf8(begin));
    match begin_cut(src, events, encode_utf8(begin)) {
        Some((k, b)) => {
            lemma_find_marker_bounds(events, k, encode_utf8(end));
            lemma_splice_idempotent(
                src,
                b,
                end_cut_after(src, events, encode_utf8(begin), encode_utf8(end)),
                encode_utf8(end),
                toc,
            );
        },
        None => {
            encode_utf8_decode_utf8(doc);
            encode_utf8_decode_utf8(again);
        },
    }
}

fn occurs_here(hay: &[u8], needle: &[u8], i: usize) -> (r: bool)
    requires
        i + needle@.len() <= hay@.len(),
    ensures
        r == occurs_at(hay@, needle@, i as int),
{
    let n = hay.len();
    let mut j: usize = 0;
    while j < needle.len()
        invariant
            n == hay@.len(),
            i + needle@.len() <= hay@.len(),
            j <= needle@.len(),
            forall|t: int| 0 <= t < j ==> hay@[i + t] == needle@[t],
        decreases needle@.len() - j,
    {
        if hay[i + j] != needle[j] {
            assert(hay@.subrange(i as int, i + needle@.len())[j as int] != needle@[j as int]);
            return false;
        }
        j += 1;
    }
    assert(hay@.subrange(i as int, i + needle@.len()) =~= needle@);
    true
}

/// The offset of the first occurrence of `needle` in `hay`.
pub fn find_bytes(hay: &[u8], needle: &[u8]) -> (r: Option<usize>)
    ensures
        match r {
            Some(i) => first_occurrence(hay@, needle@) == Some(i as int),
            None => first_occurrence(hay@, needle@) is None,
        },
{
    if needle.len() > hay.len() {
        assert(forall|i: int| !occurs_at(hay@, needle@, i));
        return None;
    }
    let last = hay.len() - needle.len();
    let mut i: usize = 0;
    loop
        invariant
            last == hay@.len() - needle@.len(),
            i <= last,
            forall|j: int| 0 <= j < i ==> !occurs_at(hay@, needle@, j),
        decreases last - i,
    {
        if occurs_here(hay, needle, i) {
            proof {
                let c = choose|c: int|
                    occurs_at(hay@, needle@, c) && forall|j: int|
                        0 <= j < c ==> !occurs_at(hay@, needle@, j);
                if c < i {
                } else if c > i {
                    assert(!occurs_at(hay@, needle@, i as int));
                }
            }
            return Some(i);
        }
        if i == last {
            assert forall|j: int| !occurs_at(hay@, needle@, j) by {
                if 0 <= j && j < i {
                }
            }
            return None;
        }
        i += 1;
    }
}

/// Scans events from `*pos` for the first raw HTML event that holds `marker`, and leaves
/// `*pos` behind it. Gives the event's start and the marker's offset in its text.
fn find_marker_from(events: &Vec<ParseEvent>, pos: &mut usize, marker: &[u8]) -> (r: Option<(usize, usize)>)
    requires
        *old(pos) <= events@.len(),
    ensures
        *final(pos) <= events@.len(),
        match find_marker(events@, *old(pos) as int, marker@) {
            Some((k, idx)) => r is Some && *final(pos) == k + 1 && r->Some_0.0 + r->Some_0.1 == idx,
            None => r is None,
        },
{
    while *pos < events.len()
        invariant
            *pos <= events@.len(),
            find_marker(events@, *old(pos) as int, marker@) == find_marker(events@, *pos as int, marker@),
        decreases events@.len() - *pos,
    {
        let i = *pos;
        *pos = i + 1;
        let event = &events[i];
        match &event.kind {
            EventKind::Html(text) => {
                match find_bytes(text.as_str().as_bytes(), marker) {
                    Some(k) => {
                        return Some((event.start, k));
                    },
                    None => {},
                }
            },
            _ => {},
        }
    }
    None
}

/// The length of the line ending at offset `start + k + len` of `src`, or 0.
fn line_end_at(src: &[u8], start: usize, k: usize, len: usize) -> (r: usize)
    ensures
        r == line_end_len(src@, start + k + len),
        r > 0 ==> start + k + len + r <= src@.len(),
        src@.len() <= usize::MAX,
{
    let n = src.len();
    if start > n || k > n - start || len > n - start - k {
        return 0;
    }
    let p = start + k + len;
    if p < n && n - p >= 2 && src[p] == 13u8 && src[p + 1] == 10u8 {
        2
    } else if p < n && src[p] == 10u8 {
        1
    } else {
        0
    }
}

/// The offset behind the begin marker's line ending, with `*pos` left behind the event
/// that holds the marker.
fn begin_marker_eol_idx(src: &[u8], marker: &[u8], events: &Vec<ParseEvent>, pos: &mut usize) -> (r: Option<usize>)
    requires
        *old(pos) == 0,
    ensures
        match begin_cut(src@, events@, marker@) {
            Some((k, c)) => r == Some(c as usize) && *final(pos) == k && 0 <= c <= src@.len(),
            None => r is None,
        },
        find_marker(events@, 0, marker@) matches Some((k, _)) ==> *final(pos) == k + 1,
        *final(pos) <= events@.len(),
{
    match find_marker_from(events, pos, marker) {
        Some((start, k)) => {
            let eol = line_end_at(src, start, k, marker.len());
            if eol == 0 {
                None
            } else {
                Some(start + k + marker.len() + eol)
            }
        },
        None => None,
    }
}

/// The offset of the end marker, searched from event `*pos` on.
fn end_marker_sol_idx(src: &[u8], marker: &[u8], events: &Vec<ParseEvent>, pos: &mut usize) -> (r: Option<usize>)
    requires
        *old(pos) <= events@.len(),
    ensures
        match end_cut(src@, events@, *old(pos) as int, marker@) {
            Some(e) => r == Some(e as usize) && 0 <= e <= src@.len(),
            None => r is None,
        },
{
    match find_marker_from(events, pos, marker) {
        Some((start, k)) => {
            let eol = line_end_at(src, start, k, marker.len());
            if eol == 0 {
                None
            } else {
                Some(start + k)
            }
        },
        None => None,
    }
}

/// The default selection of the headings of `src`.
fn default_headers(src: &str) -> (r: Vec<Header>)
    ensures
        models(r@) == default_selection(document_headers(src@)),
{
    let mut it = headers(src);
    let ghost m0 = it@;
    let ghost mut seen: Seq<HeaderModel> = seq![];
    let mut r: Vec<Header> = Vec::new();
    loop
        invariant
            it.wf(),
            records_from(m0) == document_headers(src@),
            seen + records_from(it@) == records_from(m0),
            models(r@) == default_selection(seen),
        decreases it@.events.len() - it@.pos,
    {
        let ghost before = it@;
        match it.next() {
            Some(h) => {
                proof {
                    assert(seen.push(h@).drop_last() =~= seen);
                    assert(seen.push(h@) + records_from(it@) =~= seen + records_from(before));
                }
                let ghost prev = models(r@);
                if h.level() > 1 {
                    let p = h.promote();
                    r.push(p);
                    assert(models(r@) =~= prev.push(p@));
                }
                proof {
                    seen = seen.push(h@);
                }
                assert(models(r@) =~= default_selection(seen));
            },
            None => {
                assert(seen =~= seen + records_from(before));
                return r;
            },
        }
    }
}

/// The document and its two markers.
pub ghost struct SetupModel {
    pub src: Seq<char>,
    pub begin: Seq<char>,
    pub end: Seq<char>,
}

/// Configures a writer of a table of contents into `src`, with the default markers.
pub struct WriterBuilder<'a, 'c, 'd> {
    src: &'a str,
    begin_marker: &'c str,
    end_marker: &'d str,
}

/// A writer with a formatter of its own.
pub struct WriterFormatBuilder<'a, 'c, 'd, F: Format> {
    src: &'a str,
    formatter: F,
    begin_marker: &'c str,
    end_marker: &'d str,
}

/// A writer with a formatter and the headings to list.
pub struct Writer<'a, 'c, 'd, F: Format> {
    src: &'a str,
    formatter: F,
    headers: Vec<Header>,
    begin_marker: &'c str,
    end_marker: &'d str,
}

impl<'a, 'c, 'd> View for WriterBuilder<'a, 'c, 'd> {
    type V = SetupModel;

    closed spec fn view(&self) -> SetupModel {
        SetupModel { src: self.src@, begin: self.begin_marker@, end: self.end_marker@ }
    }
}

impl<'a, 'c, 'd, F: Format> View for WriterFormatBuilder<'a, 'c, 'd, F> {
    type V = SetupModel;

    closed spec fn view(&self) -> SetupModel {
        SetupModel { src: self.src@, begin: self.begin_marker@, end: self.end_marker@ }
    }
}

impl<'a, 'c, 'd, F: Format> View for Writer<'a, 'c, 'd, F> {
    type V = SetupModel;

    closed spec fn view(&self) -> SetupModel {
        SetupModel { src: self.src@, begin: self.begin_marker@, end: self.end_marker@ }
    }
}

/// Writes `src` to `out` with the rendered table `toc` spliced in after the first begin
/// marker that ends its line, replacing what stands before the end marker that follows it.
pub fn write_toc(out: &mut Vec<u8>, src: &str, begin_marker: &str, end_marker: &str, toc: &[u8])
    ensures
        final(out)@ == old(out)@ + written(src@, begin_marker@, end_marker@, toc@),
{
    let ghost start = out@;
    let bytes = src.as_bytes();
    let begin = begin_marker.as_bytes();
    let end = end_marker.as_bytes();
    let events = parse_events(src);
    let mut pos: usize = 0;
    let ghost b_cut = begin_cut(bytes@, events@, begin@);
    let ghost e_cut = end_cut_after(bytes@, events@, begin@, end@);
    assert(written(src@, begin_marker@, end_marker@, toc@) == spliced(
        bytes@,
        match b_cut {
            Some((_, c)) => Some(c),
            None => None,
        },
        e_cut,
        end@,
        toc@,
    ));
    match begin_marker_eol_idx(bytes, begin, &events, &mut pos) {
        Some(b) => {
            append_bytes(out, slice_subrange(bytes, 0, b));
            out.push(10u8);
            append_bytes(out, toc);
            out.push(10u8);
            let ghost head = bytes@.subrange(0, b as int) + seq![10u8] + toc@ + seq![10u8];
            assert(out@ =~= start + head);
            let ghost mid = out@;
            match end_marker_sol_idx(bytes, end, &events, &mut pos) {
                Some(e) => {
                    append_bytes(out, slice_subrange(bytes, e, bytes.len()));
                    assert(out@ =~= mid + bytes@.subrange(e as int, bytes@.len() as int));
                },
                None => {
                    append_bytes(out, end);
                    out.push(10u8);
                    append_bytes(out, slice_subrange(bytes, b, bytes.len()));
                    assert(out@ =~= mid + (end@ + seq![10u8] + bytes@.subrange(
                        b as int,
                        bytes@.len() as int,
                    )));
                },
            }
        },
        None => {
            append_bytes(out, bytes);
        },
    }
}

impl<'a, 'c, 'd> WriterBuilder<'a, 'c, 'd> {
    pub fn new(src: &'a str) -> (r: Self)
        ensures
            r@ == (SetupModel { src: src@, begin: DEFAULT_BEGIN_MARKER@, end: DEFAULT_END_MARKER@ }),
    {
        WriterBuilder { src, begin_marker: DEFAULT_BEGIN_MARKER, end_marker: DEFAULT_END_MARKER }
    }

    pub fn formatter<F: Format>(self, formatter: F) -> (r: WriterFormatBuilder<'a, 'c, 'd, F>)
        ensures
            r@ == self@,
            r.spec_formatter() == formatter,
    {
        WriterFormatBuilder {
            src: self.src,
            begin_marker: self.begin_marker,
            end_marker: self.end_marker,
            formatter,
        }
    }

    /// Lists `headers` with the default formatter.
    pub fn headers<'b>(self, headers: Vec<Header>) -> (r: Writer<'a, 'c, 'd, Formatter<'b>>)
        ensures
            r@ == self@,
            r.spec_formatter() is AlternatingBullets,
            r.spec_headers() == models(headers@),
    {
        self.formatter(Formatter::default()).headers(headers)
    }

    pub fn begin_marker(self, begin_marker: &'c str) -> (r: Self)
        ensures
            r@ == (SetupModel { begin: begin_marker@, ..self@ }),
    {
        WriterBuilder { begin_marker, ..self }
    }

    pub fn end_marker(self, end_marker: &'d str) -> (r: Self)
        ensures
            r@ == (SetupModel { end: end_marker@, ..self@ }),
    {
        WriterBuilder { end_marker, ..self }
    }

    /// Writes the document with a table of its headings, all but level 1, each promoted one
    /// level, in the default format.
    pub fn write<'b>(self, out: &mut Vec<u8>) -> (r: WriterFormatBuilder<'a, 'c, 'd, Formatter<'b>>)
        ensures
            final(out)@ == old(out)@ + written(
                self@.src,
                self@.begin,
                self@.end,
                encode_utf8(
                    toc_text(Formatter::AlternatingBullets, default_selection(document_headers(self@.src))),
                ),
            ),
            r@ == self@,
            r.spec_formatter() is AlternatingBullets,
    {
        self.formatter(Formatter::default()).write(out)
    }
}

impl<'a, 'c, 'd, F: Format> WriterFormatBuilder<'a, 'c, 'd, F> {
    pub closed spec fn spec_formatter(&self) -> F {
        self.formatter
    }

    pub fn formatter<G: Format>(self, formatter: G) -> (r: WriterFormatBuilder<'a, 'c, 'd, G>)
        ensures
            r@ == self@,
            r.spec_formatter() == formatter,
    {
        WriterFormatBuilder {
            src: self.src,
            begin_marker: self.begin_marker,
            end_marker: self.end_marker,
            formatter,
        }
    }

    pub fn headers(self, headers: Vec<Header>) -> (r: Writer<'a, 'c, 'd, F>)
        ensures
            r@ == self@,
            r.spec_formatter() == self.spec_formatter(),
            r.spec_headers() == models(headers@),
    {
        Writer {
            src: self.src,
            formatter: self.formatter,
            begin_marker: self.begin_marker,
            end_marker: self.end_marker,
            headers,
        }
    }

    pub fn begin_marker(self, begin_marker: &'c str) -> (r: Self)
        ensures
            r@ == (SetupModel { begin: begin_marker@, ..self@ }),
            r.spec_formatter() == self.spec_formatter(),
    {
        WriterFormatBuilder { begin_marker, ..self }
    }

    pub fn end_marker(self, end_marker: &'d str) -> (r: Self)
        ensures
            r@ == (SetupModel { end: end_marker@, ..self@ }),
            r.spec_formatter() == self.spec_formatter(),
    {
        WriterFormatBuilder { end_marker, ..self }
    }

    /// Writes the document with a table of its headings, all but level 1, each promoted one
    /// level, in this builder's format.
    pub fn write(self, out: &mut Vec<u8>) -> (r: Self)
        ensures
            final(out)@ == old(out)@ + written(
                self@.src,
                self@.begin,
                self@.end,
                self.spec_formatter().toc(default_selection(document_headers(self@.src))),
            ),
            r@ == self@,
            r.spec_formatter() == self.spec_formatter(),
    {
        let headers = default_headers(self.src);
        self.headers(headers).write(out)
    }
}

impl<'a, 'c, 'd, F: Format> Writer<'a, 'c, 'd, F> {
    pub closed spec fn spec_formatter(&self) -> F {
        self.formatter
    }

    pub closed spec fn spec_headers(&self) -> Seq<HeaderModel> {
        models(self.headers@)
    }

    pub fn headers(self, headers: Vec<Header>) -> (r: Self)
        ensures
            r@ == self@,
            r.spec_formatter() == self.spec_formatter(),
            r.spec_headers() == models(headers@),
    {
        Writer { headers, ..self }
    }

    pub fn formatter<G: Format>(self, formatter: G) -> (r: Writer<'a, 'c, 'd, G>)
        ensures
            r@ == self@,
            r.spec_formatter() == formatter,
            r.spec_headers() == self.spec_headers(),
    {
        Writer {
            src: self.src,
            headers: self.headers,
            begin_marker: self.begin_marker,
            end_marker: self.end_marker,
            formatter,
        }
    }

    pub fn begin_marker(self, begin_marker: &'c str) -> (r: Self)
        ensures
            r@ == (SetupModel { begin: begin_marker@, ..self@ }),
            r.spec_formatter() == self.spec_formatter(),
            r.spec_headers() == self.spec_headers(),
    {
        Writer { begin_marker, ..self }
    }

    pub fn end_marker(self, end_marker: &'d str) -> (r: Self)
        ensures
            r@ == (SetupModel { end: end_marker@, ..self@ }),
            r.spec_formatter() == self.spec_formatter(),
            r.spec_headers() == self.spec_headers(),
    {
        Writer { end_marker, ..self }
    }

    /// Writes the document to `out` with the table of this writer's headings spliced in
    /// after the first begin marker, replacing what stood before the end marker.
    pub fn write(self, out: &mut Vec<u8>) -> (r: WriterFormatBuilder<'a, 'c, 'd, F>)
        ensures
            final(out)@ == old(out)@ + written(
                self@.src,
                self@.begin,
                self@.end,
                self.spec_formatter().toc(self.spec_headers()),
            ),
            r@ == self@,
            r.spec_formatter() == self.spec_formatter(),
    {
        let Writer { src, formatter, headers, begin_marker, end_marker } = self;
        let mut toc: Vec<u8> = Vec::new();
        formatter.fmt(&mut toc, headers);
        write_toc(out, src, begin_marker, end_marker, toc.as_slice());
        WriterFormatBuilder { src, formatter, begin_marker, end_marker }
    }
}

} // verus!
