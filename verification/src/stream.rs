//! The output of a running program: committed lines and progress updates.

use vstd::prelude::*;

use crate::bytes::{faithful, lossy, read_text};
use crate::text::{law_trimmed_end, trim_end, trimmed_end, white};

verus! {

/// Something that a stream shows.
pub enum StreamEvent {
    /// A line that stays.
    Line(String),
    /// A line that the next one takes the place of.
    Progress(String),
}

/// The view of a stream event.
pub enum EventView {
    Line(Seq<char>),
    Progress(Seq<char>),
}

impl View for StreamEvent {
    type V = EventView;

    open spec fn view(&self) -> EventView {
        match *self {
            StreamEvent::Line(s) => EventView::Line(s@),
            StreamEvent::Progress(s) => EventView::Progress(s@),
        }
    }
}

/// The views of a list of events.
pub open spec fn event_views(list: Seq<StreamEvent>) -> Seq<EventView> {
    list.map_values(|e: StreamEvent| e@)
}

/// The byte that commits a line.
pub const NEWLINE: u8 = 10;

/// The byte that ends a progress update.
pub const RETURN: u8 = 13;

/// What ends a segment of a stream.
pub open spec fn ends_segment(b: u8) -> bool {
    b == NEWLINE || b == RETURN
}

/// What a segment with this text shows: nothing if only white space is in it.
pub open spec fn shown(text: Seq<char>, progress: bool) -> Seq<EventView> {
    let said = trimmed_end(text);
    if said.len() == 0 {
        seq![]
    } else if progress {
        seq![EventView::Progress(said)]
    } else {
        seq![EventView::Line(said)]
    }
}

/// The segment that is open after `bytes`, where `open` was open before them.
pub open spec fn open_after(open: Seq<u8>, bytes: Seq<u8>) -> Seq<u8>
    decreases bytes.len(),
{
    if bytes.len() == 0 {
        open
    } else if ends_segment(bytes.last()) {
        seq![]
    } else {
        open_after(open, bytes.drop_last()).push(bytes.last())
    }
}

/// What the segments that end in `bytes` show, where `open` was open before them:
/// a newline commits a line, a carriage return updates progress.
pub open spec fn ended_in(open: Seq<u8>, bytes: Seq<u8>) -> Seq<EventView>
    decreases bytes.len(),
{
    if bytes.len() == 0 {
        seq![]
    } else {
        let before = bytes.drop_last();
        if ends_segment(bytes.last()) {
            ended_in(open, before) + shown(
                lossy(open_after(open, before)),
                bytes.last() == RETURN,
            )
        } else {
            ended_in(open, before)
        }
    }
}

/// What a whole stream shows. A segment that is open at its end is a line.
pub open spec fn stream_events(bytes: Seq<u8>) -> Seq<EventView> {
    ended_in(seq![], bytes) + shown(lossy(open_after(seq![], bytes)), false)
}

/// What a segment with this text shows.
pub fn segment_event(text: &str, progress: bool) -> (r: Option<StreamEvent>)
    ensures
        match r {
            Some(e) => shown(text@, progress) == seq![e@],
            None => shown(text@, progress) == Seq::<EventView>::empty(),
        },
{
    let said = trim_end(text);
    if said.is_empty() {
        None
    } else if progress {
        Some(StreamEvent::Progress(said.to_string()))
    } else {
        Some(StreamEvent::Line(said.to_string()))
    }
}

/// Bytes among which no segment ends.
pub open spec fn unended(bytes: Seq<u8>) -> bool {
    forall|i: int| 0 <= i < bytes.len() ==> !ends_segment(#[trigger] bytes[i])
}

impl EventView {
    /// The text of the event.
    pub open spec fn said(self) -> Seq<char> {
        match self {
            EventView::Line(s) => s,
            EventView::Progress(s) => s,
        }
    }
}

/// An event worth showing: it says something, and does not end in white space.
pub open spec fn says_something(e: EventView) -> bool {
    e.said().len() > 0 && trimmed_end(e.said()) == e.said()
}

/// An event on a single line: its text holds no newline and no carriage return.
pub open spec fn on_one_line(e: EventView) -> bool {
    !e.said().contains('\n') && !e.said().contains('\r')
}

/// Every event of a list says something, on a single line.
pub open spec fn tidy(events: Seq<EventView>) -> bool {
    forall|i: int|
        0 <= i < events.len() ==> says_something(#[trigger] events[i]) && on_one_line(events[i])
}

/// The segments that end in `bytes`, where `open` was open before them, are read truly.
pub open spec fn ended_read_truly(open: Seq<u8>, bytes: Seq<u8>) -> bool {
    forall|k: int|
        0 <= k < bytes.len() && ends_segment(#[trigger] bytes[k]) ==> faithful(
            open_after(open, bytes.take(k)),
        )
}

/// Splits a stream into its events as its bytes come in.
pub struct StreamSplitter {
    open: Vec<u8>,
}

impl View for StreamSplitter {
    type V = Seq<u8>;

    closed spec fn view(&self) -> Seq<u8> {
        self.open@
    }
}

/// The event of an ended segment.
fn ended_event(segment: &Vec<u8>, progress: bool) -> (r: Option<StreamEvent>)
    requires
        unended(segment@),
    ensures
        match r {
            Some(e) => shown(lossy(segment@), progress) == seq![e@],
            None => shown(lossy(segment@), progress) == Seq::<EventView>::empty(),
        },
        tidy(shown(lossy(segment@), progress)),
        faithful(segment@),
{
    let text = read_text(segment.as_slice());
    proof {
        let said = trimmed_end(text@);
        law_trimmed_end(text@);
        law_trimmed_end(said);
        assert forall|i: int| 0 <= i < said.len() implies said[i] != '\n' && said[i] != '\r' by {
            assert(said[i] == text@[i]);
            if said[i] == '\n' || said[i] == '\r' {
                let b = text@[i] as u8;
                let k = choose|k: int| 0 <= k < segment@.len() && segment@[k] == b;
                assert(ends_segment(segment@[k]));
            }
        }
    }
    segment_event(text.as_str(), progress)
}

impl StreamSplitter {
    /// No segment ends among the bytes that are kept.
    #[verifier::type_invariant]
    spec fn keeps_open(self) -> bool {
        unended(self.open@)
    }

    /// The start of a stream.
    pub fn new() -> (r: StreamSplitter)
        ensures
            r@ == Seq::<u8>::empty(),
    {
        StreamSplitter { open: Vec::new() }
    }

    /// The events that the next bytes bring.
    pub fn feed(&mut self, bytes: &[u8]) -> (r: Vec<StreamEvent>)
        ensures
            final(self)@ == open_after(old(self)@, bytes@),
            event_views(r@) == ended_in(old(self)@, bytes@),
            tidy(event_views(r@)),
            ended_read_truly(old(self)@, bytes@),
    {
        proof {
            use_type_invariant(&*self);
        }
        let ghost before = self@;
        let mut open: Vec<u8> = Vec::new();
        std::mem::swap(&mut open, &mut self.open);
        let mut out: Vec<StreamEvent> = Vec::new();
        let n: usize = bytes.len();
        let mut i: usize = 0;
        while i < n
            invariant
                n == bytes@.len(),
                i <= n,
                unended(open@),
                open@ == open_after(before, bytes@.take(i as int)),
                event_views(out@) =~= ended_in(before, bytes@.take(i as int)),
                tidy(event_views(out@)),
                forall|k: int|
                    0 <= k < i && ends_segment(#[trigger] bytes@[k]) ==> faithful(
                        open_after(before, bytes@.take(k)),
                    ),
            decreases n - i,
        {
            let b: u8 = bytes[i];
            proof {
                assert(bytes@.take(i + 1).drop_last() =~= bytes@.take(i as int));
                assert(bytes@.take(i + 1).last() == b);
            }
            if b == NEWLINE || b == RETURN {
                if let Some(e) = ended_event(&open, b == RETURN) {
                    proof {
                        lemma_push_event(out@, e);
                    }
                    out.push(e);
                }
                open.clear();
            } else {
                open.push(b);
            }
            i += 1;
        }
        proof {
            assert(bytes@.take(n as int) =~= bytes@);
        }
        self.open = open;
        out
    }

    /// The event that the end of the stream brings.
    pub fn finish(self) -> (r: Option<StreamEvent>)
        ensures
            match r {
                Some(e) => shown(lossy(self@), false) == seq![e@],
                None => shown(lossy(self@), false) == Seq::<EventView>::empty(),
            },
            r matches Some(e) ==> says_something(e@) && on_one_line(e@),
            faithful(self@),
    {
        proof {
            use_type_invariant(&self);
        }
        let r = ended_event(&self.open, false);
        proof {
            assert(r matches Some(e) ==> seq![e@][0] == e@);
        }
        r
    }
}

proof fn lemma_push_event(list: Seq<StreamEvent>, e: StreamEvent)
    ensures
        event_views(list.push(e)) == event_views(list) + seq![e@],
        tidy(event_views(list)) && tidy(seq![e@]) ==> tidy(event_views(list.push(e))),
{
    let all = event_views(list.push(e));
    assert(all =~= event_views(list) + seq![e@]);
    if tidy(event_views(list)) && tidy(seq![e@]) {
        assert forall|i: int| 0 <= i < all.len() implies says_something(#[trigger] all[i])
            && on_one_line(all[i]) by {
            if i < list.len() {
                assert(all[i] == event_views(list)[i]);
            } else {
                assert(all[i] == seq![e@][0]);
            }
        }
    }
}

/// Reads a whole stream, treating a newline as the end of a committed line and a
/// carriage return as the end of a progress update. No event is blank, ends in
/// white space, or goes over the end of a line.
pub fn stream_cr_lf(bytes: &[u8]) -> (r: Vec<StreamEvent>)
    ensures
        event_views(r@) == stream_events(bytes@),
        tidy(stream_events(bytes@)),
        tidy(event_views(r@)),
        ended_read_truly(seq![], bytes@),
        faithful(open_after(seq![], bytes@)),
{
    let mut splitter = StreamSplitter::new();
    let mut out = splitter.feed(bytes);
    if let Some(e) = splitter.finish() {
        proof {
            assert(tidy(seq![e@]));
            lemma_push_event(out@, e);
        }
        out.push(e);
    } else {
        proof {
            assert(event_views(out@) =~= event_views(out@) + Seq::<EventView>::empty());
        }
    }
    out
}

/// A stream shows the same in whichever pieces its bytes come in.
pub proof fn law_pieces(open: Seq<u8>, first: Seq<u8>, second: Seq<u8>)
    ensures
        open_after(open, first + second) == open_after(open_after(open, first), second),
        ended_in(open, first + second) == ended_in(open, first) + ended_in(
            open_after(open, first),
            second,
        ),
    decreases second.len(),
{
    if second.len() == 0 {
        assert(first + second =~= first);
        assert(ended_in(open, first) + Seq::<EventView>::empty() =~= ended_in(open, first));
    } else {
        law_pieces(open, first, second.drop_last());
        assert((first + second).drop_last() =~= first + second.drop_last());
        assert((first + second).last() == second.last());
        assert(ended_in(open, first + second) =~= ended_in(open, first) + ended_in(
            open_after(open, first),
            second,
        ));
    }
}

/// Feeding a stream in two pieces and then finishing it brings the events of the
/// whole stream.
pub proof fn law_stream_in_pieces(first: Seq<u8>, second: Seq<u8>)
    ensures
        stream_events(first + second) == ended_in(seq![], first) + ended_in(
            open_after(seq![], first),
            second,
        ) + shown(lossy(open_after(open_after(seq![], first), second)), false),
{
    law_pieces(seq![], first, second);
}

proof fn lemma_shown_says_something(text: Seq<char>, progress: bool)
    ensures
        forall|i: int|
            0 <= i < shown(text, progress).len() ==> says_something(
                #[trigger] shown(text, progress)[i],
            ),
{
    law_trimmed_end(text);
}

proof fn lemma_ended_say_something(open: Seq<u8>, bytes: Seq<u8>)
    ensures
        forall|i: int|
            0 <= i < ended_in(open, bytes).len() ==> says_something(
                #[trigger] ended_in(open, bytes)[i],
            ),
    decreases bytes.len(),
{
    if bytes.len() > 0 {
        let before = bytes.drop_last();
        lemma_ended_say_something(open, before);
        lemma_shown_says_something(lossy(open_after(open, before)), bytes.last() == RETURN);
        let events = ended_in(open, bytes);
        let n = ended_in(open, before).len();
        assert forall|i: int| 0 <= i < events.len() implies says_something(#[trigger] events[i]) by {
            if i < n {
                assert(events[i] == ended_in(open, before)[i]);
            }
        }
    }
}

/// No event of a stream is blank, and none ends in white space.
pub proof fn law_events_say_something(bytes: Seq<u8>)
    ensures
        forall|i: int|
            0 <= i < stream_events(bytes).len() ==> says_something(
                #[trigger] stream_events(bytes)[i],
            ),
{
    lemma_ended_say_something(seq![], bytes);
    lemma_shown_says_something(lossy(open_after(seq![], bytes)), false);
}

proof fn lemma_cut(bytes: Seq<u8>, k: int)
    requires
        vstd::utf8::valid_utf8(bytes),
        0 <= k < bytes.len(),
        bytes[k] < 0x80,
    ensures
        vstd::utf8::valid_utf8(bytes.take(k)),
        vstd::utf8::valid_utf8(bytes.skip(k + 1)),
{
    vstd::utf8::is_char_boundary_iff_not_is_continuation_byte(bytes, k);
    vstd::utf8::valid_utf8_split(bytes, k);
    let from = bytes.subrange(k, bytes.len() as int);
    assert(bytes.subrange(0, k) =~= bytes.take(k));
    assert(vstd::utf8::pop_first_scalar(from) =~= bytes.skip(k + 1));
}

proof fn lemma_open_is_suffix(bytes: Seq<u8>) -> (m: int)
    ensures
        0 <= m <= bytes.len(),
        open_after(seq![], bytes) == bytes.skip(m),
        m > 0 ==> ends_segment(bytes[m - 1]),
    decreases bytes.len(),
{
    if bytes.len() == 0 {
        assert(bytes.skip(0) =~= seq![]);
        0
    } else if ends_segment(bytes.last()) {
        assert(bytes.skip(bytes.len() as int) =~= seq![]);
        bytes.len() as int
    } else {
        let m = lemma_open_is_suffix(bytes.drop_last());
        assert(bytes.drop_last().skip(m).push(bytes.last()) =~= bytes.skip(m));
        m
    }
}

/// The segments of a stream that is UTF-8 are UTF-8: those that end at some
/// place `k`, and the one that is open at its end.
pub proof fn law_segments_stay_utf8(bytes: Seq<u8>, k: int)
    requires
        vstd::utf8::valid_utf8(bytes),
        0 <= k <= bytes.len(),
        k < bytes.len() ==> ends_segment(bytes[k]),
    ensures
        vstd::utf8::valid_utf8(open_after(seq![], bytes.take(k))),
{
    let before = bytes.take(k);
    if k < bytes.len() {
        lemma_cut(bytes, k);
    } else {
        assert(before =~= bytes);
    }
    let m = lemma_open_is_suffix(before);
    if m > 0 {
        lemma_cut(before, m - 1);
    } else {
        assert(before.skip(0) =~= before);
    }
}

/// The least time between two progress updates, in nanoseconds.
pub const PROGRESS_GAP: u128 = 120_000_000;

/// Keeps progress updates apart. Times are nanoseconds of one clock.
pub struct ProgressThrottle {
    last: Option<u128>,
}

impl View for ProgressThrottle {
    type V = Option<u128>;

    closed spec fn view(&self) -> Option<u128> {
        self.last
    }
}

/// An update may be shown: it is the first, or the last one is long enough ago.
pub open spec fn progress_due(last: Option<u128>, now: u128) -> bool {
    match last {
        Some(t) => now - t >= PROGRESS_GAP,
        None => true,
    }
}

impl ProgressThrottle {
    /// No update shown yet.
    pub fn new() -> (r: ProgressThrottle)
        ensures
            r@ == None::<u128>,
    {
        ProgressThrottle { last: None }
    }

    /// Says whether an update may be shown now.
    pub fn due(&self, now: u128) -> (r: bool)
        ensures
            r == progress_due(self@, now),
    {
        match self.last {
            Some(t) => now >= t && now - t >= PROGRESS_GAP,
            None => true,
        }
    }

    /// Records that an update has been shown now.
    pub fn shown(&mut self, now: u128)
        ensures
            final(self)@ == Some(now),
    {
        self.last = Some(now);
    }
}

/// After an update recorded at `shown`, the next one is due exactly from the gap on.
pub proof fn law_updates_apart(shown: u128, now: u128)
    ensures
        progress_due(Some(shown), now) <==> now >= shown + PROGRESS_GAP,
{
}

/// Events are seen one by one, each as it is.
pub proof fn law_events_seen(list: Seq<StreamEvent>, s: String)
    ensures
        StreamEvent::Line(s)@ == EventView::Line(s@),
        StreamEvent::Progress(s)@ == EventView::Progress(s@),
        event_views(list).len() == list.len(),
        forall|i: int| 0 <= i < list.len() ==> #[trigger] event_views(list)[i] == list[i]@,
{
}

/// An event with this text.
pub open spec fn event_of(text: Seq<char>, progress: bool) -> EventView {
    if progress {
        EventView::Progress(text)
    } else {
        EventView::Line(text)
    }
}

/// A segment shows an event exactly if its text has a character that is not white
/// space, however long it is, and never more than one.
pub proof fn law_segment_shown(text: Seq<char>, progress: bool)
    ensures
        shown(text, progress).len() == 1 <==> exists|i: int|
            0 <= i < text.len() && !white(#[trigger] text[i]),
        shown(text, progress).len() == 0 <==> forall|i: int|
            0 <= i < text.len() ==> white(#[trigger] text[i]),
{
    law_trimmed_end(text);
    let said = trimmed_end(text);
    if said.len() > 0 {
        assert(said.last() == text[said.len() - 1]);
    }
}

/// The text of an event is the whole text of its segment up to the white space at
/// its end.
pub proof fn law_segment_text(said: Seq<char>, after: Seq<char>, progress: bool)
    requires
        said.len() > 0,
        !white(said[said.len() - 1]),
        forall|i: int| 0 <= i < after.len() ==> white(#[trigger] after[i]),
    ensures
        shown(said + after, progress) == seq![event_of(said, progress)],
{
    let text = said + after;
    let end = trimmed_end(text);
    law_trimmed_end(text);
    if end.len() < said.len() {
        assert(text[said.len() - 1] == said[said.len() - 1]);
    } else if end.len() > said.len() {
        assert(end.last() == text[end.len() - 1]);
        assert(text[end.len() - 1] == after[end.len() - 1 - said.len()]);
    } else {
        assert(end =~= said);
    }
}

/// Bytes without a newline or a carriage return bring no event. They add to the
/// segment that is open.
pub proof fn law_segment_stays_open(open: Seq<u8>, bytes: Seq<u8>)
    requires
        forall|i: int| 0 <= i < bytes.len() ==> #[trigger] bytes[i] != 10 && bytes[i] != 13,
    ensures
        open_after(open, bytes) == open + bytes,
        ended_in(open, bytes).len() == 0,
    decreases bytes.len(),
{
    if bytes.len() == 0 {
        assert(open + bytes =~= open);
    } else {
        assert(bytes.last() == bytes[bytes.len() - 1]);
        assert forall|i: int| 0 <= i < bytes.len() - 1 implies #[trigger] bytes.drop_last()[i] != 10
            && bytes.drop_last()[i] != 13 by {
            assert(bytes.drop_last()[i] == bytes[i]);
        }
        law_segment_stays_open(open, bytes.drop_last());
        assert((open + bytes.drop_last()).push(bytes.last()) =~= open + bytes);
    }
}

/// A newline shows the segment before it as a line and a carriage return shows it
/// as progress, and what follows is read as if it were a stream of its own.
pub proof fn law_segment_ends(open: Seq<u8>, segment: Seq<u8>, end: u8, rest: Seq<u8>)
    requires
        forall|i: int| 0 <= i < segment.len() ==> #[trigger] segment[i] != 10 && segment[i] != 13,
        end == 10 || end == 13,
    ensures
        open_after(open, segment + seq![end] + rest) == open_after(seq![], rest),
        ended_in(open, segment + seq![end] + rest) == shown(lossy(open + segment), end == 13)
            + ended_in(seq![], rest),
{
    let head = segment.push(end);
    law_segment_stays_open(open, segment);
    assert(head.drop_last() =~= segment);
    assert(head.last() == end);
    assert(open_after(open, head) =~= seq![]);
    assert(ended_in(open, head) =~= shown(lossy(open + segment), end == 13));
    law_pieces(open, head, rest);
    assert(segment + seq![end] + rest =~= head + rest);
}

/// A whole stream shows its first segment and then all that follows it.
pub proof fn law_stream_by_segments(segment: Seq<u8>, end: u8, rest: Seq<u8>)
    requires
        forall|i: int| 0 <= i < segment.len() ==> #[trigger] segment[i] != 10 && segment[i] != 13,
        end == 10 || end == 13,
    ensures
        stream_events(segment + seq![end] + rest) == shown(lossy(segment), end == 13)
            + stream_events(rest),
        stream_events(segment) == shown(lossy(segment), false),
{
    law_segment_ends(seq![], segment, end, rest);
    assert(Seq::<u8>::empty() + segment =~= segment);
    law_segment_stays_open(seq![], segment);
    assert(stream_events(segment + seq![end] + rest) =~= shown(lossy(segment), end == 13)
        + stream_events(rest));
    assert(stream_events(segment) =~= shown(lossy(segment), false));
}

/// Every segment of a stream whose text says something has its event: the bytes
/// between two ends of segments, before the first one, or after the last one.
pub proof fn law_every_segment_shown(
    bytes: Seq<u8>,
    from: int,
    to: int,
    said: Seq<char>,
    after: Seq<char>,
)
    requires
        0 <= from <= to <= bytes.len(),
        from > 0 ==> bytes[from - 1] == 10 || bytes[from - 1] == 13,
        forall|i: int| from <= i < to ==> #[trigger] bytes[i] != 10 && bytes[i] != 13,
        to < bytes.len() ==> bytes[to] == 10 || bytes[to] == 13,
        lossy(bytes.subrange(from, to)) == said + after,
        said.len() > 0,
        !white(said[said.len() - 1]),
        forall|i: int| 0 <= i < after.len() ==> white(#[trigger] after[i]),
    ensures
        stream_events(bytes).contains(event_of(said, to < bytes.len() && bytes[to] == 13)),
{
    let head = bytes.take(from);
    let segment = bytes.subrange(from, to);
    let progress = to < bytes.len() && bytes[to] == 13;
    law_segment_text(said, after, progress);
    let open = open_after(seq![], head);
    if from > 0 {
        assert(head.last() == bytes[from - 1]);
    }
    assert(open =~= seq![]);
    assert forall|i: int| 0 <= i < segment.len() implies #[trigger] segment[i] != 10 && segment[i]
        != 13 by {
        assert(segment[i] == bytes[from + i]);
    }
    let n = ended_in(seq![], head).len() as int;
    if to < bytes.len() {
        let rest = bytes.skip(to + 1);
        let tail = segment + seq![bytes[to]] + rest;
        assert(bytes =~= head + tail);
        law_pieces(seq![], head, tail);
        law_segment_ends(seq![], segment, bytes[to], rest);
        assert(Seq::<u8>::empty() + segment =~= segment);
    } else {
        assert(bytes =~= head + segment);
        law_pieces(seq![], head, segment);
        law_segment_stays_open(seq![], segment);
        assert(Seq::<u8>::empty() + segment =~= segment);
    }
    assert(stream_events(bytes)[n] == event_of(said, progress));
}

/// A progress update may be shown if none was, or if the last one is at least
/// a hundred and twenty milliseconds ago.
pub proof fn law_progress_due(last: Option<u128>, now: u128)
    ensures
        last is None ==> progress_due(last, now),
        last matches Some(t) ==> (progress_due(last, now) <==> now - t >= 120_000_000),
{
}

/// A tidy event has a text that ends in something other than white space, and that
/// holds neither a newline nor a carriage return.
pub proof fn law_tidy(events: Seq<EventView>, i: int, text: Seq<char>)
    requires
        tidy(events),
        0 <= i < events.len(),
        events[i] == EventView::Line(text) || events[i] == EventView::Progress(text),
    ensures
        text.len() > 0,
        !white(text[text.len() - 1]),
        forall|c: int|
            0 <= c < text.len() ==> #[trigger] text[c] != '\n' && text[c] != '\r',
{
    assert(says_something(events[i]) && on_one_line(events[i]));
    law_trimmed_end(text);
    assert forall|c: int| 0 <= c < text.len() implies #[trigger] text[c] != '\n' && text[c]
        != '\r' by {
        assert(text.contains(text[c]));
    }
}

} // verus!
