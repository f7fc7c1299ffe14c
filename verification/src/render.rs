//! What the query engine prints, stated exactly: the character sequence of
//! every rendering is a function of the store model alone.
//!
//! A span prints a header line `[name {fields}]` when its name is non-empty,
//! then its events one level deeper: a message event prints its `message`
//! field on its own line, a child-span event prints that child recursively.
//! Indentation is four spaces per level.  A frame view prints a fixed
//! three-line preamble, the thread's header, and the slice of the thread's
//! events between the end of the grand-previous frame and the start of the
//! next frame around the target.

use vstd::prelude::*;

use crate::entry::EventModel;
use crate::entry::SpanModel;
use crate::entry::event_child;
use crate::fields::fm_lookup_spec;
use crate::model::LogModel;
use crate::model::Query;

verus! {

/// Four spaces per indentation level.
pub open spec fn indent_chars(depth: nat) -> Seq<char>
    decreases depth,
{
    if depth == 0 {
        Seq::empty()
    } else {
        indent_chars((depth - 1) as nat) + seq![' ', ' ', ' ', ' ']
    }
}

/// The escape of one character inside a quoted field key or value: quote,
/// backslash, newline, tab and carriage return take a backslash form, any
/// other character stands as itself.
pub open spec fn esc_char(c: char) -> Seq<char> {
    if c == '"' {
        seq!['\\', '"']
    } else if c == '\\' {
        seq!['\\', '\\']
    } else if c == '\n' {
        seq!['\\', 'n']
    } else if c == '\t' {
        seq!['\\', 't']
    } else if c == '\r' {
        seq!['\\', 'r']
    } else {
        seq![c]
    }
}

/// The escape of a character sequence.
pub open spec fn esc_chars(s: Seq<char>) -> Seq<char>
    decreases s.len(),
{
    if s.len() == 0 {
        Seq::empty()
    } else {
        esc_char(s[0]) + esc_chars(s.skip(1))
    }
}

/// One `"key": "value"` element of a printed field map.
pub open spec fn entry_chars(k: Seq<char>, v: Seq<char>) -> Seq<char> {
    seq!['"'] + esc_chars(k) + seq!['"', ':', ' ', '"'] + esc_chars(v) + seq!['"']
}

/// The comma-separated elements of a printed field map, from position `i`.
pub open spec fn entries_chars(s: Seq<(Seq<char>, Seq<char>)>, i: int) -> Seq<char>
    decreases s.len() - i,
{
    if i < 0 || i >= s.len() {
        Seq::empty()
    } else {
        (if i > 0 {
            seq![',', ' ']
        } else {
            Seq::empty()
        }) + entry_chars(s[i].0, s[i].1) + entries_chars(s, i + 1)
    }
}

/// A printed field map: `{"k": "v", ...}`.
pub open spec fn fields_chars(s: Seq<(Seq<char>, Seq<char>)>) -> Seq<char> {
    seq!['{'] + entries_chars(s, 0) + seq!['}']
}

/// A span's header line, printed only when its name is non-empty.
pub open spec fn header_chars(name: Seq<char>, fields: Seq<(Seq<char>, Seq<char>)>, depth: nat) -> Seq<
    char,
> {
    if name.len() > 0 {
        indent_chars(depth) + seq!['['] + name + seq![' '] + fields_chars(fields) + seq![']', '\n']
    } else {
        Seq::empty()
    }
}

/// A message event's line: its `message` field, if it has one.
pub open spec fn message_chars(fields: Seq<(Seq<char>, Seq<char>)>, depth: nat) -> Seq<char> {
    match fm_lookup_spec(fields, "message"@) {
        Option::Some(v) => indent_chars(depth) + v + seq!['\n'],
        Option::None => Seq::empty(),
    }
}

/// The rendering of the events of `owner` from position `i` up to (not
/// including) `hi`, at indentation `depth`: message lines and, for child
/// references, whole child spans, in order.
pub open spec fn render_events_chars(
    spans: Map<u64, SpanModel>,
    next: u64,
    owner: int,
    events: Seq<EventModel>,
    i: int,
    hi: int,
    depth: nat,
) -> Seq<char>
    decreases next - owner, 0int, hi - i,
{
    if i < 0 || i >= hi || hi > events.len() || owner >= next {
        Seq::empty()
    } else {
        (match events[i] {
            EventModel::Message { level: _, fields } => message_chars(fields, depth),
            EventModel::Child { id } => if spans.contains_key(id) && owner < id && id < next {
                render_span_chars(spans, next, id, depth)
            } else {
                Seq::empty()
            },
        }) + render_events_chars(spans, next, owner, events, i + 1, hi, depth)
    }
}

/// The rendering of one stored span: its header, then all its events one
/// level deeper.
pub open spec fn render_span_chars(spans: Map<u64, SpanModel>, next: u64, id: u64, depth: nat) -> Seq<
    char,
>
    decreases next - id, 1int, 0int,
{
    if !spans.contains_key(id) || id >= next {
        Seq::empty()
    } else {
        let s = spans[id];
        header_chars(s.name, s.fields, depth) + render_events_chars(
            spans,
            next,
            id as int,
            s.events,
            0,
            s.events.len() as int,
            (depth + 1) as nat,
        )
    }
}

/// The whole-log rendering: the root's children in event order; the root's
/// own header is never printed.
pub open spec fn render_all_chars(m: LogModel) -> Seq<char> {
    render_events_chars(
        m.spans,
        m.next_id,
        -1,
        m.root.events,
        0,
        m.root.events.len() as int,
        1,
    )
}

/// The per-thread rendering: the same recursive print, rooted at the
/// thread's span.
pub open spec fn render_thread_chars(m: LogModel, t: u64) -> Seq<char> {
    render_span_chars(m.spans, m.next_id, t, 0)
}

/// The scan state while walking a thread's events for a frame's context
/// window: the positions of the grand-previous and previous child spans
/// seen before the target, the target itself, and the first child span
/// after it.
#[verifier::ext_equal]
pub ghost struct ScanState {
    pub gp: Option<int>,
    pub prev: Option<int>,
    pub this_pos: Option<int>,
    pub next_pos: Option<int>,
}

/// The scan's starting state.
pub open spec fn scan_init() -> ScanState {
    ScanState {
        gp: Option::None,
        prev: Option::None,
        this_pos: Option::None,
        next_pos: Option::None,
    }
}

/// One step of the scan: only child-span events move it; a match records
/// the target, an earlier non-match shifts the previous pair, a later
/// non-match ends the scan.
pub open spec fn scan_step(st: ScanState, i: int, e: EventModel, f: u64) -> ScanState {
    if st.next_pos is Some {
        st
    } else {
        match event_child(e) {
            Option::None => st,
            Option::Some(c) => if c == f {
                ScanState { this_pos: Option::Some(i), ..st }
            } else if st.this_pos is None {
                ScanState { gp: st.prev, prev: Option::Some(i), ..st }
            } else {
                ScanState { next_pos: Option::Some(i), ..st }
            },
        }
    }
}

/// The scan folded over the events from position `i`.
pub open spec fn scan_events(events: Seq<EventModel>, f: u64, i: int, st: ScanState) -> ScanState
    decreases events.len() - i,
{
    if i < 0 || i >= events.len() {
        st
    } else {
        scan_events(events, f, i + 1, scan_step(st, i, events[i], f))
    }
}

/// The scan of a whole event sequence for target `f`.
pub open spec fn frame_scan(events: Seq<EventModel>, f: u64) -> ScanState {
    scan_events(events, f, 0, scan_init())
}

/// The start of the context window: just after the grand-previous frame, or
/// the very beginning.
pub open spec fn window_lo(events: Seq<EventModel>, f: u64) -> int {
    match frame_scan(events, f).gp {
        Option::Some(g) => g + 1,
        Option::None => 0,
    }
}

/// The end of the context window: the next frame's position, or the end of
/// the sequence.
pub open spec fn window_hi(events: Seq<EventModel>, f: u64) -> int {
    match frame_scan(events, f).next_pos {
        Option::Some(n) => n,
        Option::None => events.len() as int,
    }
}

/// The fixed preamble printed before a frame's context window.
pub open spec fn preamble_chars() -> Seq<char> {
    "Viewing logs for a frame's stackwalk, which has two parts\n"@
        + "  1. How the frame was computed (the stackwalk of its callee)\n"@
        + "  2. How the frame itself was walked (producing its caller)\n"@ + "\n"@
}

/// The frame-in-context rendering: the preamble, the thread's header, and
/// the window slice of the thread's events.
pub open spec fn render_frame_chars(m: LogModel, t: u64, f: u64) -> Seq<char> {
    let s = m.spans[t];
    preamble_chars() + header_chars(s.name, s.fields, 0) + render_events_chars(
        m.spans,
        m.next_id,
        t as int,
        s.events,
        window_lo(s.events, f),
        window_hi(s.events, f),
        1,
    )
}

/// What any query renders against a given state.
pub open spec fn render_query_chars(m: LogModel, q: Query) -> Seq<char> {
    match q {
        Query::All => render_all_chars(m),
        Query::Thread(t) => render_thread_chars(m, t),
        Query::Frame(t, f) => render_frame_chars(m, t, f),
    }
}

/// What the renderer needs of the span map: ids below the counter, and
/// every child link valid.
pub open spec fn render_pre(spans: Map<u64, SpanModel>, next: u64) -> bool {
    forall|id: u64|
        #[trigger] spans.contains_key(id) ==> id < next && crate::model::events_ok(
            spans,
            id as int,
            spans[id].events,
        )
}

/// Appends four spaces per indentation level.
fn push_indent(out: &mut Vec<char>, depth: u64)
    ensures
        final(out)@ == old(out)@ + indent_chars(depth as nat),
{
    let mut j: u64 = 0;
    while j < depth
        invariant
            0 <= j <= depth,
            out@ == old(out)@ + indent_chars(j as nat),
        decreases depth - j,
    {
        out.push(' ');
        out.push(' ');
        out.push(' ');
        out.push(' ');
        proof {
            assert(indent_chars((j + 1) as nat) == indent_chars(j as nat) + seq![' ', ' ', ' ', ' ']);
            assert(out@ =~= old(out)@ + indent_chars((j + 1) as nat));
        }
        j = j + 1;
    }
}

proof fn lemma_esc_chars_snoc(s: Seq<char>, c: char)
    ensures
        esc_chars(s.push(c)) == esc_chars(s) + esc_char(c),
    decreases s.len(),
{
    if s.len() == 0 {
        assert(s.push(c)[0] == c);
        assert(s.push(c).skip(1) =~= Seq::<char>::empty());
        assert(esc_chars(s.push(c)) == esc_char(c) + esc_chars(s.push(c).skip(1)));
        assert(esc_chars(Seq::<char>::empty()) =~= Seq::<char>::empty());
        assert(esc_char(c) + Seq::<char>::empty() =~= esc_char(c));
        assert(esc_chars(s) + esc_char(c) =~= esc_char(c));
    } else {
        assert(s.push(c)[0] == s[0]);
        assert(s.push(c).skip(1) =~= s.skip(1).push(c));
        lemma_esc_chars_snoc(s.skip(1), c);
        assert(esc_chars(s.push(c)) == esc_char(s[0]) + (esc_chars(s.skip(1)) + esc_char(c)));
        assert(esc_char(s[0]) + (esc_chars(s.skip(1)) + esc_char(c)) =~= (esc_char(s[0])
            + esc_chars(s.skip(1))) + esc_char(c));
    }
}

/// Appends the escaped form of `s`.
fn push_escaped(out: &mut Vec<char>, s: &str)
    ensures
        final(out)@ == old(out)@ + esc_chars(s@),
{
    let len = s.unicode_len();
    let mut i: usize = 0;
    proof {
        assert(s@.take(0) =~= Seq::<char>::empty());
        assert(esc_chars(Seq::<char>::empty()) =~= Seq::<char>::empty());
        assert(out@ =~= old(out)@ + esc_chars(s@.take(0)));
    }
    while i < len
        invariant
            0 <= i <= len,
            len == s@.len(),
            out@ == old(out)@ + esc_chars(s@.take(i as int)),
        decreases len - i,
    {
        let c = s.get_char(i);
        if c == '"' {
            out.push('\\');
            out.push('"');
        } else if c == '\\' {
            out.push('\\');
            out.push('\\');
        } else if c == '\n' {
            out.push('\\');
            out.push('n');
        } else if c == '\t' {
            out.push('\\');
            out.push('t');
        } else if c == '\r' {
            out.push('\\');
            out.push('r');
        } else {
            out.push(c);
        }
        proof {
            lemma_esc_chars_snoc(s@.take(i as int), c);
            assert(s@.take(i + 1) =~= s@.take(i as int).push(s@[i as int]));
            assert(out@ =~= old(out)@ + esc_chars(s@.take(i + 1)));
        }
        i = i + 1;
    }
    proof {
        assert(s@.take(len as int) =~= s@);
    }
}

/// Appends the printed form of a field map: `{"k": "v", ...}`.
fn push_fields(out: &mut Vec<char>, fm: &crate::fields::FieldMap)
    ensures
        final(out)@ == old(out)@ + fields_chars(fm@),
{
    out.push('{');
    let ghost base: int = out@.len() as int;
    let len = fm.len();
    let mut i: usize = 0;
    proof {
        assert(out@.skip(base) =~= Seq::<char>::empty());
    }
    while i < len
        invariant
            0 <= i <= len,
            len == fm@.len(),
            base == old(out)@.len() + 1,
            out@.len() >= base,
            out@.take(base) == old(out)@ + seq!['{'],
            entries_chars(fm@, 0) == out@.skip(base) + entries_chars(fm@, i as int),
        decreases len - i,
    {
        let ghost pre = out@;
        if i > 0 {
            out.push(',');
            out.push(' ');
        }
        out.push('"');
        push_escaped(out, fm.key_at(i).as_str());
        out.push('"');
        out.push(':');
        out.push(' ');
        out.push('"');
        push_escaped(out, fm.value_at(i).as_str());
        out.push('"');
        proof {
            let sep: Seq<char> = if i > 0 {
                seq![',', ' ']
            } else {
                Seq::empty()
            };
            let elem = entry_chars(fm@[i as int].0, fm@[i as int].1);
            assert(out@ =~= pre + sep + elem);
            assert(entries_chars(fm@, i as int) == sep + elem + entries_chars(fm@, i + 1));
            assert(out@.take(base) =~= pre.take(base));
            assert(out@.skip(base) =~= pre.skip(base) + sep + elem);
            assert(entries_chars(fm@, 0) =~= out@.skip(base) + entries_chars(fm@, i + 1));
        }
        i = i + 1;
    }
    let ghost done = out@;
    out.push('}');
    proof {
        assert(entries_chars(fm@, len as int) =~= Seq::<char>::empty());
        assert(entries_chars(fm@, 0) =~= done.skip(base));
        assert(done =~= done.take(base) + done.skip(base));
        assert(out@ =~= done.push('}'));
        assert(out@ =~= old(out)@ + seq!['{'] + entries_chars(fm@, 0) + seq!['}']);
        assert(out@ =~= old(out)@ + fields_chars(fm@));
    }
}

/// A scan started with the end position already set stays put.
proof fn lemma_scan_stable(events: Seq<EventModel>, f: u64, i: int, st: ScanState)
    requires
        st.next_pos is Some,
    ensures
        scan_events(events, f, i, st) == st,
    decreases events.len() - i,
{
    if 0 <= i < events.len() {
        assert(scan_step(st, i, events[i], f) == st);
        lemma_scan_stable(events, f, i + 1, st);
    }
}

/// The spec scan state described by the loop's locals.
pub open spec fn scan_state_of(
    gp: Option<usize>,
    prev: Option<usize>,
    this_pos: Option<usize>,
    next_pos: Option<usize>,
) -> ScanState {
    ScanState {
        gp: match gp {
            Option::Some(g) => Option::Some(g as int),
            Option::None => Option::None,
        },
        prev: match prev {
            Option::Some(p) => Option::Some(p as int),
            Option::None => Option::None,
        },
        this_pos: match this_pos {
            Option::Some(t) => Option::Some(t as int),
            Option::None => Option::None,
        },
        next_pos: match next_pos {
            Option::Some(n) => Option::Some(n as int),
            Option::None => Option::None,
        },
    }
}

/// Scans a thread's events for the target frame's context window,
/// mirroring the scan specification: returns whether the target was found
/// at all and, if so, the window's half-open bounds.
pub fn scan_window(events: &Vec<crate::entry::EventEntry>, f: u64) -> (r: (bool, usize, usize))
    ensures
        r.0 == (frame_scan(crate::entry::events_view(events@), f).this_pos is Some),
        r.0 ==> {
            &&& r.1 as int == window_lo(crate::entry::events_view(events@), f)
            &&& r.2 as int == window_hi(crate::entry::events_view(events@), f)
            &&& r.1 <= r.2 <= events@.len()
        },
{
    let ghost ev = crate::entry::events_view(events@);
    let len = events.len();
    let mut gp: Option<usize> = Option::None;
    let mut prev: Option<usize> = Option::None;
    let mut this_pos: Option<usize> = Option::None;
    let mut next_pos: Option<usize> = Option::None;
    let mut i: usize = 0;
    while i < len && next_pos.is_none()
        invariant
            0 <= i <= len,
            len == ev.len(),
            ev == crate::entry::events_view(events@),
            frame_scan(ev, f) == scan_events(
                ev,
                f,
                i as int,
                scan_state_of(gp, prev, this_pos, next_pos),
            ),
            match gp {
                Option::Some(g) => match prev {
                    Option::Some(p) => g < p,
                    Option::None => false,
                },
                Option::None => true,
            },
            match prev {
                Option::Some(p) => p < i,
                Option::None => true,
            },
            match this_pos {
                Option::Some(t) => t < i && match prev {
                    Option::Some(p) => p < t,
                    Option::None => true,
                },
                Option::None => true,
            },
            match next_pos {
                Option::Some(n) => n < i && match this_pos {
                    Option::Some(t) => t < n,
                    Option::None => false,
                },
                Option::None => true,
            },
        decreases len - i,
    {
        let ghost st0 = scan_state_of(gp, prev, this_pos, next_pos);
        proof {
            assert(scan_events(ev, f, i as int, st0) == scan_events(
                ev,
                f,
                i + 1,
                scan_step(st0, i as int, ev[i as int], f),
            ));
            assert(ev[i as int] == events@[i as int]@);
        }
        match &events[i] {
            crate::entry::EventEntry::Message(_) => {
                proof {
                    assert(scan_step(st0, i as int, ev[i as int], f) =~= st0);
                }
            },
            crate::entry::EventEntry::Child(c) => {
                if *c == f {
                    this_pos = Option::Some(i);
                } else if this_pos.is_none() {
                    gp = prev;
                    prev = Option::Some(i);
                } else {
                    next_pos = Option::Some(i);
                }
                proof {
                    assert(scan_state_of(gp, prev, this_pos, next_pos) =~= scan_step(
                        st0,
                        i as int,
                        ev[i as int],
                        f,
                    ));
                }
            },
        }
        i = i + 1;
    }
    proof {
        let st = scan_state_of(gp, prev, this_pos, next_pos);
        if next_pos is Some {
            lemma_scan_stable(ev, f, i as int, st);
        }
        assert(frame_scan(ev, f) == st);
    }
    let found = this_pos.is_some();
    let lo: usize = match gp {
        Option::Some(g) => g + 1,
        Option::None => 0,
    };
    let hi: usize = match next_pos {
        Option::Some(n) => n,
        Option::None => len,
    };
    (found, lo, hi)
}

/// Appends the rendering of `events[lo..hi]` (the events of `owner`) at
/// indentation `depth`, recursing into referenced child spans.
pub fn render_events_into(
    m: &linked_hash_map::LinkedHashMap<u64, crate::entry::SpanEntry>,
    Ghost(spans): Ghost<Map<u64, SpanModel>>,
    next: u64,
    Ghost(owner): Ghost<int>,
    events: &Vec<crate::entry::EventEntry>,
    lo: usize,
    hi: usize,
    depth: u64,
    out: &mut Vec<char>,
)
    requires
        spans == crate::logger::models_of(crate::extmap::span_map_of(*m)),
        render_pre(spans, next),
        crate::model::events_ok(spans, owner, crate::entry::events_view(events@)),
        -1 <= owner < next,
        lo <= hi <= events@.len(),
        depth as int + next - owner - 1 <= u64::MAX,
    ensures
        final(out)@ == old(out)@ + render_events_chars(
            spans,
            next,
            owner,
            crate::entry::events_view(events@),
            lo as int,
            hi as int,
            depth as nat,
        ),
    decreases next - owner, 0int, hi as int - lo as int,
{
    let ghost ev = crate::entry::events_view(events@);
    let ghost base: int = out@.len() as int;
    let mut i: usize = lo;
    proof {
        assert(out@.skip(base) =~= Seq::<char>::empty());
    }
    while i < hi
        invariant
            lo <= i <= hi,
            spans == crate::logger::models_of(crate::extmap::span_map_of(*m)),
            render_pre(spans, next),
            crate::model::events_ok(spans, owner, ev),
            ev == crate::entry::events_view(events@),
            -1 <= owner < next,
            hi <= events@.len(),
            depth as int + next - owner - 1 <= u64::MAX,
            base == old(out)@.len(),
            out@.len() >= base,
            out@.take(base) == old(out)@,
            render_events_chars(spans, next, owner, ev, lo as int, hi as int, depth as nat)
                == out@.skip(base) + render_events_chars(
                spans,
                next,
                owner,
                ev,
                i as int,
                hi as int,
                depth as nat,
            ),
        decreases hi - i,
    {
        let ghost pre = out@;
        let ghost elem = match ev[i as int] {
            EventModel::Message { level: _, fields } => message_chars(fields, depth as nat),
            EventModel::Child { id } => if spans.contains_key(id) && owner < id && id < next {
                render_span_chars(spans, next, id, depth as nat)
            } else {
                Seq::empty()
            },
        };
        match &events[i] {
            crate::entry::EventEntry::Message(msg) => {
                match msg.fields.get("message") {
                    Option::Some(v) => {
                        push_indent(out, depth);
                        crate::text::push_str_chars(out, v.as_str());
                        out.push('\n');
                        proof {
                            assert(ev[i as int] == events@[i as int]@);
                            assert(out@ =~= pre + elem);
                        }
                    },
                    Option::None => {
                        proof {
                            assert(ev[i as int] == events@[i as int]@);
                            assert(elem =~= Seq::<char>::empty());
                            assert(out@ =~= pre + elem);
                        }
                    },
                }
            },
            crate::entry::EventEntry::Child(c) => {
                proof {
                    assert(ev[i as int] == events@[i as int]@);
                    assert(crate::model::event_ok(spans, owner, ev[i as int]));
                    assert(spans.contains_key(*c) && owner < *c);
                    assert(*c < next);
                }
                render_span_into(m, Ghost(spans), next, *c, depth, out);
                proof {
                    assert(out@ =~= pre + elem);
                }
            },
        }
        proof {
            assert(render_events_chars(spans, next, owner, ev, i as int, hi as int, depth as nat)
                == elem + render_events_chars(
                spans,
                next,
                owner,
                ev,
                i + 1,
                hi as int,
                depth as nat,
            ));
            assert(out@.take(base) =~= pre.take(base));
            assert(out@.skip(base) =~= pre.skip(base) + elem);
            assert(render_events_chars(spans, next, owner, ev, lo as int, hi as int, depth as nat)
                =~= out@.skip(base) + render_events_chars(
                spans,
                next,
                owner,
                ev,
                i + 1,
                hi as int,
                depth as nat,
            ));
        }
        i = i + 1;
    }
    proof {
        assert(render_events_chars(spans, next, owner, ev, hi as int, hi as int, depth as nat)
            =~= Seq::<char>::empty());
        assert(out@ =~= out@.take(base) + out@.skip(base));
        assert(out@ =~= old(out)@ + render_events_chars(
            spans,
            next,
            owner,
            ev,
            lo as int,
            hi as int,
            depth as nat,
        ));
    }
}

/// Appends the rendering of one stored span: its header, then all its
/// events one level deeper.
pub fn render_span_into(
    m: &linked_hash_map::LinkedHashMap<u64, crate::entry::SpanEntry>,
    Ghost(spans): Ghost<Map<u64, SpanModel>>,
    next: u64,
    id: u64,
    depth: u64,
    out: &mut Vec<char>,
)
    requires
        spans == crate::logger::models_of(crate::extmap::span_map_of(*m)),
        render_pre(spans, next),
        spans.contains_key(id),
        id < next,
        depth as int + next - id <= u64::MAX,
    ensures
        final(out)@ == old(out)@ + render_span_chars(spans, next, id, depth as nat),
    decreases next - id, 1int, 0int,
{
    let e = match crate::extmap::store_get(m, id) {
        Option::Some(e) => e,
        Option::None => {
            proof {
                assert(false);
            }
            vstd::pervasive::unreached()
        },
    };
    let ghost pre = out@;
    push_header(out, e, depth);
    proof {
        assert(e@ == spans[id]);
        assert(out@ =~= pre + header_chars(spans[id].name, spans[id].fields, depth as nat));
        assert(crate::entry::events_view(e.events@) == spans[id].events);
    }
    render_events_into(
        m,
        Ghost(spans),
        next,
        Ghost(id as int),
        &e.events,
        0,
        e.events.len(),
        depth + 1,
        out,
    );
    proof {
        assert(out@ =~= pre + render_span_chars(spans, next, id, depth as nat));
    }
}

/// Appends a span's header line, when its name is non-empty.
pub fn push_header(out: &mut Vec<char>, e: &crate::entry::SpanEntry, depth: u64)
    ensures
        final(out)@ == old(out)@ + header_chars(e@.name, e@.fields, depth as nat),
{
    if e.name.as_str().unicode_len() > 0 {
        push_indent(out, depth);
        out.push('[');
        crate::text::push_str_chars(out, e.name.as_str());
        out.push(' ');
        push_fields(out, &e.fields);
        out.push(']');
        out.push('\n');
        proof {
            assert(out@ =~= old(out)@ + header_chars(e@.name, e@.fields, depth as nat));
        }
    }
}

} // verus!
