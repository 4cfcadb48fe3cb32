//! Replay: the decisions of sending captured request records to a live
//! target and collecting the responses.
//!
//! The replayer connects once per session (sessions in order of first
//! appearance), sends each request payload of the session in order, and
//! collects what the server returns before the next request. The network,
//! the clock and sleeping are the caller's: `Replayer::step` takes what
//! happened and says what to do next.

use vstd::prelude::*;
use crate::text::{decimal_text, push_usize};
use crate::trace::{Direction, Record, RecordView, record_views};

verus! {

/// Configuration for a replay run. Durations are in nanoseconds (every
/// `std::time::Duration` fits).
#[derive(Debug, Clone)]
pub struct ReplayConfig {
    pub target: String,
    pub read_timeout_nanos: u128,
    pub preserve_timing: bool,
    /// Upper bound on how long we wait after each request for a response.
    pub max_wait_nanos: u128,
}

impl Default for ReplayConfig {
    fn default() -> (c: Self)
        ensures
            c.target@ == Seq::<char>::empty(),
            c.read_timeout_nanos == 200_000_000,
            !c.preserve_timing,
            c.max_wait_nanos == 500_000_000,
    {
        ReplayConfig {
            target: String::new(),
            read_timeout_nanos: 200_000_000,
            preserve_timing: false,
            max_wait_nanos: 500_000_000,
        }
    }
}

/// Outcome of replaying a single request.
#[derive(Debug, Clone)]
pub struct Exchange {
    pub session: String,
    pub request: Vec<u8>,
    pub response: Vec<u8>,
    pub error: Option<String>,
}

/// The content of an exchange, as mathematical values.
pub struct ExchangeView {
    pub session: Seq<char>,
    pub request: Seq<u8>,
    pub response: Seq<u8>,
    pub error: Option<Seq<char>>,
}

impl View for Exchange {
    type V = ExchangeView;

    open spec fn view(&self) -> ExchangeView {
        ExchangeView {
            session: self.session@,
            request: self.request@,
            response: self.response@,
            error: match self.error {
                Some(e) => Some(e@),
                None => None,
            },
        }
    }
}

/// Aggregate results of a replay run.
#[derive(Debug, Clone)]
pub struct ReplayReport {
    pub exchanges: Vec<Exchange>,
    pub errors: usize,
}

/// The content of a report, as mathematical values.
pub struct ReportView {
    pub exchanges: Seq<ExchangeView>,
    pub errors: int,
}

impl View for ReplayReport {
    type V = ReportView;

    open spec fn view(&self) -> ReportView {
        ReportView { exchanges: self.exchanges@.map_values(|x: Exchange| x@), errors: self.errors as int }
    }
}

impl Default for ReplayReport {
    fn default() -> (r: Self)
        ensures
            r@.exchanges == Seq::<ExchangeView>::empty(),
            r@.errors == 0,
    {
        let r = ReplayReport { exchanges: Vec::new(), errors: 0 };
        assert(r@.exchanges =~= Seq::<ExchangeView>::empty());
        r
    }
}

/// How many of the exchanges carry an error.
pub open spec fn error_count(xs: Seq<ExchangeView>) -> int
    decreases xs.len(),
{
    if xs.len() == 0 {
        0
    } else {
        error_count(xs.drop_last()) + if xs.last().error is Some {
            1int
        } else {
            0
        }
    }
}

/// The bytes sent: the sum of the request lengths.
pub open spec fn request_bytes(xs: Seq<ExchangeView>) -> int
    decreases xs.len(),
{
    if xs.len() == 0 {
        0
    } else {
        request_bytes(xs.drop_last()) + xs.last().request.len()
    }
}

/// The bytes received: the sum of the response lengths.
pub open spec fn response_bytes(xs: Seq<ExchangeView>) -> int
    decreases xs.len(),
{
    if xs.len() == 0 {
        0
    } else {
        response_bytes(xs.drop_last()) + xs.last().response.len()
    }
}

/// The one-line summary of a report.
pub open spec fn summary_text(r: ReportView) -> Seq<char> {
    "replayed "@ + decimal_text(r.exchanges.len()) + " request(s), "@ + decimal_text(
        r.errors as nat,
    ) + " error(s), sent "@ + decimal_text(request_bytes(r.exchanges) as nat) + " byte(s), received "@
        + decimal_text(response_bytes(r.exchanges) as nat) + " byte(s)"@
}

proof fn lemma_byte_sums_grow(xs: Seq<ExchangeView>, i: int)
    requires
        0 <= i <= xs.len(),
    ensures
        0 <= request_bytes(xs.take(i)) <= request_bytes(xs),
        0 <= response_bytes(xs.take(i)) <= response_bytes(xs),
    decreases xs.len() - i,
{
    if i < xs.len() {
        lemma_byte_sums_grow(xs, i + 1);
        lemma_byte_sums_nonneg(xs.take(i));
        assert(xs.take(i + 1).drop_last() =~= xs.take(i));
    } else {
        assert(xs.take(i) =~= xs);
        lemma_byte_sums_nonneg(xs);
    }
}

proof fn lemma_byte_sums_nonneg(xs: Seq<ExchangeView>)
    ensures
        request_bytes(xs) >= 0,
        response_bytes(xs) >= 0,
    decreases xs.len(),
{
    if xs.len() > 0 {
        lemma_byte_sums_nonneg(xs.drop_last());
    }
}

impl ReplayReport {
    /// `replayed N request(s), E error(s), sent S byte(s), received R byte(s)`.
    pub fn summary(&self) -> (s: String)
        requires
            request_bytes(self@.exchanges) <= usize::MAX,
            response_bytes(self@.exchanges) <= usize::MAX,
        ensures
            s@ == summary_text(self@),
    {
        let ghost xs = self@.exchanges;
        let mut bytes_in: usize = 0;
        let mut bytes_out: usize = 0;
        let mut i: usize = 0;
        while i < self.exchanges.len()
            invariant
                xs == self@.exchanges,
                i <= xs.len(),
                request_bytes(xs) <= usize::MAX,
                response_bytes(xs) <= usize::MAX,
                bytes_out == request_bytes(xs.take(i as int)),
                bytes_in == response_bytes(xs.take(i as int)),
            decreases xs.len() - i,
        {
            proof {
                lemma_byte_sums_grow(xs, i + 1);
                assert(xs.take(i + 1).drop_last() =~= xs.take(i as int));
                assert(xs[i as int] == self.exchanges@[i as int]@);
            }
            bytes_in = bytes_in + self.exchanges[i].response.len();
            bytes_out = bytes_out + self.exchanges[i].request.len();
            i = i + 1;
        }
        assert(xs.take(i as int) =~= xs);
        let mut s = String::from_str("replayed ");
        push_usize(&mut s, self.exchanges.len());
        s.append(" request(s), ");
        push_usize(&mut s, self.errors);
        s.append(" error(s), sent ");
        push_usize(&mut s, bytes_out);
        s.append(" byte(s), received ");
        push_usize(&mut s, bytes_in);
        s.append(" byte(s)");
        s
    }
}

/// The records of one session: its name and the positions, in the input,
/// of its records, in input order.
pub struct SessionView {
    pub name: Seq<char>,
    pub members: Seq<int>,
}

/// Where the session `name` stands among `gs` (`gs.len()` when absent).
pub open spec fn session_index(gs: Seq<SessionView>, name: Seq<char>) -> int
    decreases gs.len(),
{
    if gs.len() == 0 {
        0
    } else if gs[0].name == name {
        0
    } else {
        1 + session_index(gs.drop_first(), name)
    }
}

/// The records grouped by session: sessions in order of first appearance,
/// each with the positions of its records in input order.
pub open spec fn group_sessions(recs: Seq<RecordView>) -> Seq<SessionView>
    decreases recs.len(),
{
    if recs.len() == 0 {
        seq![]
    } else {
        let prev = group_sessions(recs.drop_last());
        let i = recs.len() - 1;
        let name = recs.last().session;
        let g = session_index(prev, name);
        if g < prev.len() {
            prev.update(g, SessionView { name, members: prev[g].members.push(i) })
        } else {
            prev.push(SessionView { name, members: seq![i] })
        }
    }
}

/// One session's records: its name and their positions in the input.
struct SessionGroup {
    name: String,
    members: Vec<usize>,
}

impl View for SessionGroup {
    type V = SessionView;

    closed spec fn view(&self) -> SessionView {
        SessionView { name: self.name@, members: self.members@.map_values(|u: usize| u as int) }
    }
}

spec fn group_views(gs: Seq<SessionGroup>) -> Seq<SessionView> {
    gs.map_values(|g: SessionGroup| g@)
}

proof fn lemma_session_index_bounds(gs: Seq<SessionView>, name: Seq<char>)
    ensures
        0 <= session_index(gs, name) <= gs.len(),
        session_index(gs, name) < gs.len() ==> gs[session_index(gs, name)].name == name,
        session_index(gs, name) == gs.len() ==> forall|g: int|
            0 <= g < gs.len() ==> #[trigger] gs[g].name != name,
    decreases gs.len(),
{
    if gs.len() > 0 && gs[0].name != name {
        lemma_session_index_bounds(gs.drop_first(), name);
        if session_index(gs, name) == gs.len() {
            assert forall|g: int| 0 <= g < gs.len() implies #[trigger] gs[g].name != name by {
                if g > 0 {
                    assert(gs[g] == gs.drop_first()[g - 1]);
                }
            }
        }
    }
}

proof fn lemma_session_index_first(gs: Seq<SessionView>, name: Seq<char>, j: int)
    requires
        0 <= j <= gs.len(),
        forall|g: int| 0 <= g < j ==> #[trigger] gs[g].name != name,
        j < gs.len() ==> gs[j].name == name,
    ensures
        session_index(gs, name) == j,
    decreases j,
{
    if j > 0 {
        assert forall|g: int| 0 <= g < j - 1 implies #[trigger] gs.drop_first()[g].name != name by {
            assert(gs.drop_first()[g] == gs[g + 1]);
        }
        lemma_session_index_first(gs.drop_first(), name, j - 1);
    }
}

/// Groups the records by session (see `group_sessions`).
fn group_by_session(records: &[Record]) -> (groups: Vec<SessionGroup>)
    ensures
        group_views(groups@) == group_sessions(record_views(records@)),
{
    let ghost recs = record_views(records@);
    let mut groups: Vec<SessionGroup> = Vec::new();
    let mut i: usize = 0;
    assert(recs.take(0) =~= Seq::<RecordView>::empty());
    assert(group_views(groups@) =~= Seq::<SessionView>::empty());
    while i < records.len()
        invariant
            i <= records@.len(),
            recs == record_views(records@),
            group_views(groups@) == group_sessions(recs.take(i as int)),
        decreases records@.len() - i,
    {
        let ghost prev = group_views(groups@);
        let name = &records[i].session;
        let mut j: usize = 0;
        while j < groups.len() && groups[j].name != *name
            invariant
                j <= groups@.len(),
                prev == group_views(groups@),
                forall|g: int| 0 <= g < j ==> #[trigger] prev[g].name != name@,
            decreases groups@.len() - j,
        {
            j = j + 1;
        }
        proof {
            lemma_session_index_first(prev, name@, j as int);
            assert(recs.take(i + 1).drop_last() =~= recs.take(i as int));
            assert(recs.take(i + 1).last() == records@[i as int]@);
        }
        if j < groups.len() {
            let mut g = groups.remove(j);
            g.members.push(i);
            let ghost gv = g@;
            groups.insert(j, g);
            proof {
                assert(gv.members =~= prev[j as int].members.push(i as int));
                assert(group_views(groups@) =~= prev.update(
                    j as int,
                    SessionView { name: name@, members: prev[j as int].members.push(i as int) },
                ));
            }
        } else {
            let mut members: Vec<usize> = Vec::new();
            members.push(i);
            let g = SessionGroup { name: name.clone(), members };
            proof {
                assert(g@.members =~= seq![i as int]);
            }
            groups.push(g);
            assert(group_views(groups@) =~= prev.push(
                SessionView { name: name@, members: seq![i as int] },
            ));
        }
        i = i + 1;
    }
    assert(recs.take(i as int) =~= recs);
    groups
}

} // verus!

verus! {

/// How many bytes one read asks for; a shorter read ends the response.
pub const READ_CHUNK: usize = 4096;

/// The longest pause before a request when timing is preserved (2 s).
pub const MAX_PAUSE_NANOS: u64 = 2_000_000_000;

/// Where a replay run stands.
#[derive(Debug, Clone, Copy, PartialEq, Eq, Structural)]
pub enum Phase {
    /// Nothing has happened yet.
    Idle,
    /// Waiting for the connection of the current session.
    Connecting,
    /// Waiting for the pause before the current request to pass.
    Pausing,
    /// Waiting for the current request to be written.
    Sending,
    /// Collecting the response to the current request.
    Receiving,
    /// Every session has been replayed.
    Finished,
}

/// What the caller is to do next.
#[derive(Debug)]
pub enum Action {
    /// Open a connection to the target for the current session (dropping
    /// any earlier one).
    Connect,
    /// Sleep this many nanoseconds.
    Sleep { nanos: u64 },
    /// Write these bytes to the connection, then flush it.
    Send { payload: Vec<u8> },
    /// Read once from the connection, at most `READ_CHUNK` bytes.
    Receive,
    /// Stop: the report is complete.
    Finish,
}

/// What happened, as the caller reports it.
#[derive(Debug)]
pub enum Event {
    /// The run begins.
    Start,
    /// The connection is open.
    Connected,
    /// The connection failed; `reason` is the error's text.
    ConnectFailed { reason: String },
    /// The pause is over.
    Slept,
    /// The request was written (and flushed).
    Sent,
    /// Writing failed; `reason` is the error's text.
    SendFailed { reason: String },
    /// A read returned `data` (empty at end of stream); `elapsed_nanos` is
    /// the time since the request was sent.
    Received { data: Vec<u8>, elapsed_nanos: u128 },
    /// A read failed or timed out.
    ReceiveFailed,
}

pub enum ActionView {
    Connect,
    Sleep(int),
    Send(Seq<u8>),
    Receive,
    Finish,
}

pub enum EventView {
    Start,
    Connected,
    ConnectFailed(Seq<char>),
    Slept,
    Sent,
    SendFailed(Seq<char>),
    Received(Seq<u8>, int),
    ReceiveFailed,
}

impl View for Action {
    type V = ActionView;

    open spec fn view(&self) -> ActionView {
        match self {
            Action::Connect => ActionView::Connect,
            Action::Sleep { nanos } => ActionView::Sleep(*nanos as int),
            Action::Send { payload } => ActionView::Send(payload@),
            Action::Receive => ActionView::Receive,
            Action::Finish => ActionView::Finish,
        }
    }
}

impl View for Event {
    type V = EventView;

    open spec fn view(&self) -> EventView {
        match self {
            Event::Start => EventView::Start,
            Event::Connected => EventView::Connected,
            Event::ConnectFailed { reason } => EventView::ConnectFailed(reason@),
            Event::Slept => EventView::Slept,
            Event::Sent => EventView::Sent,
            Event::SendFailed { reason } => EventView::SendFailed(reason@),
            Event::Received { data, elapsed_nanos } => EventView::Received(
                data@,
                *elapsed_nanos as int,
            ),
            Event::ReceiveFailed => EventView::ReceiveFailed,
        }
    }
}

/// A replay run in progress, as mathematical values.
pub struct ReplayerView {
    pub records: Seq<RecordView>,
    pub sessions: Seq<SessionView>,
    pub target: Seq<char>,
    pub preserve_timing: bool,
    pub max_wait_nanos: u128,
    pub phase: Phase,
    /// The current session.
    pub group: int,
    /// The position, within the current session, of the current request.
    pub pos: int,
    /// The pause before the current request, in nanoseconds.
    pub pause: int,
    /// The exchange of the current request.
    pub pending: ExchangeView,
    pub report: ReportView,
}

/// The record at position `p` of session `g`.
pub open spec fn member(v: ReplayerView, g: int, p: int) -> RecordView {
    v.records[v.sessions[g].members[p]]
}

/// The first position at or after `p` in session `g` that holds a request
/// (the session's length when there is none).
pub open spec fn next_request(v: ReplayerView, g: int, p: int) -> int
    decreases v.sessions[g].members.len() - p,
{
    if p >= v.sessions[g].members.len() {
        v.sessions[g].members.len() as int
    } else if member(v, g, p).dir == Direction::Request {
        p
    } else {
        next_request(v, g, p + 1)
    }
}

/// The pause before the request at position `q` of session `g`: when timing
/// is preserved, the time since the record before it in the same session,
/// if that is positive, capped at 2 s; otherwise none.
pub open spec fn pause_before(v: ReplayerView, g: int, q: int) -> int {
    if v.preserve_timing && q > 0 {
        let gap = member(v, g, q).ts_nanos - member(v, g, q - 1).ts_nanos;
        if gap <= 0 {
            0
        } else if gap > MAX_PAUSE_NANOS {
            MAX_PAUSE_NANOS as int
        } else {
            gap
        }
    } else {
        0
    }
}

/// No exchange in progress.
pub open spec fn no_exchange() -> ExchangeView {
    ExchangeView { session: seq![], request: seq![], response: seq![], error: None }
}

/// Moving on to session `g`: connect to it, or finish when there is none.
pub open spec fn begin_session(v: ReplayerView, g: int) -> (ReplayerView, ActionView) {
    if g < v.sessions.len() {
        (
            ReplayerView {
                phase: Phase::Connecting,
                group: g,
                pos: 0,
                pending: no_exchange(),
                ..v
            },
            ActionView::Connect,
        )
    } else {
        (
            ReplayerView { phase: Phase::Finished, group: g, pos: 0, pending: no_exchange(), ..v },
            ActionView::Finish,
        )
    }
}

/// Moving on to the first request at or after position `p` of session `g`:
/// pause before it if there is a pause, else send it; past the session's
/// last request, the next session begins.
pub open spec fn begin_request(v: ReplayerView, g: int, p: int) -> (ReplayerView, ActionView) {
    let q = next_request(v, g, p);
    if q >= v.sessions[g].members.len() {
        begin_session(v, g + 1)
    } else {
        let payload = member(v, g, q).payload;
        let pause = pause_before(v, g, q);
        let pending = ExchangeView {
            session: v.sessions[g].name,
            request: payload,
            response: seq![],
            error: None,
        };
        if pause > 0 {
            (
                ReplayerView { phase: Phase::Pausing, group: g, pos: q, pause, pending, ..v },
                ActionView::Sleep(pause),
            )
        } else {
            (
                ReplayerView { phase: Phase::Sending, group: g, pos: q, pause, pending, ..v },
                ActionView::Send(payload),
            )
        }
    }
}

/// The report with one more exchange, and no exchange in progress.
pub open spec fn with_exchange(v: ReplayerView, x: ExchangeView) -> ReplayerView {
    ReplayerView {
        pending: no_exchange(),
        report: ReportView {
            exchanges: v.report.exchanges.push(x),
            errors: v.report.errors + if x.error is Some {
                1int
            } else {
                0
            },
        },
        ..v
    }
}

/// The action a state waits on, repeated when an event does not fit it
/// (a run that has not started waits on none; `Finish` stands there).
pub open spec fn awaited_action(v: ReplayerView) -> ActionView {
    match v.phase {
        Phase::Idle => ActionView::Finish,
        Phase::Connecting => ActionView::Connect,
        Phase::Pausing => ActionView::Sleep(v.pause),
        Phase::Sending => ActionView::Send(v.pending.request),
        Phase::Receiving => ActionView::Receive,
        Phase::Finished => ActionView::Finish,
    }
}

/// One step of a replay run: the next state and action after event `e`.
///
/// A failed connection records an exchange with no request and the error
/// `connect <target>: <reason>`, and the run moves to the next session; a
/// failed write records the request with the error `write: <reason>` and
/// ends the session. A read adds its bytes to the response; the response is
/// complete after a failed read, a read shorter than `READ_CHUNK`, or a full
/// read once `max_wait_nanos` have passed since the request was sent. The first
/// event, whatever it is, starts the run; after that, an event that does not
/// fit the state changes nothing and the awaited action is asked again.
pub open spec fn step_spec(v: ReplayerView, e: EventView) -> (ReplayerView, ActionView) {
    match v.phase {
        Phase::Idle => begin_session(v, 0),
        Phase::Connecting => match e {
            EventView::Connected => begin_request(v, v.group, 0),
            EventView::ConnectFailed(reason) => begin_session(
                with_exchange(
                    v,
                    ExchangeView {
                        session: v.sessions[v.group].name,
                        request: seq![],
                        response: seq![],
                        error: Some("connect "@ + v.target + ": "@ + reason),
                    },
                ),
                v.group + 1,
            ),
            _ => (v, awaited_action(v)),
        },
        Phase::Pausing => match e {
            EventView::Slept => (
                ReplayerView { phase: Phase::Sending, ..v },
                ActionView::Send(v.pending.request),
            ),
            _ => (v, awaited_action(v)),
        },
        Phase::Sending => match e {
            EventView::Sent => (ReplayerView { phase: Phase::Receiving, ..v }, ActionView::Receive),
            EventView::SendFailed(reason) => begin_session(
                with_exchange(
                    v,
                    ExchangeView { error: Some("write: "@ + reason), ..v.pending },
                ),
                v.group + 1,
            ),
            _ => (v, awaited_action(v)),
        },
        Phase::Receiving => match e {
            EventView::Received(data, elapsed) => {
                let pending = ExchangeView { response: v.pending.response + data, ..v.pending };
                if data.len() < READ_CHUNK || elapsed >= v.max_wait_nanos {
                    begin_request(with_exchange(v, pending), v.group, v.pos + 1)
                } else {
                    (ReplayerView { pending, ..v }, ActionView::Receive)
                }
            },
            EventView::ReceiveFailed => begin_request(
                with_exchange(v, v.pending),
                v.group,
                v.pos + 1,
            ),
            _ => (v, awaited_action(v)),
        },
        Phase::Finished => (v, ActionView::Finish),
    }
}

/// The session an exchange belongs to: where its name stands among the
/// sessions.
pub open spec fn owner(v: ReplayerView, x: ExchangeView) -> int {
    session_index(v.sessions, x.session)
}

/// What holds of a run in every phase: the sessions are the records'
/// grouping, the report counts its errors, every exchange names a session,
/// the exchanges come session by session in session order, and an exchange
/// with an error is the last of its session.
pub open spec fn wf_core(v: ReplayerView) -> bool {
    let xs = v.report.exchanges;
    &&& v.sessions == group_sessions(v.records)
    &&& forall|g: int, p: int|
        0 <= g < v.sessions.len() && 0 <= p < v.sessions[g].members.len() ==> 0
            <= #[trigger] v.sessions[g].members[p] < v.records.len()
    &&& v.report.errors == error_count(xs)
    &&& forall|i: int| 0 <= i < xs.len() ==> 0 <= #[trigger] owner(v, xs[i]) < v.sessions.len()
    &&& forall|i: int, j: int|
        0 <= i < j < xs.len() ==> #[trigger] owner(v, xs[i]) <= #[trigger] owner(v, xs[j])
    &&& forall|i: int, j: int|
        0 <= i < j < xs.len() && (#[trigger] xs[i]).error is Some ==> owner(v, xs[i]) < owner(
            v,
            #[trigger] xs[j],
        )
}

/// Everything recorded so far belongs to the sessions before `g`, or to
/// session `g` without an error; so there are at most `g` errors.
pub open spec fn recorded_before(v: ReplayerView, g: int) -> bool {
    let xs = v.report.exchanges;
    &&& v.report.errors <= g
    &&& forall|i: int| 0 <= i < xs.len() ==> #[trigger] owner(v, xs[i]) <= g
    &&& forall|i: int|
        0 <= i < xs.len() && (#[trigger] xs[i]).error is Some ==> owner(v, xs[i]) < g
}

/// A well-formed run: `wf_core`, and the current positions are valid for
/// the phase.
pub open spec fn wf_view(v: ReplayerView) -> bool {
    &&& wf_core(v)
    &&& v.phase == Phase::Idle ==> v.report.exchanges.len() == 0
    &&& v.phase == Phase::Connecting ==> 0 <= v.group < v.sessions.len() && recorded_before(
        v,
        v.group,
    )
    &&& v.phase == Phase::Finished ==> 0 <= v.group <= v.sessions.len() && recorded_before(
        v,
        v.group,
    )
    &&& (v.phase == Phase::Pausing || v.phase == Phase::Sending || v.phase == Phase::Receiving)
        ==> {
        &&& 0 <= v.group < v.sessions.len()
        &&& recorded_before(v, v.group)
        &&& 0 <= v.pos < v.sessions[v.group].members.len()
        &&& member(v, v.group, v.pos).dir == Direction::Request
        &&& v.pending.session == v.sessions[v.group].name
        &&& v.pending.request == member(v, v.group, v.pos).payload
        &&& v.pending.error is None
        &&& v.phase != Phase::Receiving ==> v.pending.response == Seq::<u8>::empty()
        &&& v.phase == Phase::Pausing ==> 0 < v.pause <= MAX_PAUSE_NANOS && v.preserve_timing
    }
}

} // verus!

verus! {

proof fn lemma_next_request(v: ReplayerView, g: int, p: int)
    requires
        0 <= g < v.sessions.len(),
        0 <= p <= v.sessions[g].members.len(),
    ensures
        p <= next_request(v, g, p) <= v.sessions[g].members.len(),
        next_request(v, g, p) < v.sessions[g].members.len() ==> member(
            v,
            g,
            next_request(v, g, p),
        ).dir == Direction::Request,
        forall|k: int|
            p <= k < next_request(v, g, p) ==> #[trigger] member(v, g, k).dir
                != Direction::Request,
    decreases v.sessions[g].members.len() - p,
{
    if p < v.sessions[g].members.len() && member(v, g, p).dir != Direction::Request {
        lemma_next_request(v, g, p + 1);
    }
}

proof fn lemma_error_count_push(xs: Seq<ExchangeView>, x: ExchangeView)
    ensures
        error_count(xs.push(x)) == error_count(xs) + if x.error is Some {
            1int
        } else {
            0
        },
{
    assert(xs.push(x).drop_last() =~= xs);
}

proof fn lemma_error_count_bound(xs: Seq<ExchangeView>)
    ensures
        0 <= error_count(xs) <= xs.len(),
    decreases xs.len(),
{
    if xs.len() > 0 {
        lemma_error_count_bound(xs.drop_last());
    }
}

proof fn lemma_owner_of_session(v: ReplayerView, g: int)
    requires
        v.sessions == group_sessions(v.records),
        0 <= g < v.sessions.len(),
    ensures
        session_index(v.sessions, v.sessions[g].name) == g,
{
    law_grouping(v.records);
    lemma_session_index_first(v.sessions, v.sessions[g].name, g);
}

proof fn lemma_same_run(v: ReplayerView, w: ReplayerView, g: int)
    requires
        w.records == v.records,
        w.sessions == v.sessions,
        w.report == v.report,
    ensures
        wf_core(v) ==> wf_core(w),
        recorded_before(v, g) ==> recorded_before(w, g),
{
    assert forall|x: ExchangeView| owner(w, x) == owner(v, x) by {}
}

proof fn lemma_recorded_before_grows(v: ReplayerView, g: int, h: int)
    requires
        recorded_before(v, g),
        g <= h,
    ensures
        recorded_before(v, h),
{
}

/// Recording an exchange of session `g` keeps the run's core invariant.
proof fn lemma_with_exchange(v: ReplayerView, g: int, x: ExchangeView)
    requires
        wf_core(v),
        recorded_before(v, g),
        0 <= g < v.sessions.len(),
        x.session == v.sessions[g].name,
    ensures
        wf_core(with_exchange(v, x)),
        x.error is None ==> recorded_before(with_exchange(v, x), g),
        x.error is Some ==> recorded_before(with_exchange(v, x), g + 1),
{
    let w = with_exchange(v, x);
    let xs = v.report.exchanges;
    let ys = w.report.exchanges;
    lemma_owner_of_session(v, g);
    lemma_error_count_push(xs, x);
    lemma_error_count_bound(xs);
    assert(owner(w, x) == g);
    assert forall|i: int| 0 <= i < ys.len() implies 0 <= #[trigger] owner(w, ys[i]) < w.sessions.len() by {
        if i < xs.len() {
            assert(ys[i] == xs[i]);
        } else {
            assert(ys[i] == x);
        }
    }
    assert forall|i: int, j: int| 0 <= i < j < ys.len() implies #[trigger] owner(w, ys[i])
        <= #[trigger] owner(w, ys[j]) by {
        assert(ys[i] == xs[i]);
        assert(owner(w, ys[i]) == owner(v, xs[i]));
        if j < xs.len() {
            assert(ys[j] == xs[j]);
            assert(owner(w, ys[j]) == owner(v, xs[j]));
        } else {
            assert(ys[j] == x);
        }
    }
    assert forall|i: int, j: int|
        0 <= i < j < ys.len() && (#[trigger] ys[i]).error is Some implies owner(w, ys[i]) < owner(
        w,
        #[trigger] ys[j],
    ) by {
        assert(ys[i] == xs[i]);
        if j < xs.len() {
            assert(ys[j] == xs[j]);
        } else {
            assert(ys[j] == x);
        }
    }
    assert forall|i: int| 0 <= i < ys.len() implies #[trigger] owner(w, ys[i]) <= g + 1 && (ys[i].error
        is None || x.error is Some || owner(w, ys[i]) < g) && (ys[i].error is Some ==> owner(w, ys[i])
        < g + 1) by {
        if i < xs.len() {
            assert(ys[i] == xs[i]);
        } else {
            assert(ys[i] == x);
        }
    }
}

proof fn lemma_begin_session_wf(v: ReplayerView, g: int)
    requires
        wf_core(v),
        recorded_before(v, g),
        0 <= g <= v.sessions.len(),
    ensures
        wf_view(begin_session(v, g).0),
{
    lemma_same_run(v, begin_session(v, g).0, g);
}

proof fn lemma_begin_request_wf(v: ReplayerView, g: int, p: int)
    requires
        wf_core(v),
        recorded_before(v, g),
        0 <= g < v.sessions.len(),
        0 <= p <= v.sessions[g].members.len(),
    ensures
        wf_view(begin_request(v, g, p).0),
{
    lemma_next_request(v, g, p);
    lemma_recorded_before_grows(v, g, g + 1);
    lemma_begin_session_wf(v, g + 1);
    lemma_same_run(v, begin_request(v, g, p).0, g);
}

/// Every step keeps a run well formed (see `wf_core` and `wf_view`): the
/// report's error count equals the number of exchanges that carry an error,
/// exchanges come session by session, an error ends its session's
/// exchanges, and a request in progress is a request record of the current
/// session.
pub proof fn law_step_keeps_wf(v: ReplayerView, e: EventView)
    requires
        wf_view(v),
    ensures
        wf_view(step_spec(v, e).0),
{
    match v.phase {
        Phase::Idle => {
            assert(error_count(v.report.exchanges) == 0);
            assert(recorded_before(v, 0));
            lemma_begin_session_wf(v, 0);
        },
        Phase::Connecting => match e {
            EventView::Connected => lemma_begin_request_wf(v, v.group, 0),
            EventView::ConnectFailed(reason) => {
                let x = ExchangeView {
                    session: v.sessions[v.group].name,
                    request: seq![],
                    response: seq![],
                    error: Some("connect "@ + v.target + ": "@ + reason),
                };
                lemma_with_exchange(v, v.group, x);
                lemma_begin_session_wf(with_exchange(v, x), v.group + 1);
            },
            _ => {},
        },
        Phase::Pausing => {
            lemma_same_run(v, ReplayerView { phase: Phase::Sending, ..v }, v.group);
        },
        Phase::Sending => match e {
            EventView::Sent => {
                lemma_same_run(v, ReplayerView { phase: Phase::Receiving, ..v }, v.group);
            },
            EventView::SendFailed(reason) => {
                let x = ExchangeView { error: Some("write: "@ + reason), ..v.pending };
                lemma_with_exchange(v, v.group, x);
                lemma_begin_session_wf(with_exchange(v, x), v.group + 1);
            },
            _ => {},
        },
        Phase::Receiving => match e {
            EventView::Received(data, elapsed) => {
                let pending = ExchangeView { response: v.pending.response + data, ..v.pending };
                lemma_with_exchange(v, v.group, pending);
                if data.len() < READ_CHUNK || elapsed >= v.max_wait_nanos {
                    lemma_begin_request_wf(with_exchange(v, pending), v.group, v.pos + 1);
                } else {
                    lemma_same_run(v, ReplayerView { pending, ..v }, v.group);
                }
            },
            EventView::ReceiveFailed => {
                lemma_with_exchange(v, v.group, v.pending);
                lemma_begin_request_wf(with_exchange(v, v.pending), v.group, v.pos + 1);
            },
            _ => {},
        },
        Phase::Finished => {},
    }
}

/// Only request records are ever sent, and a pause happens only when timing
/// is preserved and lasts at most 2 s.
pub proof fn law_sends_requests_only(v: ReplayerView, e: EventView)
    requires
        wf_view(v),
    ensures
        ({
            let (w, a) = step_spec(v, e);
            &&& a matches ActionView::Send(p) ==> w.phase == Phase::Sending && p == member(
                w,
                w.group,
                w.pos,
            ).payload && member(w, w.group, w.pos).dir == Direction::Request
            &&& a matches ActionView::Sleep(n) ==> v.preserve_timing && 0 < n <= MAX_PAUSE_NANOS
        }),
{
    law_step_keeps_wf(v, e);
    let w = step_spec(v, e).0;
    match step_spec(v, e).1 {
        ActionView::Send(p) => {
            assert(w.phase == Phase::Sending);
        },
        ActionView::Sleep(n) => {
            assert(w.phase == Phase::Pausing);
        },
        _ => {},
    }
}

} // verus!

verus! {

/// A replay run: the records grouped by session, the configuration, where
/// the run stands, and the report so far.
pub struct Replayer<'a> {
    records: &'a [Record],
    sessions: Vec<SessionGroup>,
    target: String,
    preserve_timing: bool,
    max_wait_nanos: u128,
    phase: Phase,
    group: usize,
    pos: usize,
    pause: u64,
    pending: Exchange,
    report: ReplayReport,
}

impl<'a> View for Replayer<'a> {
    type V = ReplayerView;

    closed spec fn view(&self) -> ReplayerView {
        ReplayerView {
            records: record_views(self.records@),
            sessions: group_views(self.sessions@),
            target: self.target@,
            preserve_timing: self.preserve_timing,
            max_wait_nanos: self.max_wait_nanos,
            phase: self.phase,
            group: self.group as int,
            pos: self.pos as int,
            pause: self.pause as int,
            pending: self.pending@,
            report: self.report@,
        }
    }
}

/// The state of a run before its first step.
pub open spec fn initial_view(records: Seq<RecordView>, cfg: ReplayConfig) -> ReplayerView {
    ReplayerView {
        records,
        sessions: group_sessions(records),
        target: cfg.target@,
        preserve_timing: cfg.preserve_timing,
        max_wait_nanos: cfg.max_wait_nanos,
        phase: Phase::Idle,
        group: 0,
        pos: 0,
        pause: 0,
        pending: no_exchange(),
        report: ReportView { exchanges: seq![], errors: 0 },
    }
}

fn empty_exchange() -> (x: Exchange)
    ensures
        x@ == (ExchangeView { session: seq![], request: seq![], response: seq![], error: None }),
{
    let x = Exchange { session: String::new(), request: Vec::new(), response: Vec::new(), error: None };
    assert(x@.request =~= Seq::<u8>::empty());
    assert(x@.response =~= Seq::<u8>::empty());
    x
}

fn copy_bytes(v: &Vec<u8>) -> (r: Vec<u8>)
    ensures
        r@ == v@,
{
    let mut r: Vec<u8> = Vec::new();
    let mut i: usize = 0;
    while i < v.len()
        invariant
            i <= v@.len(),
            r@ == v@.take(i as int),
        decreases v@.len() - i,
    {
        r.push(v[i]);
        i = i + 1;
        assert(r@ =~= v@.take(i as int));
    }
    assert(v@.take(i as int) =~= v@);
    r
}

proof fn lemma_group_members_valid(recs: Seq<RecordView>)
    ensures
        forall|g: int, p: int|
            0 <= g < group_sessions(recs).len() && 0 <= p < group_sessions(recs)[g].members.len()
                ==> 0 <= #[trigger] group_sessions(recs)[g].members[p] < recs.len(),
    decreases recs.len(),
{
    if recs.len() > 0 {
        let prev = group_sessions(recs.drop_last());
        lemma_group_members_valid(recs.drop_last());
        lemma_session_index_bounds(prev, recs.last().session);
        let gs = group_sessions(recs);
        assert forall|g: int, p: int|
            0 <= g < gs.len() && 0 <= p < gs[g].members.len() implies 0 <= #[trigger] gs[g].members[p]
            < recs.len() by {
            if g < prev.len() && p < prev[g].members.len() {
                assert(gs[g].members[p] == prev[g].members[p]);
            }
        }
    }
}

/// Replay all request records grouped by session against `cfg.target`: the
/// run starts here, and `Replayer::step` drives it. Sessions come in order
/// of first appearance, each with its records in input order.
pub fn replay<'a>(records: &'a [Record], cfg: &ReplayConfig) -> (r: Replayer<'a>)
    ensures
        r.inv(),
        wf_view(r@),
        r@ == initial_view(record_views(records@), *cfg),
{
    let sessions = group_by_session(records);
    let r = Replayer {
        records,
        sessions,
        target: cfg.target.clone(),
        preserve_timing: cfg.preserve_timing,
        max_wait_nanos: cfg.max_wait_nanos,
        phase: Phase::Idle,
        group: 0,
        pos: 0,
        pause: 0,
        pending: empty_exchange(),
        report: ReplayReport::default(),
    };
    proof {
        lemma_group_members_valid(record_views(records@));
        assert(r@.report.exchanges =~= Seq::<ExchangeView>::empty());
    }
    r
}

impl<'a> Replayer<'a> {
    /// The run's internal consistency.
    pub closed spec fn inv(&self) -> bool {
        &&& wf_view(self@)
        &&& self.group <= self.sessions@.len()
    }

    /// Where the run stands.
    pub fn phase(&self) -> (p: Phase)
        ensures
            p == self@.phase,
    {
        self.phase
    }

    /// The report so far (complete once the run has finished).
    pub fn report(&self) -> (r: &ReplayReport)
        ensures
            r@ == self@.report,
    {
        &self.report
    }

    /// The report, taking the run apart.
    pub fn into_report(self) -> (r: ReplayReport)
        ensures
            r@ == self@.report,
    {
        self.report
    }

    fn add_exchange(&mut self, x: Exchange)
        requires
            wf_core(old(self)@),
            recorded_before(old(self)@, old(self).group as int),
            old(self).group < old(self).sessions@.len(),
            x@.session == old(self)@.sessions[old(self).group as int].name,
        ensures
            final(self)@ == with_exchange(old(self)@, x@),
            wf_core(final(self)@),
            x@.error is None ==> recorded_before(final(self)@, final(self).group as int),
            x@.error is Some ==> recorded_before(final(self)@, final(self).group + 1),
            final(self).group == old(self).group,
            final(self).pos == old(self).pos,
            final(self).sessions@ == old(self).sessions@,
    {
        let ghost before = self.report@;
        proof {
            lemma_with_exchange(self@, self.group as int, x@);
            lemma_error_count_bound(before.exchanges);
        }
        let has_error = x.error.is_some();
        self.report.exchanges.push(x);
        self.pending = empty_exchange();
        assert(self.report@.exchanges =~= before.exchanges.push(x@));
        if has_error {
            let count = self.report.exchanges.len();
            assert(self.report.errors < count);
            self.report.errors = self.report.errors + 1;
        }
    }

    fn begin_session(&mut self, g: usize) -> (a: Action)
        requires
            wf_core(old(self)@),
            recorded_before(old(self)@, g as int),
            g <= old(self).sessions@.len(),
        ensures
            (final(self)@, a@) == begin_session(old(self)@, g as int),
            final(self).inv(),
    {
        proof {
            lemma_begin_session_wf(self@, g as int);
        }
        self.group = g;
        self.pos = 0;
        self.pending = empty_exchange();
        if g < self.sessions.len() {
            self.phase = Phase::Connecting;
            Action::Connect
        } else {
            self.phase = Phase::Finished;
            Action::Finish
        }
    }

    fn begin_request(&mut self, g: usize, p: usize) -> (a: Action)
        requires
            wf_core(old(self)@),
            recorded_before(old(self)@, g as int),
            g < old(self).sessions@.len(),
            p <= old(self)@.sessions[g as int].members.len(),
        ensures
            (final(self)@, a@) == begin_request(old(self)@, g as int, p as int),
            final(self).inv(),
    {
        let ghost v = self@;
        proof {
            lemma_next_request(v, g as int, p as int);
            lemma_begin_request_wf(v, g as int, p as int);
        }
        let mut q = p;
        let n = self.sessions[g].members.len();
        assert(self.sessions@[g as int]@ == v.sessions[g as int]);
        while q < n && self.records[self.sessions[g].members[q]].dir != Direction::Request
            invariant
                v == self@,
                g < self.sessions@.len(),
                n == v.sessions[g as int].members.len(),
                self.sessions@[g as int]@ == v.sessions[g as int],
                p <= q <= n,
                next_request(v, g as int, p as int) == next_request(v, g as int, q as int),
                wf_core(v),
                recorded_before(v, g as int),
            decreases n - q,
        {
            assert(self.records@[self.sessions@[g as int].members@[q as int] as int]@ == member(
                v,
                g as int,
                q as int,
            ));
            q = q + 1;
        }
        if q < n {
            assert(self.records@[self.sessions@[g as int].members@[q as int] as int]@ == member(
                v,
                g as int,
                q as int,
            ));
        }
        if q >= n {
            proof {
                lemma_recorded_before_grows(v, g as int, g + 1);
            }
            let ns = self.sessions.len();
            assert(g < ns);
            return self.begin_session(g + 1);
        }
        let idx = self.sessions[g].members[q];
        let rec = &self.records[idx];
        assert(rec@ == member(v, g as int, q as int));
        let mut pause: u64 = 0;
        if self.preserve_timing && q > 0 {
            let prev = &self.records[self.sessions[g].members[q - 1]];
            assert(prev@ == member(v, g as int, q - 1));
            let gap: i128 = (rec.ts_nanos as i128) - (prev.ts_nanos as i128);
            if gap > 0 {
                pause = if gap > MAX_PAUSE_NANOS as i128 {
                    MAX_PAUSE_NANOS
                } else {
                    gap as u64
                };
            }
        }
        let session = self.sessions[g].name.clone();
        let request = copy_bytes(&rec.payload);
        let action_payload = copy_bytes(&rec.payload);
        self.pending = Exchange { session, request, response: Vec::new(), error: None };
        assert(self.pending@.response =~= Seq::<u8>::empty());
        self.group = g;
        self.pos = q;
        self.pause = pause;
        if pause > 0 {
            self.phase = Phase::Pausing;
            Action::Sleep { nanos: pause }
        } else {
            self.phase = Phase::Sending;
            Action::Send { payload: action_payload }
        }
    }

    /// Takes what happened and says what to do next (see `step_spec`).
    pub fn step(&mut self, event: Event) -> (a: Action)
        requires
            old(self).inv(),
        ensures
            final(self).inv(),
            wf_view(final(self)@),
            (final(self)@, a@) == step_spec(old(self)@, event@),
    {
        let ghost v = self@;
        let ghost e = event@;
        proof {
            law_step_keeps_wf(v, e);
        }
        match self.phase {
            Phase::Idle => self.begin_session(0),
            Phase::Connecting => match event {
                Event::Connected => self.begin_request(self.group, 0),
                Event::ConnectFailed { reason } => {
                    let mut msg = String::from_str("connect ");
                    msg.append(self.target.as_str());
                    msg.append(": ");
                    msg.append(reason.as_str());
                    let x = Exchange {
                        session: self.sessions[self.group].name.clone(),
                        request: Vec::new(),
                        response: Vec::new(),
                        error: Some(msg),
                    };
                    proof {
                        assert(x@.request =~= Seq::<u8>::empty());
                        assert(x@.response =~= Seq::<u8>::empty());
                        assert(self.sessions@[self.group as int]@ == v.sessions[self.group as int]);
                    }
                    let ns = self.sessions.len();
                    assert(self.group < ns);
                    self.add_exchange(x);
                    self.begin_session(self.group + 1)
                },
                _ => Action::Connect,
            },
            Phase::Pausing => match event {
                Event::Slept => {
                    self.phase = Phase::Sending;
                    Action::Send { payload: copy_bytes(&self.pending.request) }
                },
                _ => Action::Sleep { nanos: self.pause },
            },
            Phase::Sending => match event {
                Event::Sent => {
                    self.phase = Phase::Receiving;
                    Action::Receive
                },
                Event::SendFailed { reason } => {
                    let mut msg = String::from_str("write: ");
                    msg.append(reason.as_str());
                    let mut x = empty_exchange();
                    core::mem::swap(&mut x, &mut self.pending);
                    x.error = Some(msg);
                    proof {
                        lemma_same_run(v, self@, self.group as int);
                    }
                    let ns = self.sessions.len();
                    assert(self.group < ns);
                    self.add_exchange(x);
                    self.begin_session(self.group + 1)
                },
                _ => Action::Send { payload: copy_bytes(&self.pending.request) },
            },
            Phase::Receiving => match event {
                Event::Received { data, elapsed_nanos } => {
                    let mut i: usize = 0;
                    let ghost start = self.pending@.response;
                    while i < data.len()
                        invariant
                            i <= data@.len(),
                            start == v.pending.response,
                            self.pending@.response == start + data@.take(i as int),
                            self@ == (ReplayerView {
                                pending: ExchangeView { response: self.pending@.response, ..v.pending },
                                ..v
                            }),
                            self.group <= self.sessions@.len(),
                        decreases data@.len() - i,
                    {
                        self.pending.response.push(data[i]);
                        i = i + 1;
                        assert(self.pending@.response =~= start + data@.take(i as int));
                    }
                    assert(data@.take(i as int) =~= data@);
                    if data.len() < READ_CHUNK || elapsed_nanos >= self.max_wait_nanos {
                        let nm = self.sessions[self.group].members.len();
                        assert(self.sessions@[self.group as int]@ == v.sessions[self.group as int]);
                        assert(self.pos < nm);
                        let mut x = empty_exchange();
                        core::mem::swap(&mut x, &mut self.pending);
                        proof {
                            lemma_same_run(v, self@, self.group as int);
                        }
                        self.add_exchange(x);
                        self.begin_request(self.group, self.pos + 1)
                    } else {
                        Action::Receive
                    }
                },
                Event::ReceiveFailed => {
                    let nm = self.sessions[self.group].members.len();
                    assert(self.sessions@[self.group as int]@ == v.sessions[self.group as int]);
                    assert(self.pos < nm);
                    let mut x = empty_exchange();
                    core::mem::swap(&mut x, &mut self.pending);
                    proof {
                        lemma_same_run(v, self@, self.group as int);
                    }
                    self.add_exchange(x);
                    self.begin_request(self.group, self.pos + 1)
                },
                _ => Action::Receive,
            },
            Phase::Finished => Action::Finish,
        }
    }
}

} // verus!

verus! {

proof fn lemma_session_index_first_is_first(gs: Seq<SessionView>, name: Seq<char>, g: int)
    requires
        0 <= g < session_index(gs, name),
    ensures
        gs[g].name != name,
    decreases gs.len(),
{
    lemma_session_index_bounds(gs, name);
    if g > 0 {
        lemma_session_index_first_is_first(gs.drop_first(), name, g - 1);
        assert(gs[g] == gs.drop_first()[g - 1]);
    }
}

/// Grouping by session is a partition of the records that keeps their
/// order: session names are distinct; each session lists, in increasing
/// order, positions of records with its name, and every record is listed
/// under its session; sessions come in order of first appearance.
pub proof fn law_grouping(recs: Seq<RecordView>)
    ensures
        ({
            let gs = group_sessions(recs);
            &&& forall|g1: int, g2: int|
                0 <= g1 < g2 < gs.len() ==> #[trigger] gs[g1].name != #[trigger] gs[g2].name
            &&& forall|g: int| 0 <= g < gs.len() ==> #[trigger] gs[g].members.len() > 0
            &&& forall|g: int, p: int|
                0 <= g < gs.len() && 0 <= p < gs[g].members.len() ==> {
                    &&& 0 <= #[trigger] gs[g].members[p] < recs.len()
                    &&& recs[gs[g].members[p]].session == gs[g].name
                }
            &&& forall|g: int, p1: int, p2: int|
                0 <= g < gs.len() && 0 <= p1 < p2 < gs[g].members.len() ==> #[trigger] gs[g].members[p1]
                    < #[trigger] gs[g].members[p2]
            &&& forall|i: int|
                0 <= i < recs.len() ==> session_index(gs, #[trigger] recs[i].session) < gs.len()
                    && gs[session_index(gs, recs[i].session)].members.contains(i)
            &&& forall|g1: int, g2: int|
                0 <= g1 < g2 < gs.len() ==> #[trigger] gs[g1].members[0] < #[trigger] gs[g2].members[0]
        }),
    decreases recs.len(),
{
    let gs = group_sessions(recs);
    if recs.len() > 0 {
        let prefix = recs.drop_last();
        let prev = group_sessions(prefix);
        law_grouping(prefix);
        let i = recs.len() - 1;
        let name = recs.last().session;
        lemma_session_index_bounds(prev, name);
        let k = session_index(prev, name);
        assert forall|g: int, p: int|
            0 <= g < gs.len() && 0 <= p < gs[g].members.len() implies {
                &&& 0 <= #[trigger] gs[g].members[p] < recs.len()
                &&& recs[gs[g].members[p]].session == gs[g].name
            } by {
            if g < prev.len() && p < prev[g].members.len() {
                assert(gs[g].members[p] == prev[g].members[p]);
                assert(recs[prev[g].members[p]] == prefix[prev[g].members[p]]);
            }
        }
        assert forall|g: int, p1: int, p2: int|
            0 <= g < gs.len() && 0 <= p1 < p2 < gs[g].members.len() implies #[trigger] gs[g].members[p1]
            < #[trigger] gs[g].members[p2] by {
            if g < prev.len() && p1 < prev[g].members.len() {
                assert(gs[g].members[p1] == prev[g].members[p1]);
                if p2 < prev[g].members.len() {
                    assert(gs[g].members[p2] == prev[g].members[p2]);
                }
            }
        }
        assert forall|j: int| 0 <= j < recs.len() implies session_index(gs, #[trigger] recs[j].session)
            < gs.len() && gs[session_index(gs, recs[j].session)].members.contains(j) by {
            let nm = recs[j].session;
            if j < i {
                assert(recs[j] == prefix[j]);
                let kj = session_index(prev, nm);
                lemma_session_index_bounds(prev, nm);
                assert forall|g: int| 0 <= g < kj implies #[trigger] gs[g].name != nm by {
                    assert(prev[g].name != nm) by {
                        lemma_session_index_first_is_first(prev, nm, g);
                    }
                }
                lemma_session_index_first(gs, nm, kj);
                let p = choose|p: int| 0 <= p < prev[kj].members.len() && prev[kj].members[p] == j;
                assert(gs[kj].members[p] == j);
            } else {
                if k < prev.len() {
                    assert forall|g: int| 0 <= g < k implies #[trigger] gs[g].name != nm by {
                        lemma_session_index_first_is_first(prev, nm, g);
                    }
                    lemma_session_index_first(gs, nm, k);
                    let p = prev[k].members.len() as int;
                    assert(gs[k].members[p] == i);
                } else {
                    lemma_session_index_first(gs, nm, prev.len() as int);
                    assert(gs[prev.len() as int].members[0] == i);
                }
            }
        }
        assert forall|g1: int, g2: int|
            0 <= g1 < g2 < gs.len() implies #[trigger] gs[g1].members[0] < #[trigger] gs[g2].members[0] by {
            if g2 < prev.len() {
                assert(gs[g1].members[0] == prev[g1].members[0]);
                assert(gs[g2].members[0] == prev[g2].members[0]);
            } else {
                assert(gs[g1].members[0] == prev[g1].members[0]);
            }
        }
        assert forall|g1: int, g2: int|
            0 <= g1 < g2 < gs.len() implies #[trigger] gs[g1].name != #[trigger] gs[g2].name by {
            if g2 >= prev.len() {
                assert(prev[g1].name != name);
            }
        }
    }
}

} // verus!

verus! {

/// A step never takes anything back: the exchanges recorded so far stay, in
/// order, at most one is added, and the run never returns to an earlier
/// session.
pub proof fn law_step_only_adds(v: ReplayerView, e: EventView)
    requires
        wf_view(v),
    ensures
        ({
            let w = step_spec(v, e).0;
            &&& v.report.exchanges.len() <= w.report.exchanges.len() <= v.report.exchanges.len() + 1
            &&& w.report.exchanges.take(v.report.exchanges.len() as int) == v.report.exchanges
            &&& v.phase != Phase::Idle ==> v.group <= w.group
        }),
{
    let xs = v.report.exchanges;
    assert forall|x: ExchangeView| #[trigger] xs.push(x).take(xs.len() as int) == xs by {
        assert(xs.push(x).take(xs.len() as int) =~= xs);
    }
    assert(xs.take(xs.len() as int) =~= xs);
    match v.phase {
        Phase::Connecting => match e {
            EventView::Connected => lemma_next_request(v, v.group, 0),
            _ => {},
        },
        Phase::Receiving => {
            lemma_next_request(with_exchange(v, v.pending), v.group, v.pos + 1);
            match e {
                EventView::Received(data, elapsed) => {
                    let pending = ExchangeView { response: v.pending.response + data, ..v.pending };
                    lemma_next_request(with_exchange(v, pending), v.group, v.pos + 1);
                },
                _ => {},
            }
        },
        _ => {},
    }
}

} // verus!

verus! {

/// A run never reports more errors than the input has sessions (distinct
/// session names, see `law_grouping`), and every exchange names a session
/// of the input.
pub proof fn law_report_bounds(v: ReplayerView)
    requires
        wf_view(v),
    ensures
        v.report.errors <= group_sessions(v.records).len(),
        forall|i: int|
            #![trigger v.report.exchanges[i]]
            0 <= i < v.report.exchanges.len() ==> exists|k: int|
                0 <= k < v.records.len() && #[trigger] v.records[k].session
                    == v.report.exchanges[i].session,
{
    let xs = v.report.exchanges;
    if v.phase == Phase::Idle {
        assert(error_count(xs) == 0);
    }
    law_grouping(v.records);
    assert forall|i: int| #![trigger xs[i]] 0 <= i < xs.len() implies exists|k: int|
        0 <= k < v.records.len() && #[trigger] v.records[k].session == xs[i].session by {
        let o = owner(v, xs[i]);
        lemma_session_index_bounds(v.sessions, xs[i].session);
        let k = v.sessions[o].members[0];
        assert(v.records[k].session == v.sessions[o].name);
    }
}

/// The exchanges of a run come session by session, in session order, each
/// naming its session; an exchange with an error is the last of its
/// session's exchanges, so a session adds at most one error.
pub proof fn law_session_exchanges(v: ReplayerView)
    requires
        wf_view(v),
    ensures
        forall|i: int|
            0 <= i < v.report.exchanges.len() ==> 0 <= #[trigger] owner(v, v.report.exchanges[i])
                < v.sessions.len() && v.report.exchanges[i].session == v.sessions[owner(
                v,
                v.report.exchanges[i],
            )].name,
        forall|i: int, j: int|
            0 <= i < j < v.report.exchanges.len() ==> #[trigger] owner(v, v.report.exchanges[i])
                <= #[trigger] owner(v, v.report.exchanges[j]),
        forall|i: int, j: int|
            0 <= i < j < v.report.exchanges.len() && #[trigger] owner(v, v.report.exchanges[i])
                == #[trigger] owner(v, v.report.exchanges[j]) ==> v.report.exchanges[i].error is None,
{
    let xs = v.report.exchanges;
    assert forall|i: int| 0 <= i < xs.len() implies 0 <= #[trigger] owner(v, xs[i]) < v.sessions.len()
        && xs[i].session == v.sessions[owner(v, xs[i])].name by {
        lemma_session_index_bounds(v.sessions, xs[i].session);
    }
}

} // verus!

verus! {

/// The run goes through the sessions one by one, and every session of the
/// input gets its own connection: the first step connects to the first
/// session (or finishes when there is none); after that, a step stays in the current session or
/// moves to the next one, and moving on either connects to that session or,
/// after the last session, finishes. A failed connection records one exchange
/// for its session, with no request, no response and the error
/// `connect <target>: <reason>`, and the run goes on with the next session; a
/// failed write records the request with the error `write: <reason>` and does
/// the same.
pub proof fn law_session_advance(v: ReplayerView, e: EventView)
    requires
        wf_view(v),
    ensures
        ({
            let (w, a) = step_spec(v, e);
            let g = v.group;
            let n = v.sessions.len();
            &&& v.phase == Phase::Idle ==> {
                &&& w.group == 0
                &&& w.report == v.report
                &&& n > 0 ==> w.phase == Phase::Connecting && a is Connect
                &&& n == 0 ==> w.phase == Phase::Finished && a is Finish
            }
            &&& v.phase != Phase::Idle ==> w.group == g || w.group == g + 1
            &&& w.group == g + 1 ==> (g + 1 < n && w.phase == Phase::Connecting && a
                is Connect) || (g + 1 == n && w.phase == Phase::Finished && a is Finish)
            &&& v.phase == Phase::Connecting && e is ConnectFailed ==> {
                &&& w.group == g + 1
                &&& w.report.exchanges == v.report.exchanges.push(
                    ExchangeView {
                        session: v.sessions[g].name,
                        request: seq![],
                        response: seq![],
                        error: Some("connect "@ + v.target + ": "@ + e->ConnectFailed_0),
                    },
                )
                &&& w.report.errors == v.report.errors + 1
            }
            &&& v.phase == Phase::Sending && e is SendFailed ==> {
                &&& w.group == g + 1
                &&& w.report.exchanges == v.report.exchanges.push(
                    ExchangeView {
                        session: v.sessions[g].name,
                        request: v.records[v.sessions[g].members[v.pos]].payload,
                        response: seq![],
                        error: Some("write: "@ + e->SendFailed_0),
                    },
                )
                &&& w.report.errors == v.report.errors + 1
            }
        }),
{
    let g = v.group;
    match v.phase {
        Phase::Connecting => match e {
            EventView::Connected => lemma_next_request(v, g, 0),
            _ => {},
        },
        Phase::Sending => match e {
            EventView::SendFailed(reason) => {
                let x = ExchangeView { error: Some("write: "@ + reason), ..v.pending };
                assert(x == ExchangeView {
                    session: v.sessions[g].name,
                    request: v.records[v.sessions[g].members[v.pos]].payload,
                    response: seq![],
                    error: Some("write: "@ + reason),
                });
            },
            _ => {},
        },
        Phase::Receiving => {
            lemma_next_request(with_exchange(v, v.pending), g, v.pos + 1);
            match e {
                EventView::Received(data, elapsed) => {
                    let pending = ExchangeView { response: v.pending.response + data, ..v.pending };
                    lemma_next_request(with_exchange(v, pending), g, v.pos + 1);
                },
                _ => {},
            }
        },
        _ => {},
    }
}

/// What `begin_request` does, stated over the records themselves.
proof fn lemma_begin_request_raw(u: ReplayerView, g: int, p: int)
    requires
        0 <= g < u.sessions.len(),
        0 <= p <= u.sessions[g].members.len(),
    ensures
        ({
            let (w, a) = begin_request(u, g, p);
            let ms = u.sessions[g].members;
            let q = w.pos;
            &&& w.report == u.report
            &&& w.group == g ==> {
                &&& p <= q < ms.len()
                &&& u.records[ms[q]].dir == Direction::Request
                &&& forall|k: int|
                    p <= k < q ==> #[trigger] u.records[ms[k]].dir != Direction::Request
                &&& w.pending == ExchangeView {
                    session: u.sessions[g].name,
                    request: u.records[ms[q]].payload,
                    response: seq![],
                    error: None,
                }
                &&& if u.preserve_timing && q > 0 && u.records[ms[q]].ts_nanos - u.records[ms[q
                    - 1]].ts_nanos > 0 {
                    let gap = u.records[ms[q]].ts_nanos - u.records[ms[q - 1]].ts_nanos;
                    &&& w.phase == Phase::Pausing
                    &&& a == ActionView::Sleep(
                        if gap > MAX_PAUSE_NANOS {
                            MAX_PAUSE_NANOS as int
                        } else {
                            gap
                        },
                    )
                } else {
                    w.phase == Phase::Sending && a == ActionView::Send(u.records[ms[q]].payload)
                }
            }
            &&& w.group != g ==> w.group == g + 1 && forall|k: int|
                p <= k < ms.len() ==> #[trigger] u.records[ms[k]].dir != Direction::Request
        }),
{
    lemma_next_request(u, g, p);
    let ms = u.sessions[g].members;
    let q = next_request(u, g, p);
    assert forall|k: int| p <= k < q implies #[trigger] u.records[ms[k]].dir != Direction::Request by {
        assert(member(u, g, k) == u.records[ms[k]]);
    }
}

/// Where a session's requests are taken up (after its connection, or after
/// the response to the request before): the next request of the session in
/// input order, with no request record skipped. Before it is sent comes a
/// pause when timing is preserved: the gap to the record just before it in
/// the session, whichever its direction, when that gap is positive, at most
/// 2 s. When the session holds no further request, the run moves to the
/// next session.
pub proof fn law_next_request(v: ReplayerView, e: EventView)
    requires
        wf_view(v),
        (v.phase == Phase::Connecting && e is Connected) || (v.phase == Phase::Receiving && (e
            is ReceiveFailed || (e matches EventView::Received(d, t) && (d.len() < READ_CHUNK || t
            >= v.max_wait_nanos)))),
    ensures
        ({
            let (w, a) = step_spec(v, e);
            let g = v.group;
            let ms = v.sessions[g].members;
            let start = if v.phase == Phase::Connecting {
                0
            } else {
                v.pos + 1
            };
            let q = w.pos;
            &&& w.group == g ==> {
                &&& start <= q < ms.len()
                &&& v.records[ms[q]].dir == Direction::Request
                &&& forall|k: int|
                    start <= k < q ==> #[trigger] v.records[ms[k]].dir != Direction::Request
                &&& w.pending == ExchangeView {
                    session: v.sessions[g].name,
                    request: v.records[ms[q]].payload,
                    response: seq![],
                    error: None,
                }
                &&& if v.preserve_timing && q > 0 && v.records[ms[q]].ts_nanos - v.records[ms[q
                    - 1]].ts_nanos > 0 {
                    let gap = v.records[ms[q]].ts_nanos - v.records[ms[q - 1]].ts_nanos;
                    &&& w.phase == Phase::Pausing
                    &&& a == ActionView::Sleep(
                        if gap > MAX_PAUSE_NANOS {
                            MAX_PAUSE_NANOS as int
                        } else {
                            gap
                        },
                    )
                } else {
                    w.phase == Phase::Sending && a == ActionView::Send(v.records[ms[q]].payload)
                }
            }
            &&& w.group != g ==> w.group == g + 1 && forall|k: int|
                start <= k < ms.len() ==> #[trigger] v.records[ms[k]].dir != Direction::Request
        }),
{
    let g = v.group;
    if v.phase == Phase::Connecting {
        lemma_begin_request_raw(v, g, 0);
    } else {
        match e {
            EventView::Received(data, elapsed) => {
                let pending = ExchangeView { response: v.pending.response + data, ..v.pending };
                lemma_begin_request_raw(with_exchange(v, pending), g, v.pos + 1);
            },
            _ => {
                lemma_begin_request_raw(with_exchange(v, v.pending), g, v.pos + 1);
            },
        }
    }
}

/// The response of every recorded exchange is all the data received for its
/// request, in order: it starts empty when the request has been written,
/// each read appends its bytes, and the exchange is recorded with the bytes
/// collected so far, without an error, once a read fails, comes back shorter
/// than `READ_CHUNK`, or comes back full after `max_wait_nanos`; until then
/// nothing is recorded and the next read is asked for.
pub proof fn law_response_collected(v: ReplayerView, e: EventView)
    requires
        wf_view(v),
        v.phase == Phase::Sending || v.phase == Phase::Receiving,
    ensures
        ({
            let (w, a) = step_spec(v, e);
            let collected = ExchangeView {
                session: v.pending.session,
                request: v.pending.request,
                response: v.pending.response + e->Received_0,
                error: None,
            };
            &&& v.phase == Phase::Sending && e is Sent ==> {
                &&& w.phase == Phase::Receiving
                &&& a is Receive
                &&& w.pending.response == Seq::<u8>::empty()
                &&& w.pending.request == v.pending.request
                &&& w.report == v.report
            }
            &&& v.phase == Phase::Receiving && e is ReceiveFailed ==> {
                &&& w.report.exchanges == v.report.exchanges.push(
                    ExchangeView {
                        session: v.pending.session,
                        request: v.pending.request,
                        response: v.pending.response,
                        error: None,
                    },
                )
                &&& w.report.errors == v.report.errors
            }
            &&& v.phase == Phase::Receiving && e is Received ==> if e->Received_0.len()
                < READ_CHUNK || e->Received_1 >= v.max_wait_nanos {
                &&& w.report.exchanges == v.report.exchanges.push(collected)
                &&& w.report.errors == v.report.errors
            } else {
                &&& w.phase == Phase::Receiving
                &&& a is Receive
                &&& w.group == v.group
                &&& w.pos == v.pos
                &&& w.pending == collected
                &&& w.report == v.report
            }
        }),
{
    if v.phase == Phase::Receiving {
        lemma_next_request(with_exchange(v, v.pending), v.group, v.pos + 1);
        match e {
            EventView::Received(data, elapsed) => {
                let pending = ExchangeView { response: v.pending.response + data, ..v.pending };
                lemma_next_request(with_exchange(v, pending), v.group, v.pos + 1);
            },
            _ => {},
        }
    }
}

} // verus!

verus! {

/// Once the pause before a request is over, that request is sent, unchanged.
pub proof fn law_pause_then_send(v: ReplayerView)
    requires
        wf_view(v),
        v.phase == Phase::Pausing,
    ensures
        ({
            let (w, a) = step_spec(v, EventView::Slept);
            &&& w.phase == Phase::Sending
            &&& a == ActionView::Send(v.records[v.sessions[v.group].members[v.pos]].payload)
            &&& w.group == v.group
            &&& w.pos == v.pos
            &&& w.pending == v.pending
            &&& w.report == v.report
        }),
{
}

/// Once the run has started, an event that does not fit where it stands
/// changes nothing, and the same action is asked for again.
pub proof fn law_unfit_event(v: ReplayerView, e: EventView)
    requires
        wf_view(v),
        match v.phase {
            Phase::Idle => false,
            Phase::Connecting => !(e is Connected) && !(e is ConnectFailed),
            Phase::Pausing => !(e is Slept),
            Phase::Sending => !(e is Sent) && !(e is SendFailed),
            Phase::Receiving => !(e is Received) && !(e is ReceiveFailed),
            Phase::Finished => true,
        },
    ensures
        ({
            let (w, a) = step_spec(v, e);
            &&& w == v
            &&& a == match v.phase {
                Phase::Connecting => ActionView::Connect,
                Phase::Pausing => ActionView::Sleep(v.pause),
                Phase::Sending => ActionView::Send(
                    v.records[v.sessions[v.group].members[v.pos]].payload,
                ),
                Phase::Receiving => ActionView::Receive,
                _ => ActionView::Finish,
            }
        }),
{
}

} // verus!
