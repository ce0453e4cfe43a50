//! One device's session: a state machine that is told what happened to the
//! device and answers with what to forward and what to do next.

use crate::accumulator::{
    feed_bytes, is_pending_line, item_views, lemma_feed_keeps_pending_line, lemma_feed_split,
    FeedItem, FeedItemView, LineAccumulator,
};
use crate::catalog::{DescriptorView, DeviceDescriptor};
use vstd::prelude::*;

verus! {

/// What can go wrong with a scanner, by kind.
#[derive(Debug, PartialEq, Eq)]
pub enum ScannerError {
    /// The device could not be opened. Only this device is skipped.
    DeviceOpen { descriptor: DeviceDescriptor, cause: String },
    /// Reading from the device failed. This ends the device's session.
    DeviceRead { cause: String },
    /// A line outgrew the limit and was dropped. The session reads on.
    BufferOverflow,
}

/// A [`ScannerError`] as a mathematical value.
#[verifier::ext_equal]
pub enum ErrorView {
    DeviceOpen { descriptor: DescriptorView, cause: Seq<char> },
    DeviceRead { cause: Seq<char> },
    BufferOverflow,
}

impl ErrorView {
    /// Open and read failures end the session they occur in; an overflow
    /// does not.
    pub open spec fn ends_session(self) -> bool {
        !(self is BufferOverflow)
    }
}

impl View for ScannerError {
    type V = ErrorView;

    open spec fn view(&self) -> ErrorView {
        match self {
            ScannerError::DeviceOpen { descriptor, cause } => ErrorView::DeviceOpen {
                descriptor: descriptor@,
                cause: cause@,
            },
            ScannerError::DeviceRead { cause } => ErrorView::DeviceRead { cause: cause@ },
            ScannerError::BufferOverflow => ErrorView::BufferOverflow,
        }
    }
}

impl Clone for ScannerError {
    fn clone(&self) -> (copy: Self)
        ensures
            copy == *self,
    {
        match self {
            ScannerError::DeviceOpen { descriptor, cause } => ScannerError::DeviceOpen {
                descriptor: descriptor.clone(),
                cause: cause.clone(),
            },
            ScannerError::DeviceRead { cause } => ScannerError::DeviceRead { cause: cause.clone() },
            ScannerError::BufferOverflow => ScannerError::BufferOverflow,
        }
    }
}

impl ScannerError {
    /// Tells the failures that end a session from those it survives.
    pub fn ends_session(&self) -> (fatal: bool)
        ensures
            fatal == self@.ends_session(),
    {
        match self {
            ScannerError::BufferOverflow => false,
            _ => true,
        }
    }
}

/// Where a session stands. A session that has failed or was closed stays
/// so; trying again takes a new session.
#[derive(Debug, PartialEq, Eq)]
pub enum SessionStatus {
    /// The device has not been opened yet.
    Starting,
    /// The device is open and being read.
    Reading,
    /// The device could not be opened, or a read failed.
    Failed(ScannerError),
    /// The session was cancelled.
    Closed,
}

/// A [`SessionStatus`] as a mathematical value.
#[verifier::ext_equal]
pub enum StatusView {
    Starting,
    Reading,
    Failed(ErrorView),
    Closed,
}

impl StatusView {
    /// A status that no event changes any more.
    pub open spec fn is_terminal(self) -> bool {
        self is Failed || self is Closed
    }
}

impl View for SessionStatus {
    type V = StatusView;

    open spec fn view(&self) -> StatusView {
        match self {
            SessionStatus::Starting => StatusView::Starting,
            SessionStatus::Reading => StatusView::Reading,
            SessionStatus::Failed(error) => StatusView::Failed(error@),
            SessionStatus::Closed => StatusView::Closed,
        }
    }
}

impl Clone for SessionStatus {
    fn clone(&self) -> (copy: Self)
        ensures
            copy == *self,
    {
        match self {
            SessionStatus::Starting => SessionStatus::Starting,
            SessionStatus::Reading => SessionStatus::Reading,
            SessionStatus::Failed(error) => SessionStatus::Failed(error.clone()),
            SessionStatus::Closed => SessionStatus::Closed,
        }
    }
}

impl SessionStatus {
    /// Tells whether the session is over.
    pub fn is_terminal(&self) -> (over: bool)
        ensures
            over == self@.is_terminal(),
    {
        match self {
            SessionStatus::Failed(_) => true,
            SessionStatus::Closed => true,
            _ => false,
        }
    }
}

/// How a session reads its device.
#[derive(Debug, Clone, Copy, PartialEq, Eq)]
pub struct SessionConfig {
    /// The most bytes a line may hold before its delimiter arrives.
    pub max_line_len: usize,
    /// How long one read waits for data, in milliseconds.
    pub read_timeout_ms: u32,
    /// How many bytes one read can return.
    pub scratch_len: usize,
}

impl Default for SessionConfig {
    /// Lines of up to 4096 bytes, read 64 bytes at a time with a timeout of
    /// one second.
    fn default() -> (config: Self)
        ensures
            config == (SessionConfig { max_line_len: 4096, read_timeout_ms: 1000, scratch_len: 64 }),
    {
        SessionConfig { max_line_len: 4096, read_timeout_ms: 1000, scratch_len: 64 }
    }
}

/// What happened to the device since the session was last told.
#[derive(Debug, PartialEq, Eq)]
pub enum SessionEvent<'a> {
    /// The device was opened.
    Opened,
    /// The device could not be opened, for the reason given.
    OpenFailed(String),
    /// A read returned these bytes, none if it timed out, at this time.
    Data(&'a [u8], u64),
    /// A read failed, for the reason given.
    ReadFailed(String),
    /// The session is asked to end.
    Cancel,
}

/// A [`SessionEvent`] as a mathematical value.
#[verifier::ext_equal]
pub enum EventView {
    Opened,
    OpenFailed(Seq<char>),
    Data(Seq<u8>, u64),
    ReadFailed(Seq<char>),
    Cancel,
}

impl<'a> View for SessionEvent<'a> {
    type V = EventView;

    open spec fn view(&self) -> EventView {
        match self {
            SessionEvent::Opened => EventView::Opened,
            SessionEvent::OpenFailed(cause) => EventView::OpenFailed(cause@),
            SessionEvent::Data(bytes, timestamp) => EventView::Data(bytes@, *timestamp),
            SessionEvent::ReadFailed(cause) => EventView::ReadFailed(cause@),
            SessionEvent::Cancel => EventView::Cancel,
        }
    }
}

/// What the owner of a session does next for it.
#[derive(Debug, Clone, Copy, PartialEq, Eq)]
pub enum Directive {
    /// Open the device, and tell the session how that went.
    Open,
    /// Read from the device, and tell the session what came.
    Read { timeout_ms: u32, scratch_len: usize },
    /// Stop, and let go of the device if it is held.
    Halt,
}

/// A decoded barcode on its way to the consumer.
#[derive(Debug, PartialEq, Eq)]
pub struct ScanEvent {
    /// The barcode's text.
    pub barcode: String,
    /// The path of the device it came from.
    pub device: String,
    /// When decoding completed.
    pub timestamp: u64,
}

/// A [`ScanEvent`] as a mathematical value.
#[verifier::ext_equal]
pub struct ScanEventView {
    pub barcode: Seq<char>,
    pub device: Seq<char>,
    pub timestamp: u64,
}

impl View for ScanEvent {
    type V = ScanEventView;

    open spec fn view(&self) -> ScanEventView {
        ScanEventView { barcode: self.barcode@, device: self.device@, timestamp: self.timestamp }
    }
}

impl Clone for ScanEvent {
    fn clone(&self) -> (copy: Self)
        ensures
            copy == *self,
    {
        ScanEvent {
            barcode: self.barcode.clone(),
            device: self.device.clone(),
            timestamp: self.timestamp,
        }
    }
}

/// Something a session wants passed on: a barcode for the consumer, or a
/// fault for the operator.
#[derive(Debug, PartialEq, Eq)]
pub enum Notice {
    Scan(ScanEvent),
    Fault(ScannerError),
}

/// A [`Notice`] as a mathematical value.
#[verifier::ext_equal]
pub enum NoticeView {
    Scan(ScanEventView),
    Fault(ErrorView),
}

impl View for Notice {
    type V = NoticeView;

    open spec fn view(&self) -> NoticeView {
        match self {
            Notice::Scan(event) => NoticeView::Scan(event@),
            Notice::Fault(error) => NoticeView::Fault(error@),
        }
    }
}

impl Clone for Notice {
    fn clone(&self) -> (copy: Self)
        ensures
            copy == *self,
    {
        match self {
            Notice::Scan(event) => Notice::Scan(event.clone()),
            Notice::Fault(error) => Notice::Fault(error.clone()),
        }
    }
}

/// The notices of `notices`, each as a mathematical value.
pub open spec fn notice_views(notices: Seq<Notice>) -> Seq<NoticeView> {
    notices.map_values(|notice: Notice| notice@)
}

/// A session's answer to an event.
#[derive(Debug, PartialEq, Eq)]
pub struct SessionStep {
    /// What to pass on, oldest first.
    pub notices: Vec<Notice>,
    /// What to do next.
    pub next: Directive,
}

/// A [`SessionStep`] as a mathematical value.
#[verifier::ext_equal]
pub struct StepView {
    pub notices: Seq<NoticeView>,
    pub next: Directive,
}

impl View for SessionStep {
    type V = StepView;

    open spec fn view(&self) -> StepView {
        StepView { notices: notice_views(self.notices@), next: self.next }
    }
}

/// The state of a [`DeviceSession`] as a mathematical value.
#[verifier::ext_equal]
pub struct SessionView {
    pub descriptor: DescriptorView,
    pub config: SessionConfig,
    pub status: StatusView,
    /// The bytes received since the last delimiter.
    pub pending: Seq<u8>,
}

impl SessionView {
    /// The pending line is within the configured limit and holds no
    /// delimiter.
    pub open spec fn well_formed(self) -> bool {
        is_pending_line(self.config.max_line_len as nat, self.pending)
    }
}

/// The notice that an item from the device at `device`, decoded at
/// `timestamp`, turns into.
pub open spec fn notice_of(device: Seq<char>, timestamp: u64) -> spec_fn(FeedItemView) -> NoticeView {
    |item: FeedItemView|
        match item {
            FeedItemView::Barcode(text) => NoticeView::Scan(
                ScanEventView { barcode: text, device, timestamp },
            ),
            FeedItemView::Overflow => NoticeView::Fault(ErrorView::BufferOverflow),
        }
}

/// What the owner of a session in state `session` does next.
pub open spec fn directive_for(session: SessionView) -> Directive {
    match session.status {
        StatusView::Starting => Directive::Open,
        StatusView::Reading => Directive::Read {
            timeout_ms: session.config.read_timeout_ms,
            scratch_len: session.config.scratch_len,
        },
        _ => Directive::Halt,
    }
}

/// The session as a state machine: the state after `event` and the answer
/// to it. An event that does not apply in the current state changes
/// nothing and is answered with no notice.
pub open spec fn session_step(session: SessionView, event: EventView) -> (SessionView, StepView) {
    let (after, notices) = match (session.status, event) {
        (StatusView::Starting, EventView::Opened) => (
            SessionView { status: StatusView::Reading, ..session },
            Seq::empty(),
        ),
        (StatusView::Starting, EventView::OpenFailed(cause)) => {
            let error = ErrorView::DeviceOpen { descriptor: session.descriptor, cause };
            (
                SessionView { status: StatusView::Failed(error), ..session },
                seq![NoticeView::Fault(error)],
            )
        },
        (StatusView::Reading, EventView::Data(bytes, timestamp)) => {
            let scan = feed_bytes(session.config.max_line_len as nat, session.pending, bytes);
            (
                SessionView { pending: scan.pending, ..session },
                scan.items.map_values(notice_of(session.descriptor.path, timestamp)),
            )
        },
        (StatusView::Reading, EventView::ReadFailed(cause)) => {
            let error = ErrorView::DeviceRead { cause };
            (
                SessionView { status: StatusView::Failed(error), ..session },
                seq![NoticeView::Fault(error)],
            )
        },
        (StatusView::Starting, EventView::Cancel) | (StatusView::Reading, EventView::Cancel) => (
            SessionView { status: StatusView::Closed, ..session },
            Seq::empty(),
        ),
        _ => (session, Seq::empty()),
    };
    (after, StepView { notices, next: directive_for(after) })
}

/// The events of `events` taken by a session one after another: the state
/// at the end, and every notice along the way.
pub open spec fn session_run(session: SessionView, events: Seq<EventView>) -> (
    SessionView,
    Seq<NoticeView>,
)
    decreases events.len(),
{
    if events.len() == 0 {
        (session, Seq::empty())
    } else {
        let (before, notices) = session_run(session, events.drop_last());
        let (after, step) = session_step(before, events.last());
        (after, notices + step.notices)
    }
}

/// Tells the faults that end a session from every other notice.
pub open spec fn is_fatal() -> spec_fn(NoticeView) -> bool {
    |notice: NoticeView|
        match notice {
            NoticeView::Fault(error) => error.ends_session(),
            NoticeView::Scan(_) => false,
        }
}

/// How far a session has come: not opened, reading, over.
pub open spec fn status_rank(status: StatusView) -> nat {
    match status {
        StatusView::Starting => 0,
        StatusView::Reading => 1,
        _ => 2,
    }
}

/// A session that has failed or was closed is over for good: whatever it
/// is told, it stays as it is, passes nothing on and asks for a halt.
pub proof fn lemma_terminal_is_final(session: SessionView, event: EventView)
    requires
        session.status.is_terminal(),
    ensures
        session_step(session, event) == (
            session,
            StepView { notices: Seq::empty(), next: Directive::Halt },
        ),
{
}

/// A session never goes back: each event leaves it where it was or takes
/// it further from `Starting` towards its end.
pub proof fn lemma_status_advances(session: SessionView, event: EventView)
    ensures
        status_rank(session_step(session, event).0.status) >= status_rank(session.status),
        session_step(session, event).0.descriptor == session.descriptor,
        session_step(session, event).0.config == session.config,
{
}

/// A session ends in one of two ways: it is closed by a request to end,
/// and by nothing else; it fails when opening or reading fails, and in no
/// other way. An overflow never fails a session.
pub proof fn lemma_how_sessions_end(session: SessionView, event: EventView)
    ensures
        session_step(session, event).0.status is Closed ==> session.status is Closed
            || event is Cancel,
        session_step(session, event).0.status is Failed ==> session.status is Failed
            || event is OpenFailed || event is ReadFailed,
        !(session.status is Failed) ==> (session_step(session, event).0.status matches
        StatusView::Failed(error) ==> error.ends_session()),
{
}

/// A read that times out with no data changes nothing and passes nothing
/// on; the session goes on reading.
pub proof fn lemma_timeout_changes_nothing(session: SessionView, timestamp: u64)
    requires
        session.status is Reading,
    ensures
        session_step(session, EventView::Data(Seq::empty(), timestamp)) == (
            session,
            StepView { notices: Seq::empty(), next: directive_for(session) },
        ),
{
    let scan = feed_bytes(session.config.max_line_len as nat, session.pending, Seq::empty());
    assert(scan.items.map_values(notice_of(session.descriptor.path, timestamp)) =~= Seq::empty());
}

/// No event takes the pending line past the limit.
pub proof fn lemma_step_keeps_well_formed(session: SessionView, event: EventView)
    requires
        session.well_formed(),
    ensures
        session_step(session, event).0.well_formed(),
{
    match (session.status, event) {
        (StatusView::Reading, EventView::Data(bytes, _)) => {
            lemma_feed_keeps_pending_line(
                session.config.max_line_len as nat,
                session.pending,
                bytes,
            );
        },
        _ => {},
    }
}

/// What the consumer sees does not depend on how reads cut the stream: a
/// reading session that is given `first` and then `second` ends in the same
/// state and has passed on the same notices as one that is given both at
/// once.
pub proof fn lemma_reads_can_be_split(
    session: SessionView,
    first: Seq<u8>,
    second: Seq<u8>,
    timestamp: u64,
)
    requires
        session.status is Reading,
    ensures
        ({
            let (middle, head) = session_step(session, EventView::Data(first, timestamp));
            let (end, tail) = session_step(middle, EventView::Data(second, timestamp));
            session_step(session, EventView::Data(first + second, timestamp)) == (
                end,
                StepView { notices: head.notices + tail.notices, next: tail.next },
            )
        }),
{
    let limit = session.config.max_line_len as nat;
    let stamp = notice_of(session.descriptor.path, timestamp);
    lemma_feed_split(limit, session.pending, first, second);
    let head = feed_bytes(limit, session.pending, first);
    let tail = feed_bytes(limit, head.pending, second);
    assert((head.items + tail.items).map_values(stamp) =~= head.items.map_values(stamp)
        + tail.items.map_values(stamp));
}

/// Once a session is over, nothing that follows matters: a run that goes
/// on after the session has failed or was closed ends in the same state
/// and has passed on the same notices as the run up to that point.
pub proof fn lemma_silent_once_over(session: SessionView, before: Seq<EventView>, after: Seq<EventView>)
    requires
        session_run(session, before).0.status.is_terminal(),
    ensures
        session_run(session, before + after) == session_run(session, before),
    decreases after.len(),
{
    if after.len() == 0 {
        assert(before + after =~= before);
    } else {
        lemma_silent_once_over(session, before, after.drop_last());
        assert((before + after).drop_last() =~= before + after.drop_last());
        let reached = session_run(session, before);
        lemma_terminal_is_final(reached.0, after.last());
        assert(reached.1 + Seq::<NoticeView>::empty() =~= reached.1);
    }
}

/// Decoding passes on barcodes and overflows only, never a fault that ends
/// the session.
proof fn lemma_items_are_not_fatal(items: Seq<FeedItemView>, device: Seq<char>, timestamp: u64)
    ensures
        items.map_values(notice_of(device, timestamp)).filter(is_fatal()).len() == 0,
    decreases items.len(),
{
    reveal(Seq::filter);
    let notices = items.map_values(notice_of(device, timestamp));
    if items.len() > 0 {
        lemma_items_are_not_fatal(items.drop_last(), device, timestamp);
        assert(notices.drop_last() =~= items.drop_last().map_values(notice_of(device, timestamp)));
    }
}

/// A failure is reported exactly once: over any run, the session passes on
/// one fault that ends it if the run took it to `Failed`, and none
/// otherwise.
pub proof fn lemma_failure_reported_once(session: SessionView, events: Seq<EventView>)
    ensures
        ({
            let (after, notices) = session_run(session, events);
            notices.filter(is_fatal()).len() == if after.status is Failed && !(session.status
                is Failed) {
                1nat
            } else {
                0nat
            }
        }),
    decreases events.len(),
{
    reveal(Seq::filter);
    if events.len() > 0 {
        lemma_failure_reported_once(session, events.drop_last());
        let (before, notices) = session_run(session, events.drop_last());
        let (after, step) = session_step(before, events.last());
        Seq::filter_distributes_over_add(notices, step.notices, is_fatal());
        match (before.status, events.last()) {
            (StatusView::Reading, EventView::Data(bytes, timestamp)) => {
                let scan = feed_bytes(before.config.max_line_len as nat, before.pending, bytes);
                lemma_items_are_not_fatal(scan.items, before.descriptor.path, timestamp);
            },
            (StatusView::Starting, EventView::OpenFailed(cause)) => {
                assert(step.notices.drop_last() =~= Seq::empty());
            },
            (StatusView::Reading, EventView::ReadFailed(cause)) => {
                assert(step.notices.drop_last() =~= Seq::empty());
            },
            _ => {},
        }
        if session.status.is_terminal() {
            assert(Seq::<EventView>::empty() + events.drop_last() =~= events.drop_last());
            lemma_silent_once_over(session, Seq::empty(), events.drop_last());
        }
    }
}

/// The session for one device: its status and the line it is collecting.
pub struct DeviceSession {
    descriptor: DeviceDescriptor,
    read_timeout_ms: u32,
    scratch_len: usize,
    status: SessionStatus,
    accumulator: LineAccumulator,
}

impl View for DeviceSession {
    type V = SessionView;

    closed spec fn view(&self) -> SessionView {
        SessionView {
            descriptor: self.descriptor@,
            config: SessionConfig {
                max_line_len: self.accumulator@.limit,
                read_timeout_ms: self.read_timeout_ms,
                scratch_len: self.scratch_len,
            },
            status: self.status@,
            pending: self.accumulator@.pending,
        }
    }
}

/// The state of a session that has just been made for `descriptor`.
pub open spec fn fresh_session(descriptor: DescriptorView, config: SessionConfig) -> SessionView {
    SessionView { descriptor, config, status: StatusView::Starting, pending: Seq::empty() }
}

impl DeviceSession {
    /// A session for `descriptor` that has yet to open its device.
    pub fn new(descriptor: DeviceDescriptor, config: SessionConfig) -> (session: Self)
        ensures
            session@ == fresh_session(descriptor@, config),
            session@.well_formed(),
    {
        DeviceSession {
            descriptor,
            read_timeout_ms: config.read_timeout_ms,
            scratch_len: config.scratch_len,
            status: SessionStatus::Starting,
            accumulator: LineAccumulator::new(config.max_line_len),
        }
    }

    /// Where the session stands.
    pub fn status(&self) -> (status: &SessionStatus)
        ensures
            status@ == self@.status,
    {
        &self.status
    }

    /// The device the session is for.
    pub fn descriptor(&self) -> (descriptor: &DeviceDescriptor)
        ensures
            descriptor@ == self@.descriptor,
    {
        &self.descriptor
    }

    /// How the session reads its device.
    pub fn config(&self) -> (config: SessionConfig)
        ensures
            config == self@.config,
    {
        SessionConfig {
            max_line_len: self.accumulator.limit(),
            read_timeout_ms: self.read_timeout_ms,
            scratch_len: self.scratch_len,
        }
    }

    /// What to do next for this session.
    pub fn directive(&self) -> (next: Directive)
        ensures
            next == directive_for(self@),
    {
        match &self.status {
            SessionStatus::Starting => Directive::Open,
            SessionStatus::Reading => Directive::Read {
                timeout_ms: self.read_timeout_ms,
                scratch_len: self.scratch_len,
            },
            _ => Directive::Halt,
        }
    }

    /// Turns what a feed produced into notices, in the same order.
    fn stamp(&self, items: Vec<FeedItem>, timestamp: u64) -> (notices: Vec<Notice>)
        ensures
            notice_views(notices@) == item_views(items@).map_values(
                notice_of(self@.descriptor.path, timestamp),
            ),
    {
        let mut notices: Vec<Notice> = Vec::new();
        let ghost wanted = item_views(items@).map_values(
            notice_of(self@.descriptor.path, timestamp),
        );
        for item in it: items
            invariant
                it.seq() == items@,
                wanted == item_views(items@).map_values(
                    notice_of(self@.descriptor.path, timestamp),
                ),
                notice_views(notices@) == wanted.take(it.index()),
        {
            let ghost done = notices@;
            let notice = match item {
                FeedItem::Barcode(barcode) => Notice::Scan(
                    ScanEvent { barcode, device: self.descriptor.path().to_owned(), timestamp },
                ),
                FeedItem::Overflow => Notice::Fault(ScannerError::BufferOverflow),
            };
            notices.push(notice);
            assert(notice_views(notices@) =~= notice_views(done).push(notice@));
            assert(wanted.take(it.index() + 1) =~= wanted.take(it.index()).push(
                wanted[it.index()],
            ));
        }
        assert(wanted.take(items@.len() as int) =~= wanted);
        notices
    }

    /// Tells the session what happened and returns its answer.
    pub fn step(&mut self, event: SessionEvent<'_>) -> (out: SessionStep)
        ensures
            final(self)@ == session_step(old(self)@, event@).0,
            out@ == session_step(old(self)@, event@).1,
            final(self)@.well_formed(),
    {
        let starting = match &self.status {
            SessionStatus::Starting => true,
            _ => false,
        };
        let reading = match &self.status {
            SessionStatus::Reading => true,
            _ => false,
        };
        let mut notices: Vec<Notice> = Vec::new();
        assert(notice_views(notices@) =~= Seq::empty());
        match event {
            SessionEvent::Opened => {
                if starting {
                    self.status = SessionStatus::Reading;
                }
            },
            SessionEvent::OpenFailed(cause) => {
                if starting {
                    let error = ScannerError::DeviceOpen {
                        descriptor: self.descriptor.clone(),
                        cause,
                    };
                    notices.push(Notice::Fault(error.clone()));
                    assert(notice_views(notices@) =~= seq![NoticeView::Fault(error@)]);
                    self.status = SessionStatus::Failed(error);
                }
            },
            SessionEvent::Data(bytes, timestamp) => {
                if reading {
                    let items = self.accumulator.feed(bytes);
                    notices = self.stamp(items, timestamp);
                }
            },
            SessionEvent::ReadFailed(cause) => {
                if reading {
                    let error = ScannerError::DeviceRead { cause };
                    notices.push(Notice::Fault(error.clone()));
                    assert(notice_views(notices@) =~= seq![NoticeView::Fault(error@)]);
                    self.status = SessionStatus::Failed(error);
                }
            },
            SessionEvent::Cancel => {
                if starting || reading {
                    self.status = SessionStatus::Closed;
                }
            },
        }
        proof {
            use_type_invariant(&self.accumulator);
        }
        let next = self.directive();
        SessionStep { notices, next }
    }
}

} // verus!
