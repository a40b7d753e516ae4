//! The session state machine and the heartbeat watchdog.
//!
//! The controller decides, for each message arriving from the
//! receiver and for each frame tick, which messages go to the change
//! detector, the sender and the input shim, and how the session state
//! moves between idle, connected, streaming and closing.  The
//! watchdog decides when a silent client counts as disconnected.

use vstd::prelude::*;

use vstd::utf8::encode_utf8;

use crate::monitor::MonitorInfo;
use crate::monitor::get_offset;
use crate::context::spec_monitor_ok;
use crate::protocol::ContextMessage;
use crate::protocol::MainMessage;
use crate::protocol::SenderMessage;

verus! {

/// Lowest protocol version the server speaks.
pub const MIN_SUPPORTED_PROTOCOL_VERSION: u8 = 1;

/// Highest protocol version the server speaks.
pub const MAX_SUPPORTED_PROTOCOL_VERSION: u8 = 1;

/// The session states.
#[derive(Debug, PartialEq, Eq, Structural, Clone, Copy)]
pub enum SessionState {
    Idle,
    Connected,
    Streaming,
    Closing,
}

/// What the controller asks its surroundings to do in response to one
/// event.
#[derive(Debug, PartialEq)]
pub enum ControllerAction {
    ToSender(SenderMessage),
    ToContext(ContextMessage),
    MoveMouse(i32, i32),
    Click(u8),
    MouseDown(u8),
    MouseUp(u8),
    SendKeysequence(Vec<u8>),
    /// Join every subordinate task; the session winds down.
    Join,
}

/// The version chosen for an accepted handshake: the highest version
/// both sides speak.
pub open spec fn spec_chosen_version(max: u8) -> u8 {
    if max >= MAX_SUPPORTED_PROTOCOL_VERSION {
        MAX_SUPPORTED_PROTOCOL_VERSION
    } else {
        max
    }
}

/// Whether a handshake offer overlaps the versions the server speaks.
pub open spec fn spec_versions_overlap(min: u8, max: u8) -> bool {
    max >= MIN_SUPPORTED_PROTOCOL_VERSION && min <= MAX_SUPPORTED_PROTOCOL_VERSION
}

/// The session controller.
pub struct Controller {
    state: SessionState,
    peer: Option<u64>,
    current_screen: Option<u8>,
    current_segment: Option<u8>,
    exiting: bool,
    monitor_info: Vec<MonitorInfo>,
}

impl Controller {
    /// The session state.
    pub closed spec fn state(&self) -> SessionState {
        self.state
    }

    /// The connected peer, if any.
    pub closed spec fn peer(&self) -> Option<u64> {
        self.peer
    }

    /// The chosen monitor, once a view was requested.
    pub closed spec fn current_screen(&self) -> Option<u8> {
        self.current_screen
    }

    /// The chosen segment, once a view was requested.
    pub closed spec fn current_segment(&self) -> Option<u8> {
        self.current_segment
    }

    /// Whether the session is winding down for good rather than back
    /// to idle.
    pub closed spec fn exiting(&self) -> bool {
        self.exiting
    }

    /// The monitor table.
    pub closed spec fn monitors(&self) -> Seq<MonitorInfo> {
        self.monitor_info@
    }

    /// Internal consistency: a peer exactly outside idle, and any
    /// chosen view within the monitor table.
    pub closed spec fn wf(&self) -> bool {
        &&& (self.peer is Some <==> self.state != SessionState::Idle)
        &&& 1 <= self.monitor_info@.len() <= 255
        &&& forall|i: int|
            0 <= i < self.monitor_info@.len() ==> spec_monitor_ok(#[trigger] self.monitor_info@[i]@)
        &&& match self.current_screen {
            Some(s) => {
                &&& (s as int) < self.monitor_info@.len()
                &&& self.current_segment is Some
                &&& {
                    let m = self.monitor_info@[s as int]@;
                    let seg = self.current_segment.unwrap() as int;
                    let nx = m.midpoints_x.len() as int;
                    &&& seg < m.midpoints_x.len() * m.midpoints_y.len()
                    &&& m.midpoints_x[seg % nx] >= m.view_width / 2
                    &&& m.midpoints_y[seg / nx] >= m.view_height / 2
                    &&& (self.state == SessionState::Streaming || self.state
                        == SessionState::Closing)
                }
            },
            None => true,
        }
    }

    /// A fresh controller, idle and awaiting a handshake.
    pub fn new(monitor_info: Vec<MonitorInfo>) -> (r: Self)
        requires
            1 <= monitor_info@.len() <= 255,
            forall|i: int|
                0 <= i < monitor_info@.len() ==> spec_monitor_ok(#[trigger] monitor_info@[i]@),
        ensures
            r.wf(),
            r.state() == SessionState::Idle,
            r.peer() is None,
            r.current_screen() is None,
            !r.exiting(),
            r.monitors() == monitor_info@,
    {
        Controller {
            state: SessionState::Idle,
            peer: None,
            current_screen: None,
            current_segment: None,
            exiting: false,
            monitor_info,
        }
    }

    /// Decides the response to one handshake offer: the first peer
    /// with an overlapping version range is accepted with the highest
    /// common version and the session leaves idle; any other offer is
    /// rejected and changes nothing.
    pub fn handle_handshake(&mut self, src: u64, min: u8, max: u8) -> (actions: Vec<
        ControllerAction,
    >)
        requires
            old(self).wf(),
        ensures
            final(self).wf(),
            ({
                let accept = old(self).peer() is None && spec_versions_overlap(min, max);
                &&& (if accept {
                    &&& final(self).state() == SessionState::Connected
                    &&& final(self).peer() == Some(src)
                    &&& actions@ =~= seq![
                        ControllerAction::ToSender(
                            SenderMessage::AcceptHandshake(src, spec_chosen_version(max)),
                        ),
                    ]
                } else {
                    &&& final(self).state() == old(self).state()
                    &&& final(self).peer() == old(self).peer()
                    &&& actions@ =~= seq![
                        ControllerAction::ToSender(SenderMessage::RejectHandshake(src)),
                    ]
                })
                &&& final(self).current_screen() == old(self).current_screen()
                &&& final(self).current_segment() == old(self).current_segment()
                &&& final(self).exiting() == old(self).exiting()
                &&& final(self).monitors() == old(self).monitors()
            }),
    {
        let mut actions: Vec<ControllerAction> = Vec::new();
        if self.peer.is_none() && max >= MIN_SUPPORTED_PROTOCOL_VERSION && min
            <= MAX_SUPPORTED_PROTOCOL_VERSION {
            let protocol_version = if max >= MAX_SUPPORTED_PROTOCOL_VERSION {
                MAX_SUPPORTED_PROTOCOL_VERSION
            } else {
                max
            };
            self.peer = Some(src);
            self.state = SessionState::Connected;
            actions.push(
                ControllerAction::ToSender(SenderMessage::AcceptHandshake(src, protocol_version)),
            );
        } else {
            actions.push(ControllerAction::ToSender(SenderMessage::RejectHandshake(src)));
        }
        actions
    }

    /// Decides the response to one non-handshake message from the
    /// receiver.  Every data-plane message is ignored until a peer is
    /// connected; view requests are ignored unless they name an
    /// existing monitor segment; close and exit wind the session down.
    pub fn handle_message(&mut self, msg: MainMessage) -> (actions: Vec<ControllerAction>)
        requires
            old(self).wf(),
            !(msg is Handshake),
        ensures
            final(self).wf(),
            final(self).monitors() == old(self).monitors(),
            old(self).peer() is None ==> final(self).state() == old(self).state()
                && final(self).peer() == old(self).peer() && actions@.len() == 0,
            match msg {
                MainMessage::RequestScreenInfo => old(self).peer() is Some ==> actions@.len() == 1
                    && final(self).state() == old(self).state(),
                MainMessage::RequestView(screen, segment) => old(self).peer() is Some
                    ==> (if spec_view_ok(old(self).monitors(), screen, segment) {
                    &&& final(self).state() == SessionState::Streaming
                    &&& final(self).current_screen() == Some(screen)
                    &&& final(self).current_segment() == Some(segment)
                    &&& actions@ =~= seq![
                        ControllerAction::ToContext(ContextMessage::RequestView(screen, segment)),
                    ]
                } else {
                    final(self).state() == old(self).state() && actions@.len() == 0
                }),
                MainMessage::Refresh => old(self).peer() is Some ==> actions@ =~= seq![
                    ControllerAction::ToContext(ContextMessage::Refresh),
                ] && final(self).state() == old(self).state(),
                MainMessage::Close => old(self).peer() is Some ==> final(self).state()
                    == SessionState::Closing && !final(self).exiting() && actions@ =~= seq![
                    ControllerAction::ToContext(ContextMessage::Close),
                    ControllerAction::Join,
                ],
                MainMessage::Exit => old(self).peer() is Some ==> final(self).state()
                    == SessionState::Closing && final(self).exiting() && actions@ =~= seq![
                    ControllerAction::ToContext(ContextMessage::Close),
                    ControllerAction::Join,
                ],
                _ => true,
            },
    {
        let mut actions: Vec<ControllerAction> = Vec::new();
        if self.peer.is_none() {
            return actions;
        }
        match msg {
            MainMessage::Handshake(_, _, _) => {},
            MainMessage::RequestScreenInfo => {
                proof {
                    assert forall|i: int|
                        0 <= i < self.monitor_info@.len() implies encode_utf8(
                        #[trigger] self.monitor_info@[i]@.name,
                    ).len() <= 255 && self.monitor_info@[i]@.midpoints_x.len() <= 255
                        && self.monitor_info@[i]@.midpoints_y.len() <= 255 by {
                        assert(spec_monitor_ok(self.monitor_info@[i]@));
                    }
                }
                let info = MonitorInfo::serialize_vec(&self.monitor_info);
                actions.push(ControllerAction::ToSender(SenderMessage::ScreenInfo(info)));
            },
            MainMessage::RequestView(screen, segment) => {
                if view_request_ok(&self.monitor_info, screen, segment) {
                    self.current_screen = Some(screen);
                    self.current_segment = Some(segment);
                    self.state = SessionState::Streaming;
                    actions.push(
                        ControllerAction::ToContext(ContextMessage::RequestView(screen, segment)),
                    );
                }
            },
            MainMessage::Refresh => {
                actions.push(ControllerAction::ToContext(ContextMessage::Refresh));
            },
            MainMessage::Close => {
                self.state = SessionState::Closing;
                self.exiting = false;
                actions.push(ControllerAction::ToContext(ContextMessage::Close));
                actions.push(ControllerAction::Join);
            },
            MainMessage::Exit => {
                self.state = SessionState::Closing;
                self.exiting = true;
                actions.push(ControllerAction::ToContext(ContextMessage::Close));
                actions.push(ControllerAction::Join);
            },
            MainMessage::LeftClick(x, y) => {
                if self.current_screen.is_some() {
                    let (ox, oy) = self.view_offset();
                    actions.push(ControllerAction::MoveMouse(ox + x as i32, oy + y as i32));
                    actions.push(ControllerAction::Click(1));
                }
            },
            MainMessage::RightClick(x, y) => {
                if self.current_screen.is_some() {
                    let (ox, oy) = self.view_offset();
                    actions.push(ControllerAction::MoveMouse(ox + x as i32, oy + y as i32));
                    actions.push(ControllerAction::Click(3));
                }
            },
            MainMessage::DoubleClick(x, y) => {
                if self.current_screen.is_some() {
                    let (ox, oy) = self.view_offset();
                    actions.push(ControllerAction::MoveMouse(ox + x as i32, oy + y as i32));
                    actions.push(ControllerAction::Click(1));
                    actions.push(ControllerAction::MoveMouse(ox + x as i32, oy + y as i32));
                    actions.push(ControllerAction::Click(1));
                }
            },
            MainMessage::Drag(x0, y0, x1, y1) => {
                if self.current_screen.is_some() {
                    let (ox, oy) = self.view_offset();
                    actions.push(ControllerAction::MoveMouse(ox + x0 as i32, oy + y0 as i32));
                    actions.push(ControllerAction::MouseDown(1));
                    actions.push(ControllerAction::MoveMouse(ox + x1 as i32, oy + y1 as i32));
                    actions.push(ControllerAction::MouseUp(1));
                }
            },
            MainMessage::Keyboard(data) => {
                actions.push(ControllerAction::SendKeysequence(data));
            },
        }
        actions
    }

    /// Decides the frame tick: once streaming, each tick asks the
    /// change detector for a fresh frame.
    pub fn handle_tick(&mut self) -> (actions: Vec<ControllerAction>)
        requires
            old(self).wf(),
        ensures
            *final(self) == *old(self),
            final(self).wf(),
            old(self).state() == SessionState::Streaming ==> actions@ =~= seq![
                ControllerAction::ToContext(ContextMessage::NewScreenshot),
            ],
            old(self).state() != SessionState::Streaming ==> actions@.len() == 0,
    {
        let mut actions: Vec<ControllerAction> = Vec::new();
        match self.state {
            SessionState::Streaming => {
                actions.push(ControllerAction::ToContext(ContextMessage::NewScreenshot));
            },
            _ => {},
        }
        actions
    }

    /// Ends the closing phase once every subordinate has been joined:
    /// back to idle awaiting a new handshake, or done for good.
    pub fn finish_close(&mut self) -> (done: bool)
        requires
            old(self).wf(),
        ensures
            final(self).wf(),
            done == old(self).exiting(),
            !done ==> final(self).state() == SessionState::Idle && final(self).peer() is None
                && final(self).current_screen() is None,
    {
        if self.exiting {
            true
        } else {
            self.state = SessionState::Idle;
            self.peer = None;
            self.current_screen = None;
            self.current_segment = None;
            false
        }
    }

    /// The absolute screen offset of the chosen view segment.
    fn view_offset(&self) -> (r: (i32, i32))
        requires
            self.wf(),
            self.current_screen() is Some,
        ensures
            -3_000_000 <= r.0 <= 3_000_000,
            -3_000_000 <= r.1 <= 3_000_000,
    {
        let screen = self.current_screen.unwrap();
        let segment = self.current_segment.unwrap();
        proof {
            assert(spec_monitor_ok(self.monitor_info@[screen as int]@));
            let m = self.monitor_info@[screen as int]@;
            let nx = m.midpoints_x.len() as int;
            let ny = m.midpoints_y.len() as int;
            assert((segment as int) % nx < nx && (segment as int) / nx < ny) by (nonlinear_arith)
                requires
                    0 <= (segment as int) && (segment as int) < nx * ny,
                    nx >= 1,
                    ny >= 1,
            ;
            assert(m.midpoints_x[(segment as int) % nx] <= 1_000_000);
            assert(m.midpoints_y[(segment as int) / nx] <= 1_000_000);
        }
        get_offset(&self.monitor_info, screen, segment)
    }
}

impl Controller {
    /// The current session state.
    pub fn get_state(&self) -> (r: SessionState)
        ensures
            r == self.state(),
    {
        self.state
    }

    /// The connected peer token, if any.
    pub fn get_peer(&self) -> (r: Option<u64>)
        ensures
            r == self.peer(),
    {
        self.peer
    }
}

/// Whether a view request names an existing monitor and one of its
/// segments, with midpoints no closer to the edge than half a view.
pub open spec fn spec_view_ok(monitors: Seq<MonitorInfo>, screen: u8, segment: u8) -> bool {
    &&& (screen as int) < monitors.len()
    &&& {
        let m = monitors[screen as int]@;
        let nx = m.midpoints_x.len() as int;
        &&& (segment as int) < m.midpoints_x.len() * m.midpoints_y.len()
        &&& m.midpoints_x[(segment as int) % nx] >= m.view_width / 2
        &&& m.midpoints_y[(segment as int) / nx] >= m.view_height / 2
    }
}

/// Checks a view request against the monitor table.
fn view_request_ok(monitors: &Vec<MonitorInfo>, screen: u8, segment: u8) -> (r: bool)
    requires
        forall|i: int| 0 <= i < monitors@.len() ==> spec_monitor_ok(#[trigger] monitors@[i]@),
    ensures
        r == spec_view_ok(monitors@, screen, segment),
{
    if (screen as usize) >= monitors.len() {
        return false;
    }
    let m = &monitors[screen as usize];
    let nx = m.midpoints_x.len();
    let ny = m.midpoints_y.len();
    proof {
        assert(spec_monitor_ok(monitors@[screen as int]@));
        assert(nx * ny <= 255 * 255) by (nonlinear_arith)
            requires
                1 <= nx <= 255,
                1 <= ny <= 255,
        ;
    }
    if (segment as usize) >= nx * ny {
        return false;
    }
    proof {
        assert((segment as int) % (nx as int) < nx && (segment as int) / (nx as int) < ny)
            by (nonlinear_arith)
            requires
                0 <= (segment as int) && (segment as int) < (nx as int) * (ny as int),
                nx >= 1,
                ny >= 1,
        ;
    }
    let sx = (segment as usize) % nx;
    let sy = (segment as usize) / nx;
    m.midpoints_x[sx] >= m.view_width / 2 && m.midpoints_y[sy] >= m.view_height / 2
}

/// The watchdog's states: waiting for the first heartbeat, armed with
/// a deadline, or stopped.
#[derive(Debug, PartialEq, Eq, Structural, Clone, Copy)]
pub enum WatchdogState {
    Waiting,
    Armed,
    Stopped,
}

/// What the watchdog observes: a heartbeat, an orderly close, or its
/// deadline expiring.
#[derive(Debug, PartialEq, Eq, Structural, Clone, Copy)]
pub enum WatchdogEvent {
    Heartbeat,
    Close,
    TimedOut,
}

/// What the watchdog asks for when the peer went silent.
#[derive(Debug, PartialEq, Eq, Structural, Clone, Copy)]
pub enum WatchdogAction {
    NotifyMainClose,
    NotifyReceiverTimeout,
}

/// One step of the heartbeat watchdog: the first heartbeat arms the
/// deadline, later heartbeats re-arm it, a close stops the watchdog
/// quietly, and an expired deadline closes the session and unblocks
/// the receiver.
pub fn watchdog_step(state: WatchdogState, event: WatchdogEvent) -> (r: (
    WatchdogState,
    Vec<WatchdogAction>,
))
    ensures
        r.0 == spec_watchdog_next(state, event),
        r.1@ == spec_watchdog_actions(state, event),
{
    match (state, event) {
        (WatchdogState::Waiting, WatchdogEvent::Heartbeat) => (WatchdogState::Armed, Vec::new()),
        (WatchdogState::Armed, WatchdogEvent::Heartbeat) => (WatchdogState::Armed, Vec::new()),
        (WatchdogState::Armed, WatchdogEvent::TimedOut) => {
            let mut actions: Vec<WatchdogAction> = Vec::new();
            actions.push(WatchdogAction::NotifyMainClose);
            actions.push(WatchdogAction::NotifyReceiverTimeout);
            proof {
                assert(actions@ =~= spec_watchdog_actions(state, event));
            }
            (WatchdogState::Stopped, actions)
        },
        (_, WatchdogEvent::Close) => (WatchdogState::Stopped, Vec::new()),
        _ => (state, Vec::new()),
    }
}

/// The watchdog's next state.
pub open spec fn spec_watchdog_next(state: WatchdogState, event: WatchdogEvent) -> WatchdogState {
    match (state, event) {
        (WatchdogState::Waiting, WatchdogEvent::Heartbeat) => WatchdogState::Armed,
        (WatchdogState::Armed, WatchdogEvent::Heartbeat) => WatchdogState::Armed,
        (WatchdogState::Armed, WatchdogEvent::TimedOut) => WatchdogState::Stopped,
        (_, WatchdogEvent::Close) => WatchdogState::Stopped,
        _ => state,
    }
}

/// What the watchdog asks for on each step: nothing, unless the armed
/// deadline expired.
pub open spec fn spec_watchdog_actions(state: WatchdogState, event: WatchdogEvent) -> Seq<
    WatchdogAction,
> {
    match (state, event) {
        (WatchdogState::Armed, WatchdogEvent::TimedOut) => seq![
            WatchdogAction::NotifyMainClose,
            WatchdogAction::NotifyReceiverTimeout,
        ],
        _ => Seq::empty(),
    }
}

} // verus!
