//! Tests of the monitor list, the session controller and the
//! heartbeat watchdog.

use remotedesk::controller::watchdog_step;
use remotedesk::controller::Controller;
use remotedesk::controller::ControllerAction;
use remotedesk::controller::SessionState;
use remotedesk::controller::WatchdogAction;
use remotedesk::controller::WatchdogEvent;
use remotedesk::controller::WatchdogState;
use remotedesk::monitor::get_offset;
use remotedesk::monitor::monitors_from_listing;
use remotedesk::monitor::MonitorInfo;
use remotedesk::protocol::ContextMessage;
use remotedesk::protocol::MainMessage;
use remotedesk::protocol::SenderMessage;

#[test]
fn monitor_midpoints_partition_each_axis() {
    let m = MonitorInfo::new("left".to_string(), 1920, 1080, 0, 0);
    assert_eq!(m.view_width, 640);
    assert_eq!(m.view_height, 368);
    // 1920 / 640 = 3 windows across: half a view from each edge and
    // one in the middle.
    assert_eq!(m.midpoints_x, vec![320, 960, 1600]);
    // 1080 needs 3 windows down: 184, 184 + (1080-368)/2, 1080 - 184.
    assert_eq!(m.midpoints_y, vec![184, 540, 896]);
}

#[test]
fn monitor_list_roundtrips_through_the_wire_form() {
    let a = MonitorInfo::new("a".to_string(), 1920, 1080, 0, 0);
    let b = MonitorInfo::new("two".to_string(), 640, 368, 1920, 0);
    let bytes = MonitorInfo::serialize_vec(&vec![a, b]);
    assert_eq!(&bytes[0..8], &[255u8; 8]);
    assert_eq!(bytes[8], 2);
    let back = MonitorInfo::deserialize_vec(&bytes).expect("the wire form parses");
    assert_eq!(back.len(), 2);
    assert_eq!(back[0], (b"a".to_vec(), 3, 3));
    assert_eq!(back[1], (b"two".to_vec(), 2, 2));
    // Trailing garbage is rejected.
    let mut longer = MonitorInfo::serialize_vec(&vec![
        MonitorInfo::new("a".to_string(), 1920, 1080, 0, 0),
    ]);
    longer.push(0);
    assert!(MonitorInfo::deserialize_vec(&longer).is_none());
}

#[test]
fn listing_parse_finds_connected_monitors_in_position_order() {
    let listing = "HDMI-1 connected 1920x1080+1920+0 (normal left inverted) 509mm x 286mm\n\
                   eDP-1 connected primary 1920x1080+0+0 (normal left inverted) 344mm x 194mm\n\
                   DP-1 disconnected (normal left inverted)\n";
    let monitors = monitors_from_listing(listing);
    assert_eq!(monitors.len(), 2);
    assert_eq!(monitors[0].name, "eDP-1");
    assert_eq!(monitors[0].offset_x, 0);
    assert_eq!(monitors[1].name, "HDMI-1");
    assert_eq!(monitors[1].offset_x, 1920);
    assert_eq!(monitors[1].width, 1920);
    assert_eq!(monitors[1].height, 1080);
    // A listing without monitor lines yields nothing.
    assert!(monitors_from_listing("no screens here").is_empty());
}

#[test]
fn segment_offset_centres_the_view_on_its_midpoint() {
    let m = MonitorInfo::new("a".to_string(), 1920, 1080, 100, 50);
    let monitors = vec![m];
    // Segment 4 of the 3x3 grid: midpoint (960, 540).
    assert_eq!(get_offset(&monitors, 0, 4), (100 + 960 - 320, 50 + 540 - 184));
    assert_eq!(get_offset(&monitors, 0, 0), (100 + 320 - 320, 50 + 184 - 184));
}

fn session_monitors() -> Vec<MonitorInfo> {
    vec![MonitorInfo::new("a".to_string(), 1920, 1080, 0, 0)]
}

#[test]
fn handshake_accepts_the_first_peer_and_rejects_the_second() {
    let mut ctrl = Controller::new(session_monitors());
    assert_eq!(ctrl.get_state(), SessionState::Idle);
    let actions = ctrl.handle_handshake(1, 1, 1);
    assert_eq!(
        actions,
        vec![ControllerAction::ToSender(SenderMessage::AcceptHandshake(1, 1))]
    );
    assert_eq!(ctrl.get_state(), SessionState::Connected);
    assert_eq!(ctrl.get_peer(), Some(1));
    // A second peer is rejected and the first stays active.
    let actions = ctrl.handle_handshake(2, 1, 1);
    assert_eq!(
        actions,
        vec![ControllerAction::ToSender(SenderMessage::RejectHandshake(2))]
    );
    assert_eq!(ctrl.get_peer(), Some(1));
    // The handshake reply on the wire is the ack opcode and the
    // chosen version.
    assert_eq!(remotedesk::transport::accept_handshake_reply(1), vec![0, 1]);
}

#[test]
fn handshake_without_version_overlap_is_rejected() {
    let mut ctrl = Controller::new(session_monitors());
    let actions = ctrl.handle_handshake(1, 2, 9);
    assert_eq!(
        actions,
        vec![ControllerAction::ToSender(SenderMessage::RejectHandshake(1))]
    );
    assert_eq!(ctrl.get_state(), SessionState::Idle);
}

#[test]
fn view_request_starts_streaming_and_ticks_request_frames() {
    let mut ctrl = Controller::new(session_monitors());
    // Before the handshake everything is ignored.
    assert!(ctrl.handle_message(MainMessage::RequestView(0, 0)).is_empty());
    assert!(ctrl.handle_tick().is_empty());
    ctrl.handle_handshake(1, 1, 1);
    assert!(ctrl.handle_tick().is_empty());
    let actions = ctrl.handle_message(MainMessage::RequestView(0, 0));
    assert_eq!(
        actions,
        vec![ControllerAction::ToContext(ContextMessage::RequestView(0, 0))]
    );
    assert_eq!(ctrl.get_state(), SessionState::Streaming);
    assert_eq!(
        ctrl.handle_tick(),
        vec![ControllerAction::ToContext(ContextMessage::NewScreenshot)]
    );
    // A view naming a monitor that does not exist is ignored.
    assert!(ctrl.handle_message(MainMessage::RequestView(7, 0)).is_empty());
}

#[test]
fn clicks_are_offset_into_the_chosen_segment() {
    let mut ctrl = Controller::new(session_monitors());
    ctrl.handle_handshake(1, 1, 1);
    // Clicks before a view is chosen are ignored.
    assert!(ctrl.handle_message(MainMessage::LeftClick(5, 6)).is_empty());
    ctrl.handle_message(MainMessage::RequestView(0, 4));
    let actions = ctrl.handle_message(MainMessage::LeftClick(5, 6));
    assert_eq!(
        actions,
        vec![
            ControllerAction::MoveMouse(960 - 320 + 5, 540 - 184 + 6),
            ControllerAction::Click(1),
        ]
    );
}

#[test]
fn heartbeat_timeout_closes_the_session_back_to_idle() {
    // The watchdog waits for the first heartbeat, then arms.
    let (s1, a1) = watchdog_step(WatchdogState::Waiting, WatchdogEvent::Heartbeat);
    assert_eq!(s1, WatchdogState::Armed);
    assert!(a1.is_empty());
    // A further heartbeat re-arms quietly.
    let (s2, a2) = watchdog_step(s1, WatchdogEvent::Heartbeat);
    assert_eq!(s2, WatchdogState::Armed);
    assert!(a2.is_empty());
    // The deadline expires: close the session and unblock the
    // receiver.
    let (s3, a3) = watchdog_step(s2, WatchdogEvent::TimedOut);
    assert_eq!(s3, WatchdogState::Stopped);
    assert_eq!(
        a3,
        vec![WatchdogAction::NotifyMainClose, WatchdogAction::NotifyReceiverTimeout]
    );
    // The controller winds down and returns to idle for a new
    // handshake.
    let mut ctrl = Controller::new(session_monitors());
    ctrl.handle_handshake(1, 1, 1);
    let actions = ctrl.handle_message(MainMessage::Close);
    assert_eq!(
        actions,
        vec![
            ControllerAction::ToContext(ContextMessage::Close),
            ControllerAction::Join,
        ]
    );
    assert_eq!(ctrl.get_state(), SessionState::Closing);
    assert!(!ctrl.finish_close());
    assert_eq!(ctrl.get_state(), SessionState::Idle);
    assert_eq!(ctrl.get_peer(), None);
    // Exit instead terminates for good.
    ctrl.handle_handshake(3, 1, 1);
    ctrl.handle_message(MainMessage::Exit);
    assert!(ctrl.finish_close());
}
