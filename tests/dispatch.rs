use dolls_network::packet::PacketType;
use dolls_network::processor::{get_handler, init_packet_processors, PacketProcessorRegistration, PacketRegistry};
use dolls_network::server::{DollNetworkServer, IpAddress, ServerError};
use dolls_network::session::{ConnectionSession, HandlerAction, SessionAction, SessionState};

fn registry_with(regs: &[PacketProcessorRegistration<&'static str>]) -> PacketRegistry<&'static str> {
    let mut r = PacketRegistry::new();
    init_packet_processors(&mut r, regs);
    r
}

#[test]
fn registry_init_is_idempotent() {
    let regs = [PacketProcessorRegistration { packet_id: PacketType::Handshake, processor: "handshake" }];
    let mut r = PacketRegistry::new();
    init_packet_processors(&mut r, &regs);
    assert_eq!(get_handler(&r, 0), Some("handshake"));
    let other = [PacketProcessorRegistration { packet_id: PacketType::Handshake, processor: "other" }];
    init_packet_processors(&mut r, &other);
    assert_eq!(get_handler(&r, 0), Some("handshake"));
    init_packet_processors(&mut r, &regs);
    assert_eq!(get_handler(&r, 0), Some("handshake"));
    assert_eq!(get_handler(&r, 1), None);
}

#[test]
fn registry_last_registration_wins() {
    let r = registry_with(&[
        PacketProcessorRegistration { packet_id: PacketType::Handshake, processor: "first" },
        PacketProcessorRegistration { packet_id: PacketType::Handshake, processor: "second" },
    ]);
    assert_eq!(get_handler(&r, 0), Some("second"));
}

#[test]
fn registry_empty_and_explicit_register() {
    let mut r: PacketRegistry<&'static str> = registry_with(&[]);
    assert!(r.is_empty());
    assert_eq!(get_handler(&r, 0), None);
    r.register(7, "seven");
    assert!(!r.is_empty());
    assert_eq!(get_handler(&r, 7), Some("seven"));
}

#[test]
fn unknown_packet_does_not_close_session() {
    let r = registry_with(&[PacketProcessorRegistration { packet_id: PacketType::Handshake, processor: "handshake" }]);
    let mut s = ConnectionSession::new();
    assert!(matches!(s.step(&r), SessionAction::ReadMore));
    s.receive(&[0x01, 0x2a, 0x02, 0x00, 0x07]);
    assert!(matches!(s.step(&r), SessionAction::ReportUnknownPacket(42)));
    assert_eq!(s.state(), SessionState::Reading);
    match s.step(&r) {
        SessionAction::Invoke(h, p) => {
            assert_eq!(h, "handshake");
            assert_eq!(p.packet_id, 0);
            assert_eq!(p.payload, vec![0x07]);
        }
        _ => panic!("expected the handshake handler"),
    }
    assert_eq!(s.state(), SessionState::Dispatching);
    assert_eq!(s.handler_finished(true), HandlerAction::Continue);
    assert!(matches!(s.step(&r), SessionAction::ReadMore));
}

#[test]
fn handler_failure_does_not_close_session() {
    let r = registry_with(&[PacketProcessorRegistration { packet_id: PacketType::Handshake, processor: "handshake" }]);
    let mut s = ConnectionSession::new();
    s.receive(&[0x01, 0x00, 0x02, 0x00, 0x09]);
    assert!(matches!(s.step(&r), SessionAction::Invoke(_, _)));
    assert!(matches!(s.step(&r), SessionAction::Idle));
    assert_eq!(s.handler_finished(false), HandlerAction::ReportHandlerError);
    assert_eq!(s.state(), SessionState::Reading);
    match s.step(&r) {
        SessionAction::Invoke(_, p) => assert_eq!(p.payload, vec![0x09]),
        _ => panic!("expected the next frame"),
    }
    assert_eq!(s.handler_finished(true), HandlerAction::Continue);
    assert_eq!(s.handler_finished(true), HandlerAction::Idle);
}

#[test]
fn malformed_frame_closes_session() {
    let r: PacketRegistry<&'static str> = registry_with(&[]);
    let mut s = ConnectionSession::new();
    s.receive(&[0x00, 0x01]);
    assert!(matches!(s.step(&r), SessionAction::Close));
    assert_eq!(s.state(), SessionState::Closed);
    assert!(matches!(s.step(&r), SessionAction::Idle));
    let mut t = ConnectionSession::new();
    t.stream_ended();
    assert_eq!(t.state(), SessionState::Closed);
}

#[test]
fn second_accept_is_refused() {
    let mut server = DollNetworkServer::new(IpAddress::V4([127, 0, 0, 1]), 25565);
    assert!(!server.is_running());
    assert_eq!(server.accept(), Ok(()));
    assert!(server.is_running());
    assert_eq!(server.accept(), Err(ServerError::AlreadyRunning));
    assert!(server.is_running());
    assert_eq!(server.port(), 25565);
    assert_eq!(server.ip_address(), IpAddress::V4([127, 0, 0, 1]));
}

#[test]
fn start_fills_registry_once() {
    let regs = [PacketProcessorRegistration { packet_id: PacketType::Handshake, processor: "handshake" }];
    let mut server = DollNetworkServer::new(IpAddress::V4([127, 0, 0, 1]), 25565);
    let mut registry = PacketRegistry::new();
    assert_eq!(server.start(&mut registry, &regs), Ok(()));
    assert!(server.is_running());
    assert_eq!(get_handler(&registry, 0), Some("handshake"));
    let mut other = PacketRegistry::new();
    assert_eq!(server.start(&mut other, &regs), Err(ServerError::AlreadyRunning));
    assert!(other.is_empty());
}
