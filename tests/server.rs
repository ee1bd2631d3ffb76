use aeronet_proto::message::{MessageState, MessageTicket};
use aeronet_proto::server::{ClientSlot, OpenServer, ServerError, WebTransportServer};
use std::collections::HashMap;

#[test]
fn ticket_round_trip() {
    assert_eq!(42, MessageTicket::from_raw(42).into_raw());
    assert_ne!(MessageState::Ack, MessageState::Nack);
}

#[test]
fn server_life_cycle() {
    let mut s = WebTransportServer::new();
    assert_eq!(Err(ServerError::AlreadyClosed), s.close());
    assert_eq!(Err(ServerError::NotOpen), s.accept_request(1));
    assert_eq!(Ok(()), s.open());
    assert_eq!(Err(ServerError::AlreadyOpen), s.open());
    assert_eq!(Err(ServerError::NotOpen), s.reject_request(1));
    s.opened();
    assert!(matches!(s, WebTransportServer::Open(_)));
    assert_eq!(Ok(()), s.close());
    assert!(matches!(s, WebTransportServer::Closed));
}

#[test]
fn server_answers_requests() {
    let mut clients = HashMap::new();
    clients.insert(1u64, ClientSlot::Requesting);
    clients.insert(2u64, ClientSlot::Requesting);
    clients.insert(3u64, ClientSlot::Connected);
    let mut s = WebTransportServer::Open(OpenServer { clients });
    assert_eq!(Ok(()), s.accept_request(1));
    assert_eq!(Err(ServerError::AlreadyResponded), s.accept_request(1));
    assert_eq!(Ok(()), s.reject_request(2));
    assert_eq!(Err(ServerError::ClientNotRequesting), s.reject_request(3));
    assert_eq!(Err(ServerError::NoClient), s.accept_request(9));
}
