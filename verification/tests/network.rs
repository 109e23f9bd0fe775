use std::collections::HashMap;

use sdal::protocol::{peer_request, PeerRequest, PushRequest, PushResponse, RefsResponse, TransferObject};
use sdal::transport::{P2pTransport, Transport, TransportError};

pub struct MockTransport {
    pub responses: HashMap<String, Vec<u8>>,
}

impl MockTransport {
    pub fn new() -> Self {
        Self { responses: HashMap::new() }
    }

    pub fn set_response(&mut self, path: &str, data: Vec<u8>) {
        self.responses.insert(path.to_string(), data);
    }
}

impl Transport for MockTransport {
    fn get(&self, path: &str) -> Result<Vec<u8>, TransportError> {
        self.responses
            .get(path)
            .cloned()
            .ok_or_else(|| TransportError { message: format!("Mock: no response for GET {}", path) })
    }

    fn post(&self, path: &str, _body: Vec<u8>) -> Result<Vec<u8>, TransportError> {
        self.responses
            .get(path)
            .cloned()
            .ok_or_else(|| TransportError { message: format!("Mock: no response for POST {}", path) })
    }
}

#[test]
fn test_mock_transport() {
    let mut mock = MockTransport::new();
    mock.set_response("/refs", b"{}".to_vec());

    let result = mock.get("/refs").unwrap();
    assert_eq!(result, b"{}");
}

#[test]
fn mock_transport_missing_path() {
    let mock = MockTransport::new();
    let err = mock.post("/push", vec![1]).unwrap_err();
    assert_eq!(err.message, "Mock: no response for POST /push");
}

#[test]
fn peer_addresses() {
    assert_eq!(P2pTransport::new("sdalp://10.0.0.1:7070").address(), "10.0.0.1:7070");
    assert_eq!(P2pTransport::new("host:1").address(), "host:1");
    assert_eq!(P2pTransport::new("sdalp:/x").address(), "sdalp:/x");
}

#[test]
fn protocol_values() {
    let obj = TransferObject { hash: "h".into(), data: vec![1, 2] };
    assert_eq!(obj.data.len(), 2);
    let req = PushRequest { new_head: "abc".into(), branch: "main".into() };
    assert_eq!(req.branch, "main");
    let resp = PushResponse { success: true, message: "ok".into() };
    assert!(resp.success);
    let mut refs = HashMap::new();
    refs.insert("refs/heads/main".to_string(), "abc".to_string());
    let r = RefsResponse { refs, head: None };
    assert_eq!(r.refs.len(), 1);
}

#[test]
fn peer_request_routing() {
    assert_eq!(peer_request("GET", "/refs"), PeerRequest::Refs);
    assert_eq!(peer_request("GET", "/other"), PeerRequest::Ignored);
    assert_eq!(peer_request("POST", "/metadata/discover"), PeerRequest::Discover);
    assert_eq!(peer_request("POST_RECEIVE_STREAM", "/chunks/fetch"), PeerRequest::FetchChunks);
    assert_eq!(peer_request("POST", "/push"), PeerRequest::OtherPost);
    assert_eq!(peer_request("POST_STREAM", "/push"), PeerRequest::Push);
    assert_eq!(peer_request("POST_STREAM", "/refs"), PeerRequest::Ignored);
    assert_eq!(peer_request("DELETE", "/refs"), PeerRequest::UnknownMethod);
}
