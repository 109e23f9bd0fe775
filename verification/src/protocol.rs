//! Requests and replies of the fetch and push protocol.

use vstd::prelude::*;
use std::collections::HashMap;
use crate::text::str_eq;

verus! {

/// Fetch, first phase: the commits the client wants to reach.
#[derive(Debug)]
pub struct MetadataRequest {
    pub want: Vec<String>,
}

/// One object in transfer: its hash and its bytes.
#[derive(Debug)]
pub struct TransferObject {
    pub hash: String,
    pub data: Vec<u8>,
}

/// Fetch, first phase: commits, trees and blob manifests, without chunks.
#[derive(Debug)]
pub struct MetadataResponse {
    pub objects: Vec<TransferObject>,
}

/// Fetch, second phase: the chunks the client lacks.
#[derive(Debug)]
pub struct ChunkRequest {
    pub want_chunks: Vec<String>,
}

/// Fetch, second phase: the chunks asked for.
#[derive(Debug)]
pub struct ChunkResponse {
    pub chunks: Vec<TransferObject>,
}

/// Push: the branch to move and its new head; the objects follow as frames.
#[derive(Debug)]
pub struct PushRequest {
    pub new_head: String,
    pub branch: String,
}

/// Push: the outcome.
#[derive(Debug)]
pub struct PushResponse {
    pub success: bool,
    pub message: String,
}

/// The refs of a repository (ref name to commit hash) and its HEAD.
#[derive(Debug)]
pub struct RefsResponse {
    pub refs: HashMap<String, String>,
    pub head: Option<String>,
}

/// What a peer connection asks for, read from its method line and its path
/// line (both trimmed).
#[derive(Debug, Clone, Copy, PartialEq, Eq)]
pub enum PeerRequest {
    /// `GET /refs`: the branches and the head.
    Refs,
    /// A signed `POST` to `/metadata/discover`.
    Discover,
    /// A signed `POST` to `/chunks/fetch`.
    FetchChunks,
    /// A signed `POST` to any other path: the envelope is checked, nothing
    /// is answered.
    OtherPost,
    /// A `POST_STREAM` to `/push`: an envelope line, then object frames.
    Push,
    /// A known method on a path it does not serve: nothing is done.
    Ignored,
    /// A method the peer does not know: the connection fails.
    UnknownMethod,
}

/// Whether a method carries a signed body that is read whole.
pub open spec fn is_post_method(method: Seq<char>) -> bool {
    method == "POST"@ || method == "POST_RECEIVE_STREAM"@
}

/// The request that a method and a path make.
pub open spec fn spec_peer_request(method: Seq<char>, path: Seq<char>) -> PeerRequest {
    if method == "GET"@ {
        if path == "/refs"@ {
            PeerRequest::Refs
        } else {
            PeerRequest::Ignored
        }
    } else if is_post_method(method) {
        if path == "/metadata/discover"@ {
            PeerRequest::Discover
        } else if path == "/chunks/fetch"@ {
            PeerRequest::FetchChunks
        } else {
            PeerRequest::OtherPost
        }
    } else if method == "POST_STREAM"@ {
        if path == "/push"@ {
            PeerRequest::Push
        } else {
            PeerRequest::Ignored
        }
    } else {
        PeerRequest::UnknownMethod
    }
}

/// Both methods that carry a signed body route by the path alone: for
/// `POST` and `POST_RECEIVE_STREAM` alike, `/chunks/fetch` asks for chunks,
/// `/metadata/discover` asks for the branch metadata, and any other path is
/// a post that nothing answers.
pub proof fn lemma_post_routes_by_path(method: Seq<char>, path: Seq<char>)
    requires
        method == "POST"@ || method == "POST_RECEIVE_STREAM"@,
    ensures
        spec_peer_request(method, path) == spec_peer_request("POST"@, path),
        spec_peer_request(method, path) == spec_peer_request("POST_RECEIVE_STREAM"@, path),
        path == "/chunks/fetch"@ ==> spec_peer_request(method, path) == PeerRequest::FetchChunks,
        path == "/metadata/discover"@ ==> spec_peer_request(method, path) == PeerRequest::Discover,
        path != "/chunks/fetch"@ && path != "/metadata/discover"@ ==> spec_peer_request(method, path)
            == PeerRequest::OtherPost,
{
    reveal_strlit("POST");
    reveal_strlit("POST_RECEIVE_STREAM");
    reveal_strlit("GET");
    reveal_strlit("/chunks/fetch");
    reveal_strlit("/metadata/discover");
    assert("POST"@.len() != "GET"@.len());
    assert("POST_RECEIVE_STREAM"@.len() != "GET"@.len());
    assert("/chunks/fetch"@.len() != "/metadata/discover"@.len());
}

/// The rest of the routing table: `GET /refs` asks for the refs and
/// `POST_STREAM /push` pushes; those two methods ignore any other path, and
/// a method other than `GET`, `POST`, `POST_RECEIVE_STREAM` and
/// `POST_STREAM` is unknown, whatever the path.
pub proof fn lemma_peer_routes(method: Seq<char>, path: Seq<char>)
    ensures
        spec_peer_request("GET"@, "/refs"@) == PeerRequest::Refs,
        spec_peer_request("POST_STREAM"@, "/push"@) == PeerRequest::Push,
        path != "/refs"@ ==> spec_peer_request("GET"@, path) == PeerRequest::Ignored,
        path != "/push"@ ==> spec_peer_request("POST_STREAM"@, path) == PeerRequest::Ignored,
        method != "GET"@ && method != "POST"@ && method != "POST_RECEIVE_STREAM"@ && method
            != "POST_STREAM"@ ==> spec_peer_request(method, path) == PeerRequest::UnknownMethod,
{
    reveal_strlit("POST");
    reveal_strlit("POST_RECEIVE_STREAM");
    reveal_strlit("POST_STREAM");
    reveal_strlit("GET");
    assert("POST_STREAM"@.len() != "GET"@.len());
    assert("POST_STREAM"@.len() != "POST"@.len());
    assert("POST_STREAM"@.len() != "POST_RECEIVE_STREAM"@.len());
}

/// Classifies a peer connection by its method and path.
pub fn peer_request(method: &str, path: &str) -> (r: PeerRequest)
    ensures
        r == spec_peer_request(method@, path@),
{
    if str_eq(method, "GET") {
        if str_eq(path, "/refs") {
            PeerRequest::Refs
        } else {
            PeerRequest::Ignored
        }
    } else if str_eq(method, "POST") || str_eq(method, "POST_RECEIVE_STREAM") {
        if str_eq(path, "/metadata/discover") {
            PeerRequest::Discover
        } else if str_eq(path, "/chunks/fetch") {
            PeerRequest::FetchChunks
        } else {
            PeerRequest::OtherPost
        }
    } else if str_eq(method, "POST_STREAM") {
        if str_eq(path, "/push") {
            PeerRequest::Push
        } else {
            PeerRequest::Ignored
        }
    } else {
        PeerRequest::UnknownMethod
    }
}

} // verus!
