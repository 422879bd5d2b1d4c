//! The messages that the key/value service and its clients exchange.
use vstd::prelude::*;

verus! {

/// How a request went.
#[allow(non_camel_case_types)]
#[derive(PartialEq, Eq, Structural, Clone, Copy, Debug)]
pub enum Status {
    success,
    keyNotFound,
    failed,
}

pub struct GetRequest {
    pub key: String,
}

pub struct GetResponse {
    pub status: Status,
    pub value: String,
}

pub struct PutRequest {
    pub key: String,
    pub value: String,
}

pub struct PutResponse {
    pub status: Status,
}

pub struct DeleteRequest {
    pub key: String,
}

pub struct DeleteResponse {
    pub status: Status,
}

pub struct ScanRequest {
    pub key_start: String,
    pub key_end: String,
}

/// The pairs found by a scan, in key order.
pub struct ScanResponse {
    pub status: Status,
    pub kvs: Vec<(String, String)>,
}

pub struct HelloRequest {
    pub name: String,
}

pub struct HelloReply {
    pub message: String,
}

} // verus!
