//! What a client of the key/value service makes of the service's responses.
use vstd::prelude::*;

use crate::protos::{GetResponse, ScanResponse, Status};
use crate::store::{Key, Value};

verus! {

/// The value that a get response carries: present only on `success`.
pub fn get_result(response: GetResponse) -> (r: Option<Value>)
    ensures
        match r {
            Some(v) => response.status == Status::success && v == response.value,
            None => response.status != Status::success,
        },
{
    match response.status {
        Status::success => Some(response.value),
        _ => None,
    }
}

/// The pairs that a scan response carries: present only on `success`.
pub fn scan_result(response: ScanResponse) -> (r: Option<Vec<(Key, Value)>>)
    ensures
        match r {
            Some(kvs) => response.status == Status::success && kvs@ == response.kvs@,
            None => response.status != Status::success,
        },
{
    match response.status {
        Status::success => Some(response.kvs),
        _ => None,
    }
}

} // verus!
