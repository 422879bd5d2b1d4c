//! The request handlers of the key/value service: each turns a request into
//! a call of the storage engine and its result into a response.
use vstd::prelude::*;

use crate::protos::{
    DeleteRequest, DeleteResponse, GetRequest, GetResponse, HelloReply, HelloRequest, PutRequest,
    PutResponse, ScanRequest, ScanResponse, Status,
};
use crate::store::engine::log::{entry_text, LogType};
use crate::store::engine::{Kvdb, LOG_PATH};
use crate::store::order::key_lt;
use crate::store::table::{entries_map, keys_increasing, range_of};
use crate::store::text::is_word;
use crate::store::Engine;

verus! {

/// The greeting for `name`: `hello, NAME!`.
pub open spec fn greeting(name: Seq<char>) -> Seq<char> {
    seq!['h', 'e', 'l', 'l', 'o', ',', ' '] + name + seq!['!']
}

/// A greeting is `hello, `, then the whole name unchanged, then `!`: it is
/// eight characters longer than the name, whatever the name holds.
pub proof fn law_greeting(name: Seq<char>)
    ensures
        greeting(name).len() == name.len() + 8,
        greeting(name).subrange(0, 7) == seq!['h', 'e', 'l', 'l', 'o', ',', ' '],
        greeting(name).subrange(7, 7 + name.len() as int) == name,
        greeting(name)[7 + name.len() as int] == '!',
{
    let g = greeting(name);
    assert(g.subrange(0, 7) =~= seq!['h', 'e', 'l', 'l', 'o', ',', ' ']);
    assert(g.subrange(7, 7 + name.len() as int) =~= name);
}

/// The greeting service.
pub struct HelloService;

impl HelloService {
    /// Greets the sender of `req` by name.
    pub fn hello(&mut self, req: HelloRequest) -> (reply: HelloReply)
        ensures
            reply.message@ == greeting(req.name@),
            reply.message@.len() == req.name@.len() + 8,
            reply.message@.subrange(7, 7 + req.name@.len() as int) == req.name@,
    {
        let mut message = String::from_str("hello, ");
        message.append(req.name.as_str());
        message.append("!");
        proof {
            reveal_strlit("hello, ");
            reveal_strlit("!");
        }
        assert(message@ =~= greeting(req.name@));
        proof {
            law_greeting(req.name@);
        }
        HelloReply { message }
    }
}

/// The key/value service, over one store.
pub struct KvService {
    pub kvdb: Kvdb,
}

impl KvService {
    /// A service over an empty store whose log goes to `kv.log`.
    pub fn new() -> (s: KvService)
        ensures
            s.kvdb.wf(),
            s.kvdb@ == Map::<Seq<char>, Seq<char>>::empty(),
            s.kvdb.log_text().len() == 0,
            s.kvdb.log_output().len() == 0,
            s.kvdb.log_path() == LOG_PATH@,
            s.kvdb.origin() == Map::<Seq<char>, Seq<char>>::empty(),
            s.kvdb.journal_consistent(),
    {
        KvService { kvdb: Kvdb::new() }
    }

    /// Answers with the value stored under the key, or `keyNotFound`.
    pub fn get(&mut self, req: GetRequest) -> (response: GetResponse)
        requires
            old(self).kvdb.wf(),
        ensures
            final(self).kvdb == old(self).kvdb,
            if old(self).kvdb@.contains_key(req.key@) {
                response.status == Status::success && response.value@ == old(self).kvdb@[req.key@]
            } else {
                response.status == Status::keyNotFound && response.value@.len() == 0
            },
    {
        let mut response = GetResponse { status: Status::success, value: String::new() };
        let ret = self.kvdb.get(&req.key);
        match ret {
            Ok(option) => match option {
                Some(value) => {
                    response.status = Status::success;
                    response.value = value;
                },
                None => response.status = Status::keyNotFound,
            },
            Err(_) => response.status = Status::failed,
        }
        response
    }

    /// Stores the value under the key; answers `success`.
    pub fn put(&mut self, req: PutRequest) -> (response: PutResponse)
        requires
            old(self).kvdb.wf(),
        ensures
            final(self).kvdb.wf(),
            response.status == Status::success,
            final(self).kvdb@ == old(self).kvdb@.insert(req.key@, req.value@),
            final(self).kvdb.log_text() == old(self).kvdb.log_text() + entry_text(
                LogType::Put,
                req.key@,
                req.value@,
            ),
            final(self).kvdb.log_output() == old(self).kvdb.log_output() + entry_text(
                LogType::Put,
                req.key@,
                req.value@,
            ),
            final(self).kvdb.log_path() == old(self).kvdb.log_path(),
            final(self).kvdb.origin() == old(self).kvdb.origin(),
            old(self).kvdb.journal_consistent() && is_word(req.key@) && is_word(req.value@)
                ==> final(self).kvdb.journal_consistent(),
    {
        let mut response = PutResponse { status: Status::success };
        let ret = self.kvdb.put(&req.key, &req.value);
        match ret {
            Ok(_) => response.status = Status::success,
            Err(_) => response.status = Status::failed,
        }
        response
    }

    /// Removes the key; answers `success` if it was there, `keyNotFound` if not.
    pub fn delete(&mut self, req: DeleteRequest) -> (response: DeleteResponse)
        requires
            old(self).kvdb.wf(),
        ensures
            final(self).kvdb.wf(),
            final(self).kvdb@ == old(self).kvdb@.remove(req.key@),
            response.status == (if old(self).kvdb@.contains_key(req.key@) {
                Status::success
            } else {
                Status::keyNotFound
            }),
            old(self).kvdb@.contains_key(req.key@) ==> final(self).kvdb.log_text() == old(
                self,
            ).kvdb.log_text() + entry_text(LogType::Delete, req.key@, old(self).kvdb@[req.key@]),
            !old(self).kvdb@.contains_key(req.key@) ==> final(self).kvdb.log_text() == old(
                self,
            ).kvdb.log_text(),
            old(self).kvdb@.contains_key(req.key@) ==> final(self).kvdb.log_output() == old(
                self,
            ).kvdb.log_output() + entry_text(LogType::Delete, req.key@, old(self).kvdb@[req.key@]),
            !old(self).kvdb@.contains_key(req.key@) ==> final(self).kvdb.log_output() == old(
                self,
            ).kvdb.log_output(),
            final(self).kvdb.log_path() == old(self).kvdb.log_path(),
            final(self).kvdb.origin() == old(self).kvdb.origin(),
            old(self).kvdb.journal_consistent() && is_word(req.key@) && (old(
                self,
            ).kvdb@.contains_key(req.key@) ==> is_word(old(self).kvdb@[req.key@]))
                ==> final(self).kvdb.journal_consistent(),
    {
        let mut response = DeleteResponse { status: Status::success };
        let ret = self.kvdb.delete(&req.key);
        match ret {
            Ok(option) => match option {
                Some(_) => {
                    response.status = Status::success;
                },
                None => response.status = Status::keyNotFound,
            },
            Err(_) => response.status = Status::failed,
        }
        response
    }

    /// Answers with the pairs whose keys lie in `[key_start, key_end)`, or
    /// `keyNotFound` when the store holds no key at all.
    pub fn scan(&mut self, req: ScanRequest) -> (response: ScanResponse)
        requires
            old(self).kvdb.wf(),
            !key_lt(req.key_end@, req.key_start@),
        ensures
            final(self).kvdb == old(self).kvdb,
            if old(self).kvdb@ == Map::<Seq<char>, Seq<char>>::empty() {
                response.status == Status::keyNotFound && response.kvs@.len() == 0
            } else {
                &&& response.status == Status::success
                &&& keys_increasing(response.kvs@)
                &&& entries_map(response.kvs@) == range_of(
                    old(self).kvdb@,
                    req.key_start@,
                    req.key_end@,
                )
            },
    {
        let mut response = ScanResponse { status: Status::success, kvs: Vec::new() };
        let ret = self.kvdb.scan(&req.key_start, &req.key_end);
        match ret {
            Ok(option) => match option {
                Some(value) => {
                    response.status = Status::success;
                    response.kvs = value;
                },
                None => response.status = Status::keyNotFound,
            },
            Err(_) => response.status = Status::failed,
        }
        response
    }
}

} // verus!
