use kv_server::client::{get_result, scan_result};
use kv_server::protos::{
    DeleteRequest, GetRequest, GetResponse, HelloRequest, PutRequest, ScanRequest, ScanResponse,
    Status,
};
use kv_server::server::{HelloService, KvService};
use kv_server::store::engine::log::check_log;

fn get(service: &mut KvService, key: &str) -> Option<String> {
    get_result(service.get(GetRequest { key: key.to_string() }))
}

fn put(service: &mut KvService, key: &str, value: &str) {
    let response = service.put(PutRequest { key: key.to_string(), value: value.to_string() });
    assert_eq!(response.status, Status::success);
}

fn delete(service: &mut KvService, key: &str) -> Status {
    service.delete(DeleteRequest { key: key.to_string() }).status
}

fn scan(service: &mut KvService, start: &str, end: &str) -> Option<Vec<(String, String)>> {
    scan_result(service.scan(ScanRequest { key_start: start.to_string(), key_end: end.to_string() }))
}

fn lookup(kvs: &Vec<(String, String)>, key: &str) -> Option<String> {
    for (k, v) in kvs.iter() {
        if k == key {
            return Some(v.clone());
        }
    }
    None
}

#[test]
fn kv_test() {
    let mut service = KvService::new();

    let test_data = vec![("A", "Alex"), ("B", "Bob"), ("T", "Tom"), ("M", "Mike")];

    // delete if exists
    for (key, _) in test_data.iter() {
        delete(&mut service, key);
    }

    // test get
    let key = String::from("A");
    let ret = get(&mut service, &key);
    assert_eq!(None, ret);

    // test put
    let value = String::from("Alex");
    put(&mut service, &key, &value);
    let ret = get(&mut service, &key);
    assert_eq!(Some(value.clone()), ret);

    // test delete
    delete(&mut service, &key);
    let ret = get(&mut service, &key);
    assert_eq!(None, ret);

    // test scan
    let key_start = String::from("A");
    let key_end = String::from("C");
    let ret = scan(&mut service, &key_start, &key_end);
    assert_eq!(None, ret);
    for (key, value) in test_data.iter() {
        put(&mut service, key, value);
    }
    let ret = scan(&mut service, &key_start, &key_end).unwrap();
    let v = lookup(&ret, "A").unwrap();
    assert_eq!(v.clone(), "Alex".to_string());
    let v = lookup(&ret, "B").unwrap();
    assert_eq!(v.clone(), "Bob".to_string());
    let v = lookup(&ret, "M");
    assert_eq!(v, None);
    let v = lookup(&ret, "T");
    assert_eq!(v, None);
}

#[test]
fn recovery_test() {
    let key = String::from("A");
    let value = String::from("Alex");
    let mut file = String::new();

    // insert data into database
    {
        let mut service = KvService::new();
        put(&mut service, &key, &value);
        file.push_str(&service.kvdb.take_log_output());
    }

    // test recovery
    {
        let mut service = KvService::new();
        assert!(check_log(&file));
        service.kvdb.recover(&file);
        let ret = get(&mut service, &key);
        assert_eq!(Some(value.clone()), ret);
    }
}

#[test]
fn get_missing_key_answers_key_not_found() {
    let mut service = KvService::new();
    let response = service.get(GetRequest { key: "nope".to_string() });
    assert_eq!(response.status, Status::keyNotFound);
    assert_eq!(response.value, "");
}

#[test]
fn delete_answers_by_presence() {
    let mut service = KvService::new();
    assert_eq!(delete(&mut service, "k"), Status::keyNotFound);
    put(&mut service, "k", "v");
    assert_eq!(delete(&mut service, "k"), Status::success);
    assert_eq!(delete(&mut service, "k"), Status::keyNotFound);
}

#[test]
fn put_overwrites() {
    let mut service = KvService::new();
    put(&mut service, "k", "one");
    put(&mut service, "k", "two");
    assert_eq!(get(&mut service, "k"), Some("two".to_string()));
}

#[test]
fn scan_empty_store_is_key_not_found() {
    let mut service = KvService::new();
    let response = service.scan(ScanRequest { key_start: "a".to_string(), key_end: "z".to_string() });
    assert_eq!(response.status, Status::keyNotFound);
    assert!(response.kvs.is_empty());
}

#[test]
fn scan_is_ordered_and_half_open() {
    let mut service = KvService::new();
    for (k, v) in [("d", "4"), ("b", "2"), ("a", "1"), ("c", "3"), ("e", "5")].iter() {
        put(&mut service, k, v);
    }
    let kvs = scan(&mut service, "b", "e").unwrap();
    let expected: Vec<(String, String)> = vec![
        ("b".to_string(), "2".to_string()),
        ("c".to_string(), "3".to_string()),
        ("d".to_string(), "4".to_string()),
    ];
    assert_eq!(kvs, expected);
    // an empty range of a non-empty store
    let kvs = scan(&mut service, "c", "c").unwrap();
    assert!(kvs.is_empty());
    // keys order by their bytes: upper case before lower case
    put(&mut service, "Z", "26");
    let kvs = scan(&mut service, "A", "b").unwrap();
    assert_eq!(kvs, vec![("Z".to_string(), "26".to_string()), ("a".to_string(), "1".to_string())]);
}

#[test]
fn scan_prefix_keys_order() {
    let mut service = KvService::new();
    put(&mut service, "ab", "2");
    put(&mut service, "a", "1");
    put(&mut service, "abc", "3");
    let kvs = scan(&mut service, "a", "abc").unwrap();
    assert_eq!(kvs, vec![("a".to_string(), "1".to_string()), ("ab".to_string(), "2".to_string())]);
}

#[test]
fn hello_greets_by_name() {
    let mut service = HelloService;
    let reply = service.hello(HelloRequest { name: "world".to_string() });
    assert_eq!(reply.message, "hello, world!");
}

#[test]
fn client_results_follow_status() {
    let ok = GetResponse { status: Status::success, value: "v".to_string() };
    assert_eq!(get_result(ok), Some("v".to_string()));
    let missing = GetResponse { status: Status::keyNotFound, value: String::new() };
    assert_eq!(get_result(missing), None);
    let failed = ScanResponse { status: Status::failed, kvs: vec![("a".to_string(), "b".to_string())] };
    assert_eq!(scan_result(failed), None);
    let found = ScanResponse { status: Status::success, kvs: vec![("a".to_string(), "b".to_string())] };
    assert_eq!(scan_result(found), Some(vec![("a".to_string(), "b".to_string())]));
}
