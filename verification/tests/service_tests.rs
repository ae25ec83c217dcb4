//! Tests of the service dispatcher, the client-side response mapping, the
//! engine-file bookkeeping, and the error messages.

use kvs::{KvStore, KvsServer, Request, KvsError, EngineKind, engine_name, parse_engine,
    resolve_engine, interpret_get, interpret_mutation, get_response, remove_response};

#[test]
fn put_then_get_over_the_service() {
    let mut server = KvsServer::new(KvStore::new());
    let resp = server.serve(Request::Put { key: "k1".to_owned(), value: "v1".to_owned() });
    assert_eq!(resp.status, 200);
    // the first write reports the prior value as the default, empty string
    assert_eq!(resp.values, vec![String::new()]);
    let resp = server.serve(Request::Get { key: "k1".to_owned() });
    assert_eq!(resp.status, 200);
    assert_eq!(resp.values, vec!["v1".to_owned()]);
}

#[test]
fn put_reports_the_prior_value() {
    let mut server = KvsServer::new(KvStore::new());
    server.serve(Request::Put { key: "k".to_owned(), value: "old".to_owned() });
    let resp = server.serve(Request::Put { key: "k".to_owned(), value: "new".to_owned() });
    assert_eq!(resp.status, 200);
    assert_eq!(resp.values, vec!["old".to_owned()]);
}

#[test]
fn get_of_absent_key_is_404() {
    let mut server = KvsServer::new(KvStore::new());
    let resp = server.serve(Request::Get { key: "nope".to_owned() });
    assert_eq!(resp.status, 404);
    assert_eq!(resp.message, "Key not found");
    assert!(resp.values.is_empty());
}

#[test]
fn remove_of_absent_key_is_404() {
    let mut server = KvsServer::new(KvStore::new());
    let resp = server.serve(Request::Remove { key: "nope".to_owned() });
    assert_eq!(resp.status, 404);
    assert_eq!(resp.message, "Key not found");
}

#[test]
fn remove_of_present_key_is_200() {
    let mut server = KvsServer::new(KvStore::new());
    server.serve(Request::Put { key: "k".to_owned(), value: "v".to_owned() });
    let resp = server.serve(Request::Remove { key: "k".to_owned() });
    assert_eq!(resp.status, 200);
    let resp = server.serve(Request::Get { key: "k".to_owned() });
    assert_eq!(resp.status, 404);
}

#[test]
fn client_maps_statuses_back() {
    let ok = get_response(Ok(Some("v".to_owned())));
    assert_eq!(interpret_get(ok), Ok(Some("v".to_owned())));
    let absent = get_response(Ok(None));
    assert_eq!(interpret_get(absent), Ok(None));
    let failed = get_response(Err(KvsError::StringError("boom".to_owned())));
    assert_eq!(interpret_get(failed), Err(KvsError::StringError("boom".to_owned())));
    let removed = remove_response(Ok(()));
    assert_eq!(interpret_mutation(removed), Ok(()));
    // the semantic error crosses the wire as a textual message
    let missing = remove_response(Err(KvsError::KeyNotFound));
    assert_eq!(
        interpret_mutation(missing),
        Err(KvsError::StringError("Key not found".to_owned()))
    );
}

#[test]
fn engine_names_round_trip() {
    assert_eq!(engine_name(EngineKind::Kvs), "kvs");
    assert_eq!(engine_name(EngineKind::Sled), "sled");
    assert_eq!(parse_engine("kvs"), Some(EngineKind::Kvs));
    assert_eq!(parse_engine("sled"), Some(EngineKind::Sled));
    assert_eq!(parse_engine("kvss"), None);
    assert_eq!(parse_engine(""), None);
}

#[test]
fn engine_mismatch_is_refused() {
    // a directory recorded for sled must not open with the kvs engine
    assert!(resolve_engine(Some(EngineKind::Sled), Some(EngineKind::Kvs)).is_err());
    assert!(resolve_engine(Some(EngineKind::Kvs), Some(EngineKind::Sled)).is_err());
    assert_eq!(
        resolve_engine(Some(EngineKind::Sled), Some(EngineKind::Sled)),
        Ok(EngineKind::Sled)
    );
    assert_eq!(resolve_engine(Some(EngineKind::Kvs), None), Ok(EngineKind::Kvs));
    assert_eq!(resolve_engine(None, None), Ok(EngineKind::Kvs));
    assert_eq!(resolve_engine(None, Some(EngineKind::Sled)), Ok(EngineKind::Sled));
}

#[test]
fn error_messages_name_their_kind() {
    assert_eq!(KvsError::KeyNotFound.message(), "Key not found");
    assert_eq!(KvsError::UnexpectedCommandType.message(), "Unexpected command type");
    assert_eq!(KvsError::Io("broken pipe".to_owned()).message(), "IO error: broken pipe");
    assert_eq!(KvsError::Serde("bad frame".to_owned()).message(), "serde error: bad frame");
    assert_eq!(KvsError::Utf8("bad byte".to_owned()).message(), "UTF-8 error: bad byte");
    assert_eq!(KvsError::Sled("lost".to_owned()).message(), "sled error: lost");
    assert_eq!(KvsError::StringError("free form".to_owned()).message(), "free form");
}
