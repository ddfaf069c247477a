//! The wire codec, the server's dispatch table and the client's response
//! translation.

use kvs::client::{translate_get, translate_remove, translate_set, Error};
use kvs::errors::KvsError;
use kvs::network::{
    decode_network_command_at, decode_network_response_at, encode_network_command,
    encode_network_response, ErrorType, NetworkCommand, NetworkResponse,
};
use kvs::server::{
    existing_engine, get_response, remove_response, respond_to_record, set_response, EngineType,
};

#[test]
fn get_command_round_trip() {
    let c = NetworkCommand::Get { key: String::from("k") };
    let enc = encode_network_command(&c);
    match decode_network_command_at(&enc, 0).unwrap() {
        (NetworkCommand::Get { key }, next) => {
            assert_eq!(key, "k");
            assert_eq!(next, enc.len());
        },
        _ => panic!("wrong command decoded"),
    }
}

#[test]
fn put_command_round_trip() {
    let c = NetworkCommand::Put { key: String::from("k"), value: String::from("v") };
    let enc = encode_network_command(&c);
    match decode_network_command_at(&enc, 0).unwrap() {
        (NetworkCommand::Put { key, value }, next) => {
            assert_eq!(key, "k");
            assert_eq!(value, "v");
            assert_eq!(next, enc.len());
        },
        _ => panic!("wrong command decoded"),
    }
}

#[test]
fn rm_command_round_trip() {
    let c = NetworkCommand::Rm { key: String::from("k") };
    let enc = encode_network_command(&c);
    match decode_network_command_at(&enc, 0).unwrap() {
        (NetworkCommand::Rm { key }, next) => {
            assert_eq!(key, "k");
            assert_eq!(next, enc.len());
        },
        _ => panic!("wrong command decoded"),
    }
}

#[test]
fn response_round_trips() {
    for resp in [
        NetworkResponse::Empty,
        NetworkResponse::Value(String::from("some value")),
        NetworkResponse::Error { code: ErrorType::CommandDeserialisation },
        NetworkResponse::Error { code: ErrorType::KeyNotFound },
        NetworkResponse::Error { code: ErrorType::Unknown },
    ] {
        let enc = encode_network_response(&resp);
        let (dec, next) = decode_network_response_at(&enc, 0).unwrap();
        assert_eq!(next, enc.len());
        match (resp, dec) {
            (NetworkResponse::Empty, NetworkResponse::Empty) => {},
            (NetworkResponse::Value(a), NetworkResponse::Value(b)) => assert_eq!(a, b),
            (
                NetworkResponse::Error { code: a },
                NetworkResponse::Error { code: b },
            ) => assert_eq!(a, b),
            _ => panic!("response changed shape in transit"),
        }
    }
}

#[test]
fn malformed_wire_bytes_are_rejected() {
    let empty: Vec<u8> = Vec::new();
    assert!(decode_network_command_at(&empty, 0).is_err());
    assert!(decode_network_response_at(&empty, 0).is_err());
    let bad_tag: Vec<u8> = vec![9u8];
    assert!(decode_network_command_at(&bad_tag, 0).is_err());
    assert!(decode_network_response_at(&bad_tag, 0).is_err());
    let bad_code: Vec<u8> = vec![0u8, 9u8];
    assert!(decode_network_response_at(&bad_code, 0).is_err());
}

#[test]
fn dispatch_table_for_get() {
    match get_response(Ok(Some(String::from("v")))) {
        NetworkResponse::Value(v) => assert_eq!(v, "v"),
        _ => panic!("a hit must answer with the value"),
    }
    match get_response(Ok(None)) {
        NetworkResponse::Empty => {},
        _ => panic!("a miss must answer empty"),
    }
    match get_response(Err(KvsError::Io)) {
        NetworkResponse::Error { code } => assert_eq!(code, ErrorType::Unknown),
        _ => panic!("a failure must answer with the anonymous error"),
    }
}

#[test]
fn dispatch_table_for_set() {
    match set_response(Ok(())) {
        NetworkResponse::Empty => {},
        _ => panic!("success must answer empty"),
    }
    match set_response(Err(KvsError::Io)) {
        NetworkResponse::Error { code } => assert_eq!(code, ErrorType::Unknown),
        _ => panic!("a failure must answer with the anonymous error"),
    }
}

#[test]
fn dispatch_table_for_remove() {
    match remove_response(Ok(())) {
        NetworkResponse::Empty => {},
        _ => panic!("success must answer empty"),
    }
    match remove_response(Err(KvsError::KeyNotFound)) {
        NetworkResponse::Error { code } => assert_eq!(code, ErrorType::KeyNotFound),
        _ => panic!("a missing key must keep its own code"),
    }
    match remove_response(Err(KvsError::Io)) {
        NetworkResponse::Error { code } => assert_eq!(code, ErrorType::Unknown),
        _ => panic!("any other failure must be anonymous"),
    }
}

#[test]
fn client_translation_for_get() {
    assert_eq!(
        translate_get(Some(Ok(NetworkResponse::Value(String::from("v"))))),
        Ok(Some(String::from("v")))
    );
    assert_eq!(translate_get(Some(Ok(NetworkResponse::Empty))), Ok(None));
    assert_eq!(
        translate_get(Some(Ok(NetworkResponse::Error { code: ErrorType::Unknown }))),
        Err(Error::Server(ErrorType::Unknown))
    );
    assert_eq!(translate_get(Some(Err(KvsError::CorruptLog))), Err(Error::ResponseDeserialisation));
    assert_eq!(translate_get(None), Err(Error::NoResponse));
}

#[test]
fn client_translation_for_set() {
    assert_eq!(translate_set(Some(Ok(NetworkResponse::Empty))), Ok(()));
    assert_eq!(
        translate_set(Some(Ok(NetworkResponse::Value(String::from("v"))))),
        Err(Error::UnexpectedResponse)
    );
    assert_eq!(
        translate_set(Some(Ok(NetworkResponse::Error { code: ErrorType::Unknown }))),
        Err(Error::Server(ErrorType::Unknown))
    );
    assert_eq!(translate_set(None), Err(Error::NoResponse));
}

#[test]
fn client_translation_for_remove() {
    assert_eq!(translate_remove(Some(Ok(NetworkResponse::Empty))), Ok(()));
    assert_eq!(
        translate_remove(Some(Ok(NetworkResponse::Error { code: ErrorType::KeyNotFound }))),
        Err(Error::KeyNotFound)
    );
    assert_eq!(
        translate_remove(Some(Ok(NetworkResponse::Error { code: ErrorType::Unknown }))),
        Err(Error::Server(ErrorType::Unknown))
    );
    assert_eq!(
        translate_remove(Some(Ok(NetworkResponse::Value(String::from("v"))))),
        Err(Error::UnexpectedResponse)
    );
    assert_eq!(translate_remove(None), Err(Error::NoResponse));
}

#[test]
fn engine_inference_prefers_existing_data() {
    assert_eq!(existing_engine(true, false), Some(EngineType::Kvs));
    assert_eq!(existing_engine(false, true), Some(EngineType::Sled));
    assert_eq!(existing_engine(true, true), Some(EngineType::Kvs));
    assert_eq!(existing_engine(false, false), None);
}

#[test]
fn undecodable_record_earns_the_decode_failure_error() {
    let store = kvs::kvstore::KvStore::from_core(
        kvs::store::StoreCore::from_backend(kvs::backend::MemBackend::new()).unwrap(),
    );
    let garbage: Vec<u8> = vec![9u8, 1, 2, 3];
    match respond_to_record(&garbage, &store) {
        NetworkResponse::Error { code } => assert_eq!(code, ErrorType::CommandDeserialisation),
        _ => panic!("garbage must earn the decode-failure error"),
    }
    let get = encode_network_command(&NetworkCommand::Get { key: String::from("k") });
    match respond_to_record(&get, &store) {
        NetworkResponse::Empty => {},
        _ => panic!("a read of an absent key answers empty"),
    }
}

#[test]
fn engine_names() {
    assert_eq!(EngineType::Kvs.name(), "kvs");
    assert_eq!(EngineType::Sled.name(), "sled");
}
