use nectan::common::{
    get_signing_key, signing_key_from_string, signing_key_to_string, SigningKey, StoredKeyError,
};
use nectan::crypto::DecodeError;
use nectan::devices::{
    deserialize_device_id, serialize_device_id, Device, DeviceIdError, DeviceStatus, DevicesPool, UserInfo, Username,
    UsernameError,
};
use nectan::path::TreePath;
use nectan::protocol::gen_device_id;
use nectan::storage_utils::{DataWriter, KvStore, Value, WriteStep};

fn path(text: &str) -> TreePath {
    TreePath::from_text(text)
}

fn store() -> KvStore {
    KvStore::new(path("/tmp"), "test_store", Vec::new())
}

#[test]
fn names_of_users() {
    assert_eq!(Username::new("ab".to_string()).err(), Some(UsernameError::TooShort));
    assert_eq!(Username::new("a".repeat(25)).err(), Some(UsernameError::TooLong));
    assert_eq!(Username::new("abc".to_string()).unwrap().to_string(), "abc");
    assert_eq!(Username::new("ł".repeat(24)).unwrap().to_string(), "ł".repeat(24));
    assert_eq!(UsernameError::TooShort.message(), "username too short. (Minimum 3 characters)");
    assert_eq!(UsernameError::TooLong.message(), "username too long (Maximum 24 characters)");
    assert_eq!(Username::default().to_string(), "Default");
    assert_eq!(Username::default().display(), "Username Default");
    let mut user = UserInfo::new(Username::default());
    user.set_username(Username::new("Simea".to_string()).unwrap());
    assert_eq!(user.username().to_string(), "Simea");
}

#[test]
fn keys_as_text() {
    let key = SigningKey::from_bytes(&[5; 32]);
    let text = signing_key_to_string(&key);
    assert_eq!(text, "BQUFBQUFBQUFBQUFBQUFBQUFBQUFBQUFBQUFBQUFBQU=");
    assert_eq!(signing_key_from_string(&text).unwrap().as_bytes(), &[5; 32]);
    assert_eq!(signing_key_from_string("AAAA").err(), Some(DecodeError::InvalidLength(32)));
    assert_eq!(signing_key_from_string("A*AA").err(), Some(DecodeError::InvalidByte(1, b'*')));
    assert_eq!(signing_key_from_string("AAA").err(), Some(DecodeError::InvalidPadding));
    assert_eq!(signing_key_from_string("A").err(), Some(DecodeError::InvalidLength(1)));
    assert!(matches!(signing_key_from_string("AB==").err(), Some(DecodeError::InvalidLastSymbol(1, b'B', 1))));
}

#[test]
fn devices_as_text() {
    let (id, key) = gen_device_id();
    assert!(key.verifying_key().same_as(&id));
    let text = serialize_device_id(&id);
    assert!(deserialize_device_id(&text).unwrap().same_as(&id));
    assert_eq!(deserialize_device_id("AAAA").err(), Some(DeviceIdError::InvalidLength));
    assert_eq!(deserialize_device_id("A*AA").err(), Some(DeviceIdError::Decode(DecodeError::InvalidByte(1, b'*'))));
    let mut bytes = [0u8; 32];
    while ed25519_dalek::VerifyingKey::from_bytes(&bytes).is_ok() {
        bytes[0] += 1;
    }
    let text = signing_key_to_string(&SigningKey::from_bytes(&bytes));
    assert_eq!(deserialize_device_id(&text).err(), Some(DeviceIdError::NotAKey));
}

#[test]
fn public_keys_agree_with_the_library() {
    let dalek = ed25519_dalek::SigningKey::from_bytes(&[9; 32]);
    let key = SigningKey::from_bytes(&[9; 32]);
    assert_eq!(key.verifying_key().as_bytes(), dalek.verifying_key().as_bytes());
    let signature = ed25519_dalek::Signer::sign(&dalek, b"hi");
    assert_eq!(key.sign(b"hi").as_bytes(), &signature.to_bytes());
    assert_ne!(SigningKey::generate().as_bytes(), SigningKey::generate().as_bytes());
}

#[test]
fn the_key_is_made_once() {
    let mut store = store();
    let first = get_signing_key(&mut store).unwrap();
    let again = get_signing_key(&mut store).unwrap();
    assert_eq!(first.as_bytes(), again.as_bytes());
    match store.get("key") {
        Some(Value::Text(text)) => assert_eq!(text, signing_key_to_string(&first)),
        other => panic!("{other:?}"),
    }
    store.set("key", Value::Bool(true));
    assert_eq!(get_signing_key(&mut store).err(), Some(StoredKeyError::NotAText));
    store.set("key", Value::Text("AAAA".to_string()));
    assert_eq!(get_signing_key(&mut store).err(), Some(StoredKeyError::Decode(DecodeError::InvalidLength(32))));
}

#[test]
fn store_set_get_delete_wipe() {
    let mut store = store();
    store.set("test", Value::Bool(true));
    assert_eq!(store.get("test").unwrap().as_bool(), Some(true));
    assert!(store.get("test123").is_none(), "test123 wasn't None!");
    store.delete("test");
    assert!(store.get("test").is_none(), "test wasn't None!");
    store.set("a", Value::Null);
    store.set("b", Value::Other("12".to_string()));
    store.set("a", Value::Text("x".to_string()));
    assert_eq!(store.entries().len(), 2);
    assert_eq!(store.get("a").unwrap().as_str(), Some("x"));
    assert_eq!(store.get("b").unwrap().as_str(), None);
    assert_eq!(store.get("b").unwrap().as_bool(), None);
    store.delete("nothing");
    store.wipe();
    assert!(store.get("a").is_none());
    assert_eq!(store.path().to_bytes(), b"/tmp/test_store.json");
}

#[test]
fn later_values_replace_earlier_ones() {
    let pairs = vec![("k".to_string(), Value::Bool(false)), ("k".to_string(), Value::Bool(true))];
    let store = KvStore::new(path("dir"), "s", pairs);
    assert_eq!(store.get("k").unwrap().as_bool(), Some(true));
    assert_eq!(store.entries().len(), 1);
    assert_eq!(store.writer().tmp_path().to_bytes(), b"dir/s.json.tmp");
}

#[test]
fn stores_are_read_from_text() {
    let open = |text: Option<&str>| KvStore::from_text(path("/data"), "things", text);
    let text = r#"{ "name": "Ann\u00e9", "on": true, "none": null, "n": 12.50, "list": [1, {"a": "b"}], "on": false }"#;
    let store = open(Some(text));
    assert_eq!(store.path().to_bytes(), b"/data/things.json");
    assert_eq!(store.entries().len(), 5);
    assert_eq!(store.get("name").unwrap().as_str(), Some("Ann\u{e9}"));
    assert_eq!(store.get("on").unwrap().as_bool(), Some(false));
    assert!(matches!(store.get("none"), Some(Value::Null)));
    assert!(matches!(store.get("n"), Some(Value::Other(t)) if t == "12.5"));
    assert!(matches!(store.get("list"), Some(Value::Other(t)) if t == r#"[1,{"a":"b"}]"#));
    assert!(store.get("a").is_none());
    for nothing in [None, Some(""), Some("{"), Some("{} x"), Some("[1]"), Some("\"x\""), Some("null"), Some("{}")] {
        assert!(open(nothing).entries().is_empty(), "{nothing:?}");
    }
}

#[test]
fn files_are_written_beside_first() {
    let writer = DataWriter::new(path("/data"), "things");
    assert_eq!(writer.storage_path().to_bytes(), b"/data/things.json");
    assert_eq!(writer.tmp_path().to_bytes(), b"/data/things.json.tmp");
    assert_eq!(DataWriter::new(path("/data"), "").tmp_path().to_bytes(), b"/data/.json.json.tmp");
    let begin = WriteStep::WriteTemp;
    assert_eq!(writer.next_step(begin, true, 9), WriteStep::Rename);
    assert_eq!(writer.next_step(begin, false, 9), WriteStep::Failed);
    assert_eq!(writer.next_step(WriteStep::Rename, true, 9), WriteStep::Written(9));
    assert_eq!(writer.next_step(WriteStep::Rename, false, 9), WriteStep::RemoveTemp);
    assert_eq!(writer.next_step(WriteStep::RemoveTemp, false, 9), WriteStep::Failed);
    assert_eq!(writer.next_step(WriteStep::Written(9), false, 9), WriteStep::Written(9));
}

fn device(seed: u8, name: &str) -> Device {
    Device {
        username: Username::new(name.to_string()).unwrap(),
        id: SigningKey::from_bytes(&[seed; 32]).verifying_key(),
        connection: None,
        status: DeviceStatus::default(),
        deleted: false,
        total_exchanged_data: 3,
        completed_transfers: 4,
        fav: true,
    }
}

#[test]
fn pool_of_devices() {
    let stored = vec![device(1, "one"), device(2, "two"), device(1, "uno")];
    let mut pool = DevicesPool::new(Some(path("/base")), path("/system"), stored);
    assert_eq!(pool.path().to_bytes(), b"/base/Nectan/nectan_devices_store.json");
    assert_eq!(pool.persist().len(), 2);
    assert_eq!(pool.get(&device(1, "xxx").id).unwrap().username.to_string(), "uno");
    assert!(pool.get(&device(3, "xxx").id).is_none());
    pool.insert(device(3, "tri"));
    assert_eq!(pool.get_all_ids().len(), 3);
    assert!(device(1, "one") == device(1, "uno"));
    assert!(device(1, "one") != device(2, "one"));
    assert_eq!(device(1, "one").display(), "Username Username one");
    let other = DevicesPool::new(None, path("/system"), Vec::new());
    assert_eq!(other.path().to_bytes(), b"/system/Nectan/nectan_devices_store.json");
    assert_eq!(DeviceStatus::default(), DeviceStatus::Offline);
}
