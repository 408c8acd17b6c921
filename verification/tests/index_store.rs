use serde_json::{Number, Value};

use ragfs_git::index_store::{
    decode_index, encode_index, usable_index, CommitIndex, IndexStoreError, WireEntry, WireIndex,
    INDEX_FORMAT_VERSION,
};
use ragfs_git::oid::ObjectId;
use ragfs_git::sorted::SortedMap;
use ragfs_git::types::IndexEntry;

fn oid_from_byte(b: u8) -> ObjectId {
    ObjectId { bytes: [b; 20] }
}

fn object(fields: Vec<(&str, Value)>) -> Value {
    let mut map = serde_json::value::Map::new();
    for (key, value) in fields {
        map.insert(key.to_string(), value);
    }
    Value::Object(map)
}

/// The stored form of an index as JSON.
fn to_json(wire: &WireIndex) -> Vec<u8> {
    let entries = wire
        .entries
        .iter()
        .map(|e| {
            object(vec![
                ("path", Value::from(e.path.as_str())),
                ("size", Value::from(e.size)),
                ("mtime_ns", Value::Number(Number::from_i128(e.mtime_ns).unwrap())),
                ("oid", Value::from(e.oid.as_str())),
            ])
        })
        .collect();
    let value = object(vec![
        ("version", Value::from(wire.version)),
        ("parent_oid", Value::from(wire.parent_oid.as_str())),
        ("entries", Value::Array(entries)),
    ]);
    serde_json::to_vec(&value).unwrap()
}

fn from_json(bytes: &[u8]) -> Result<WireIndex, String> {
    let value: Value = serde_json::from_slice(bytes).map_err(|e| e.to_string())?;
    let text = |v: &Value, key: &str| -> Result<String, String> {
        v.get(key).and_then(|t| t.as_str()).map(|t| t.to_string()).ok_or(format!("missing {key}"))
    };
    let number = |v: &Value, key: &str| -> Result<i128, String> {
        v.get(key).and_then(|n| n.as_number()).and_then(|n| n.as_i128()).ok_or(format!("missing {key}"))
    };
    let mut entries = Vec::new();
    for e in value.get("entries").and_then(|v| v.as_array()).ok_or("missing entries")? {
        entries.push(WireEntry {
            path: text(e, "path")?,
            size: number(e, "size")? as u64,
            mtime_ns: number(e, "mtime_ns")?,
            oid: text(e, "oid")?,
        });
    }
    Ok(WireIndex {
        version: number(&value, "version")? as u32,
        parent_oid: text(&value, "parent_oid")?,
        entries,
    })
}

fn version_of(bytes: &[u8]) -> Option<u64> {
    let value: Value = serde_json::from_slice(bytes).ok()?;
    value.get("version")?.as_u64()
}

fn decode(bytes: &[u8]) -> Result<Option<CommitIndex>, IndexStoreError> {
    decode_index(version_of(bytes), from_json(bytes))
}

#[test]
fn round_trip_preserves_entries() {
    let mut entries = SortedMap::new();
    entries.insert(
        "resources/a.md".into(),
        IndexEntry { size: 42, mtime_ns: 1_700_000_000_000_000_000, oid: oid_from_byte(0xAA) },
    );
    entries.insert(
        "agent/b.py".into(),
        IndexEntry { size: 7, mtime_ns: -1, oid: oid_from_byte(0xBB) },
    );
    let idx = CommitIndex { parent_oid: oid_from_byte(0xCC), entries };
    let bytes = to_json(&encode_index(&idx));
    let decoded = decode(&bytes).unwrap().unwrap();
    assert_eq!(decoded, idx);
}

#[test]
fn unknown_version_is_silent_miss() {
    let bogus = object(vec![
        ("version", Value::from(9999)),
        ("parent_oid", Value::from(format!("{:040}", 0))),
        ("entries", Value::Array(vec![])),
    ]);
    let bytes = serde_json::to_vec(&bogus).unwrap();
    assert!(decode(&bytes).unwrap().is_none());
}

#[test]
fn another_layout_of_another_version_is_a_miss() {
    assert_eq!(decode(b"{\"version\":2}"), Ok(None));
    assert_eq!(decode(b"{\"version\":4294967296,\"tree\":[]}"), Ok(None));
    assert!(decode(b"{\"version\":1}").is_err());
    assert!(decode(b"{}").is_err());
}

#[test]
fn malformed_json_errors() {
    assert!(decode(b"not-json").is_err());
}

#[test]
fn invalid_oid_errors() {
    let bogus = object(vec![
        ("version", Value::from(INDEX_FORMAT_VERSION)),
        ("parent_oid", Value::from("zzzz")),
        ("entries", Value::Array(vec![])),
    ]);
    let bytes = serde_json::to_vec(&bogus).unwrap();
    assert!(decode(&bytes).is_err());
}

#[test]
fn stored_form_is_in_the_order_of_the_paths() {
    let mut entries = SortedMap::new();
    for path in ["b", "a", "c"] {
        entries.insert(path.to_string(), IndexEntry { size: 1, mtime_ns: 2, oid: oid_from_byte(3) });
    }
    let wire = encode_index(&CommitIndex { parent_oid: oid_from_byte(0xCC), entries });
    assert_eq!(wire.version, 1);
    assert_eq!(wire.parent_oid, "cc".repeat(20));
    let paths: Vec<&str> = wire.entries.iter().map(|e| e.path.as_str()).collect();
    assert_eq!(paths, vec!["a", "b", "c"]);
    assert_eq!(wire.entries[0].oid, "03".repeat(20));
}

#[test]
fn the_message_of_a_bad_identifier_is_that_of_its_parser() {
    let wire = |parent: &str, entries: Vec<WireEntry>| WireIndex {
        version: INDEX_FORMAT_VERSION,
        parent_oid: parent.to_string(),
        entries,
    };
    let shown = |text: &str| gix_hash::ObjectId::from_hex(text.as_bytes()).unwrap_err().to_string();
    let long = "z".repeat(40);
    for bad in ["zzzz", long.as_str(), ""] {
        let err = decode_index(Some(1), Ok(wire(bad, vec![]))).unwrap_err();
        let message = err.message();
        assert!(matches!(err, IndexStoreError::Decode(_)));
        assert!(message.ends_with(&shown(bad)), "{message} / {}", shown(bad));
        let entry = WireEntry { path: "p".into(), size: 0, mtime_ns: 0, oid: bad.to_string() };
        let err = decode_index(Some(1), Ok(wire(&"0".repeat(40), vec![entry]))).unwrap_err();
        assert!(err.message().contains(&shown(bad)), "{}", err.message());
        assert!(err.message().contains('p'));
    }
}

#[test]
fn an_index_of_another_commit_counts_as_absent() {
    let index = CommitIndex { parent_oid: oid_from_byte(1), entries: SortedMap::new() };
    assert_eq!(usable_index(Ok(Some(index.clone())), Some(oid_from_byte(1))), Some(index.clone()));
    assert_eq!(usable_index(Ok(Some(index.clone())), Some(oid_from_byte(2))), None);
    assert_eq!(usable_index(Ok(Some(index)), None), None);
    assert_eq!(usable_index(Ok(None), Some(oid_from_byte(1))), None);
    assert_eq!(usable_index(Err(IndexStoreError::Io("x".into())), Some(oid_from_byte(1))), None);
}

#[test]
fn messages_of_index_errors() {
    assert_eq!(IndexStoreError::Io("x".into()).message(), "i/o error: x");
    assert_eq!(IndexStoreError::Decode("x".into()).message(), "decode error: x");
    assert_eq!(IndexStoreError::InvalidBranch("x".into()).message(), "invalid branch name: x");
    assert_eq!(IndexStoreError::Backend("x".into()).message(), "backend error: x");
}

#[test]
fn equal_indexes_have_one_stored_form() {
    let index = |paths: [&str; 3]| {
        let mut entries = SortedMap::new();
        for path in paths {
            let size = path.len() as u64;
            entries.insert(path.to_string(), IndexEntry { size, mtime_ns: -5, oid: oid_from_byte(7) });
        }
        CommitIndex { parent_oid: oid_from_byte(1), entries }
    };
    let form = to_json(&encode_index(&index(["b/c", "a", "b"])));
    for paths in [["a", "b", "b/c"], ["b", "b/c", "a"], ["b/c", "b", "a"]] {
        assert_eq!(to_json(&encode_index(&index(paths))), form);
    }
}
