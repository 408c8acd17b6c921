use ragfs_git::error::{GitError, ObjectStoreError};
use ragfs_git::object::{Actor, CommitMeta};
use ragfs_git::oid::{HexError, ObjectId};
use ragfs_git::resolve::{resolve_ref, OidSearch, RefTarget, SearchStep};

fn oid(byte: u8) -> ObjectId {
    ObjectId { bytes: [byte; 20] }
}

fn meta(parents: Vec<ObjectId>) -> CommitMeta {
    let actor = Actor { name: "n".into(), email: "e".into(), time_seconds: 0, tz_offset_seconds: 0 };
    CommitMeta { tree: oid(0), parents, author: actor.clone(), committer: actor, message: "m".into() }
}

#[test]
fn hex_round_trip() {
    let id = ObjectId::from_hex(b"ABCDEF1234567890abcdef1234567890abcdef12").unwrap();
    assert_eq!(id.to_hex(), "abcdef1234567890abcdef1234567890abcdef12");
    assert_eq!(ObjectId::from_hex(id.to_hex().as_bytes()), Ok(id));
    assert_eq!(ObjectId::null().to_hex(), "0".repeat(40));
    assert_eq!(ObjectId::from_hex(b"ab"), Err(HexError::Length(2)));
    assert_eq!(ObjectId::from_hex("g".repeat(40).as_bytes()), Err(HexError::Digit));
}

#[test]
fn targets() {
    let full = "ab".repeat(20);
    assert_eq!(resolve_ref(&full), Ok(RefTarget::Oid(oid(0xAB))));
    assert_eq!(resolve_ref(&full.to_uppercase()), Ok(RefTarget::Oid(oid(0xAB))));
    assert_eq!(resolve_ref("abcd"), Ok(RefTarget::Abbreviated("abcd".to_string())));
    assert_eq!(resolve_ref(&full[..39]), Ok(RefTarget::Abbreviated(full[..39].to_string())));
    assert_eq!(resolve_ref("abc"), Ok(RefTarget::Name("refs/heads/abc".to_string())));
    assert_eq!(resolve_ref("main"), Ok(RefTarget::Name("refs/heads/main".to_string())));
    assert_eq!(resolve_ref("refs/tags/v1"), Ok(RefTarget::Name("refs/tags/v1".to_string())));
    assert_eq!(resolve_ref(&"z".repeat(40)), Ok(RefTarget::Name(format!("refs/heads/{}", "z".repeat(40)))));
}

#[test]
fn a_target_that_is_neither_an_identifier_nor_a_ref() {
    for (bad, reason) in [
        ("", "ref name cannot start or end with '/'"),
        ("a..b", "ref name cannot contain '..'"),
        ("refs/", "ref name cannot start or end with '/'"),
        ("two words", "ref name contains invalid characters"),
    ] {
        assert_eq!(resolve_ref(bad), Err(GitError::Other(format!("invalid ref name: {reason}"))), "{bad}");
    }
}

#[test]
fn a_search_visits_each_commit_once() {
    let mut search = OidSearch::start("03", vec![oid(1), oid(1)]);
    let mut loaded = Vec::new();
    let found = loop {
        match search.next() {
            SearchStep::Done(result) => break result,
            SearchStep::Load(load) => {
                loaded.push(load.oid);
                let parents = match load.oid.bytes[0] {
                    1 => vec![oid(2), oid(3)],
                    2 => vec![oid(3)],
                    _ => vec![],
                };
                search = load.loaded(Ok(meta(parents))).unwrap();
            }
        }
    };
    assert_eq!(found, Ok(oid(3)));
    loaded.sort_by_key(|o| o.bytes);
    assert_eq!(loaded, vec![oid(1), oid(2), oid(3)]);
}

#[test]
fn a_search_that_finds_nothing_names_its_digits() {
    let search = OidSearch::start("ffff", vec![]);
    match search.next() {
        SearchStep::Done(Err(GitError::OidPrefixNotFound { prefix })) => assert_eq!(prefix, "ffff"),
        _ => panic!("expected the search to end"),
    }
}

#[test]
fn a_search_passes_over_what_is_missing_or_no_commit() {
    // The digits are those of the tip that is no commit.
    let load = || match OidSearch::start("0101", vec![oid(1)]).next() {
        SearchStep::Load(load) => load,
        SearchStep::Done(_) => panic!("expected a commit to load"),
    };
    for passed in [
        GitError::ObjectStore(ObjectStoreError::NotFound(oid(1))),
        GitError::Other("expected commit object, got Tag".to_string()),
    ] {
        let search = load().loaded(Err(passed)).ok().expect("the search goes on");
        match search.next() {
            SearchStep::Done(Err(GitError::OidPrefixNotFound { prefix })) => {
                assert_eq!(prefix, "0101")
            }
            _ => panic!("expected that nothing is found"),
        }
    }
    match load().loaded(Ok(meta(vec![]))).ok().expect("the search goes on").next() {
        SearchStep::Done(found) => assert_eq!(found, Ok(oid(1))),
        SearchStep::Load(_) => panic!("expected the search to end"),
    }
    let failure = GitError::ObjectStore(ObjectStoreError::Io("disk".to_string()));
    assert_eq!(load().loaded(Err(failure.clone())).err(), Some(failure));
}

#[test]
fn a_parent_that_is_missing_does_not_match() {
    let mut search = OidSearch::start("02", vec![oid(1)]);
    let found = loop {
        match search.next() {
            SearchStep::Done(result) => break result,
            SearchStep::Load(load) => {
                let at = load.oid;
                search = match at.bytes[0] {
                    1 => load.loaded(Ok(meta(vec![oid(2)]))),
                    _ => load.loaded(Err(GitError::ObjectStore(ObjectStoreError::NotFound(at)))),
                }
                .ok()
                .expect("the search goes on");
            }
        }
    };
    assert_eq!(found, Err(GitError::OidPrefixNotFound { prefix: "02".to_string() }));
}

#[test]
fn a_full_ref_name_is_taken_as_it_is() {
    for name in ["refs/heads/main", "refs/heads/abcd", "refs/tags/v1"] {
        assert_eq!(resolve_ref(name), Ok(RefTarget::Name(name.to_string())));
    }
}
