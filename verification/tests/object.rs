use ragfs_git::error::{FsError, GitError, ObjectStoreError, RefStoreError};
use ragfs_git::object::{
    blob_at, commit_from_fields, load_commit_meta, parse_object_header, read_blob_payload, ObjectKind,
};
use ragfs_git::oid::ObjectId;

fn oid(byte: u8) -> ObjectId {
    ObjectId { bytes: [byte; 20] }
}

#[test]
fn headers() {
    assert_eq!(parse_object_header(b"blob 5\0hello"), Ok((ObjectKind::Blob, 5, 7)));
    assert_eq!(parse_object_header(b"commit 12\0"), Ok((ObjectKind::Commit, 12, 10)));
    assert_eq!(parse_object_header(b"tree 0\0"), Ok((ObjectKind::Tree, 0, 7)));
    assert_eq!(parse_object_header(b"tag 1\0x"), Ok((ObjectKind::Tag, 1, 6)));
    let malformed = Err(GitError::CorruptedObject("malformed object header".to_string()));
    for bad in [&b""[..], b"blob", b"blob 5", b"blob \0", b"blob x\0", b"blurb 5\0", b"blob 99999999999999999999999\0"] {
        assert_eq!(parse_object_header(bad), malformed, "{bad:?}");
    }
}

#[test]
fn a_written_blob_is_read_back() {
    for payload in [&b""[..], b"hello", &[0u8, 255, 10, 0]] {
        let mut raw = gix_object::encode::loose_header(gix_object::Kind::Blob, payload.len() as u64).to_vec();
        raw.extend_from_slice(payload);
        assert_eq!(read_blob_payload(&raw).unwrap(), payload);
        assert_eq!(blob_at(&raw, "p").unwrap(), (payload.len() as u64, payload.to_vec()));
    }
}

#[test]
fn what_is_no_blob() {
    assert_eq!(
        blob_at(b"tree 0\0", "dir"),
        Err(GitError::CorruptedObject("expected blob at dir, got Tree".to_string()))
    );
    assert_eq!(
        read_blob_payload(b"tag 0\0"),
        Err(GitError::CorruptedObject("expected blob, got Tag".to_string()))
    );
    assert_eq!(
        load_commit_meta(b"blob 0\0"),
        Err(GitError::Other("expected commit object, got Blob".to_string()))
    );
}

#[test]
fn a_commit_is_decoded() {
    let text = format!(
        "tree {}\nparent {}\nparent {}\nauthor A <a@x> 5 +0130\ncommitter C <c@x> 6 -0200\n\nsubject\n\nbody\n",
        "11".repeat(20),
        "22".repeat(20),
        "33".repeat(20)
    );
    let raw = [format!("commit {}\0", text.len()).into_bytes(), text.into_bytes()].concat();
    let meta = load_commit_meta(&raw).unwrap();
    assert_eq!(meta.tree, oid(0x11));
    assert_eq!(meta.parents, vec![oid(0x22), oid(0x33)]);
    assert_eq!(meta.author.name, "A");
    assert_eq!(meta.author.email, "a@x");
    assert_eq!(meta.author.time_seconds, 5);
    assert_eq!(meta.author.tz_offset_seconds, 5400);
    assert_eq!(meta.committer.name, "C");
    assert_eq!(meta.committer.time_seconds, 6);
    assert_eq!(meta.committer.tz_offset_seconds, -7200);
    assert_eq!(meta.message, "subject\n\nbody\n");
    assert_eq!(commit_from_fields(ObjectKind::Commit, Ok(meta.clone())), Ok(meta));
}

#[test]
fn a_commit_that_cannot_be_decoded() {
    let shown = gix_object::CommitRef::from_bytes(b"junk").unwrap_err().to_string();
    assert_eq!(
        load_commit_meta(b"commit 4\0junk"),
        Err(GitError::Other(format!("commit decode: {shown}")))
    );
    assert_eq!(
        commit_from_fields(ObjectKind::Commit, Err("why".to_string())),
        Err(GitError::Other("commit decode: why".to_string()))
    );
}

#[test]
fn messages_of_errors() {
    let a = Some(oid(0x11));
    let shown = gix_hash::ObjectId::Sha1([0x11; 20]);
    assert_eq!(RefStoreError::NotFound("r".into()).message(), "ref not found: r");
    assert_eq!(
        RefStoreError::Conflict { expected: None, actual: a }.message(),
        format!("CAS conflict: expected None, actual {:?}", Some(shown))
    );
    assert_eq!(RefStoreError::InvalidName("r".into()).message(), "invalid ref name: r");
    assert_eq!(RefStoreError::Io("r".into()).message(), "backend io: r");
    assert_eq!(RefStoreError::Backend("r".into()).message(), "backend: r");
    assert_eq!(ObjectStoreError::NotFound(oid(0x11)).message(), format!("object not found: {shown}"));
    assert_eq!(ObjectStoreError::Io("x".into()).message(), "backend io: x");
    assert_eq!(ObjectStoreError::Zlib("x".into()).message(), "zlib decode: x");
    assert_eq!(ObjectStoreError::Backend("x".into()).message(), "backend error: x");
    assert_eq!(
        ObjectStoreError::OidMismatch { expected: oid(0x11), actual: oid(0x22) }.message(),
        format!("oid mismatch: expected {shown}, got {}", "22".repeat(20))
    );
    assert_eq!(GitError::RefStore(RefStoreError::NotFound("r".into())).message(), "ref not found: r");
    assert_eq!(GitError::Vfs(FsError::NotFound("p".into())).message(), "vfs: not found: p");
    assert_eq!(GitError::Vfs(FsError::Failed("p".into())).message(), "vfs: p");
    assert_eq!(GitError::PathNotFound("p".into()).message(), "path not found: p");
    assert_eq!(GitError::PathIsDirectory("p".into()).message(), "path is a directory: p");
    assert_eq!(GitError::CorruptedObject("p".into()).message(), "corrupted object: p");
    assert_eq!(GitError::InvalidProjectDir("p".into()).message(), "invalid project_dir: p");
    assert_eq!(
        GitError::SubtreeNotFoundInCommit { project_dir: "d".into(), commit: oid(0x11) }.message(),
        format!("subtree d not found in commit {shown}")
    );
    assert_eq!(
        GitError::OidPrefixNotFound { prefix: "ab".into() }.message(),
        "no commit matches oid prefix ab"
    );
    assert_eq!(
        GitError::AmbiguousOid { prefix: "ab".into(), count: 2, candidates: "x, y".into() }.message(),
        "ambiguous oid prefix ab: 2 candidates: x, y"
    );
    assert_eq!(
        GitError::InvalidIgnoreFile { path: "f".into(), reason: "r".into() }.message(),
        "invalid ignore file f: r"
    );
    assert_eq!(
        GitError::IgnoreFileTooLarge { path: "f".into(), size: 70000, max: 65536 }.message(),
        "ignore file f is too large: 70000 bytes, at most 65536"
    );
    assert_eq!(GitError::Other("o".into()).message(), "o");
    assert_eq!(
        GitError::ConcurrentCommit { ref_name: "r".into(), expected: a, actual: None }.message(),
        format!("concurrent commit on r: expected {:?}, actual None", Some(shown))
    );
}
