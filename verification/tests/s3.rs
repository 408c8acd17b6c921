use ragfs_git::error::{ObjectStoreError, RefStoreError};
use ragfs_git::oid::ObjectId;
use ragfs_git::s3::{
    cas_update, object_exists, object_get_error, object_key, object_put_outcome, parse_ref,
    read_ref_opt, ref_key, required_ref, CasMode, CasNext, GetReply, ListNext, PutCondition,
    PutReply, RefListing, S3Config,
};

fn oid(byte: u8) -> ObjectId {
    ObjectId { bytes: [byte; 20] }
}

#[test]
fn test_cas_mode_variants() {
    assert_eq!(CasMode::Native, CasMode::Native);
    assert_ne!(CasMode::Native, CasMode::RedisLock);
}

#[test]
fn test_s3_config_default() {
    let config = S3Config::default();
    assert_eq!(config.region, "us-east-1");
    assert_eq!(config.use_path_style, true);
    assert_eq!(config.cas_mode, CasMode::Native);
}

#[test]
fn keys_of_objects_and_refs() {
    let id = ObjectId::from_hex(b"abcdef1234567890abcdef1234567890abcdef12").unwrap();
    let tail = "ab/cdef1234567890abcdef1234567890abcdef12";
    assert_eq!(object_key("", "acct", &id), format!("acct/objects/{tail}"));
    assert_eq!(object_key("git//", "acct", &id), format!("git/acct/objects/{tail}"));
    assert_eq!(ref_key("/", "acct", "refs/heads/main"), "acct/refs/heads/main");
    assert_eq!(ref_key("git", "acct", "refs/heads/main"), "git/acct/refs/heads/main");
}

#[test]
fn keys_keep_accounts_and_objects_apart() {
    assert_ne!(object_key("git", "a", &oid(1)), object_key("git", "b", &oid(1)));
    assert_ne!(object_key("git", "a", &oid(1)), object_key("git", "a", &oid(2)));
}

#[test]
fn storing_an_object_twice_is_no_failure() {
    assert_eq!(object_put_outcome(PutReply::Done), Ok(()));
    for seen in ["code: PreconditionFailed", "status 412", "304 NOT MODIFIED"] {
        assert_eq!(object_put_outcome(PutReply::Refused(seen.to_string())), Ok(()), "{seen}");
        assert_eq!(
            object_put_outcome(PutReply::Failed(seen.to_string())),
            Err(ObjectStoreError::Backend(format!("S3 put error: {seen}")))
        );
    }
    assert_eq!(
        object_put_outcome(PutReply::Refused("AccessDenied".to_string())),
        Err(ObjectStoreError::Backend("S3 put error: AccessDenied".to_string()))
    );
}

#[test]
fn missing_objects_are_told_from_failures() {
    assert_eq!(object_get_error(oid(1), "NO_SUCH_KEY"), ObjectStoreError::NotFound(oid(1)));
    assert_eq!(object_get_error(oid(1), "status 404"), ObjectStoreError::NotFound(oid(1)));
    assert_eq!(
        object_get_error(oid(1), "Timeout"),
        ObjectStoreError::Backend("S3 get error: Timeout".to_string())
    );
    assert_eq!(object_exists(Ok(())), Ok(true));
    assert_eq!(object_exists(Err("Not_Found".to_string())), Ok(false));
    assert_eq!(object_exists(Err("404".to_string())), Ok(false));
    assert_eq!(
        object_exists(Err("no_such_key".to_string())),
        Err(ObjectStoreError::Backend("S3 head error: no_such_key".to_string()))
    );
}

#[test]
fn a_ref_is_read_back_as_it_was_written() {
    let start = cas_update(CasMode::Native, "acct", "refs/heads/main", None, oid(0xAB)).unwrap();
    let put = start.current(Ok(None)).unwrap();
    assert_eq!(put.condition, PutCondition::IfNoneMatch);
    assert_eq!(put.body, format!("{}\n", "ab".repeat(20)));
    assert_eq!(parse_ref(put.body.as_bytes()), Ok(oid(0xAB)));
}

#[test]
fn a_ref_that_is_no_identifier() {
    assert_eq!(
        parse_ref(b" short \n"),
        Err(RefStoreError::Backend("invalid oid in ref: short".to_string()))
    );
    assert_eq!(
        parse_ref(&[0xFF, b'x']),
        Err(RefStoreError::Backend("invalid oid in ref: \u{fffd}x".to_string()))
    );
}

#[test]
fn reading_a_ref() {
    let found = GetReply::Found { bytes: "11".repeat(20).into_bytes(), etag: Some("t".into()) };
    assert_eq!(read_ref_opt(found), Ok(Some((oid(0x11), Some("t".to_string())))));
    assert_eq!(read_ref_opt(GetReply::Failed("no_such_KEY".into())), Ok(None));
    assert_eq!(
        read_ref_opt(GetReply::Failed("oops".into())),
        Err(RefStoreError::Backend("S3 get error: oops".to_string()))
    );
    assert_eq!(
        read_ref_opt(GetReply::Broken("cut".into())),
        Err(RefStoreError::Backend("S3 read body error: cut".to_string()))
    );
    assert_eq!(required_ref("refs/heads/m", Ok(None)), Err(RefStoreError::NotFound("refs/heads/m".into())));
    assert_eq!(required_ref("refs/heads/m", Ok(Some((oid(1), None)))), Ok(oid(1)));
    let failed = RefStoreError::Backend("x".into());
    assert_eq!(required_ref("refs/heads/m", Err(failed.clone())), Err(failed));
}

#[test]
fn updates_are_refused_where_the_ref_has_moved() {
    let begin = |expected| cas_update(CasMode::Native, "a", "refs/heads/m", expected, oid(9)).unwrap();
    assert_eq!(
        begin(None).current(Ok(Some((oid(1), Some("t".into()))))).unwrap_err(),
        RefStoreError::Conflict { expected: None, actual: Some(oid(1)) }
    );
    assert_eq!(
        begin(Some(oid(2))).current(Ok(None)).unwrap_err(),
        RefStoreError::Conflict { expected: Some(oid(2)), actual: None }
    );
    // A ref without a tag cannot be updated under a condition.
    assert_eq!(
        begin(Some(oid(2))).current(Ok(Some((oid(2), None)))).unwrap_err(),
        RefStoreError::Conflict { expected: Some(oid(2)), actual: Some(oid(2)) }
    );
    let put = begin(Some(oid(2))).current(Ok(Some((oid(2), Some("t".into()))))).unwrap();
    assert_eq!(put.condition, PutCondition::IfMatch("t".to_string()));
    match put.replied(PutReply::Refused("HTTP 412".into())) {
        CasNext::Lost(lost) => assert_eq!(
            lost.conflict(Ok(Some((oid(3), None)))),
            RefStoreError::Conflict { expected: Some(oid(2)), actual: Some(oid(3)) }
        ),
        other => panic!("expected a lost update, got {other:?}"),
    }
    let put = begin(None).current(Ok(None)).unwrap();
    assert!(matches!(put.replied(PutReply::Done), CasNext::Done(Ok(()))));
    let put = begin(None).current(Ok(None)).unwrap();
    match put.replied(PutReply::Refused("denied".into())) {
        CasNext::Done(Err(e)) => assert_eq!(e, RefStoreError::Backend("S3 put error: denied".into())),
        other => panic!("expected a failure, got {other:?}"),
    }
}

#[test]
fn updates_need_a_valid_name_and_the_native_mode() {
    assert!(matches!(
        cas_update(CasMode::RedisLock, "a", "", None, oid(1)),
        Err(RefStoreError::InvalidName(_))
    ));
    assert_eq!(
        cas_update(CasMode::RedisLock, "a", "refs/heads/m", None, oid(1)).unwrap_err(),
        RefStoreError::Backend("RedisLock CAS mode not yet implemented".to_string())
    );
}

#[test]
fn listing_goes_through_the_pages() {
    let listing = RefListing::new("git/", "acct", "refs/heads");
    assert_eq!(listing.key_prefix, "git/acct/refs/heads/");
    assert_eq!(listing.token, None);
    let keys = vec![
        "git/acct/refs/heads/dir/".to_string(),
        "git/acct/refs/heads/a".to_string(),
        "git/acct/refs/heads/b".to_string(),
    ];
    let page = listing.page(keys, Some(true), Some("next".into()));
    assert_eq!(page.name().as_deref(), Some("refs/heads/a"));
    let page = page.read(Ok(Some((oid(1), None))));
    assert_eq!(page.name().as_deref(), Some("refs/heads/b"));
    // A ref that cannot be read is left out.
    let page = page.read(Err(RefStoreError::Backend("x".into())));
    assert_eq!(page.name(), None);
    let listing = match page.finish() {
        ListNext::More(listing) => listing,
        ListNext::Done(_) => panic!("expected another page"),
    };
    assert_eq!(listing.token.as_deref(), Some("next"));
    let page = listing.page(vec!["elsewhere".to_string()], Some(false), None);
    assert_eq!(page.name().as_deref(), Some("elsewhere"));
    let page = page.read(Ok(Some((oid(2), None))));
    match page.finish() {
        ListNext::Done(found) => assert_eq!(
            found,
            vec![("refs/heads/a".to_string(), oid(1)), ("elsewhere".to_string(), oid(2))]
        ),
        ListNext::More(_) => panic!("expected the end"),
    }
}

/// A key of the store: its bytes and the number of its version.
struct Key(Option<(Vec<u8>, u32)>);

impl Key {
    fn get(&self) -> GetReply {
        match &self.0 {
            Some((bytes, version)) => {
                GetReply::Found { bytes: bytes.clone(), etag: Some(format!("v{version}")) }
            }
            None => GetReply::Failed("NoSuchKey: no_such_key".to_string()),
        }
    }

    fn put(&mut self, body: &str, condition: &PutCondition) -> PutReply {
        let version = self.0.as_ref().map(|(_, v)| *v);
        let holds = match condition {
            PutCondition::IfMatch(tag) => version.map(|v| format!("v{v}")).as_ref() == Some(tag),
            PutCondition::IfNoneMatch => version.is_none(),
        };
        if !holds {
            return PutReply::Refused("PreconditionFailed".to_string());
        }
        self.0 = Some((body.as_bytes().to_vec(), version.unwrap_or(0) + 1));
        PutReply::Done
    }

    /// An update of the ref; `between` is what another writer does before the write.
    fn update(
        &mut self,
        expected: Option<ObjectId>,
        new: ObjectId,
        between: Option<ObjectId>,
    ) -> Result<(), RefStoreError> {
        let start = cas_update(CasMode::Native, "a", "refs/heads/m", expected, new)?;
        let put = start.current(read_ref_opt(self.get()))?;
        if let Some(other) = between {
            let version = self.0.as_ref().map_or(0, |(_, v)| *v);
            self.0 = Some((format!("{}\n", other.to_hex()).into_bytes(), version + 1));
        }
        let reply = self.put(&put.body, &put.condition);
        match put.replied(reply) {
            CasNext::Done(result) => result,
            CasNext::Lost(lost) => Err(lost.conflict(read_ref_opt(self.get()))),
        }
    }

    fn read(&self) -> Result<ObjectId, RefStoreError> {
        required_ref("refs/heads/m", read_ref_opt(self.get()))
    }
}

#[test]
fn a_read_after_an_update_gives_what_the_update_left() {
    let mut key = Key(None);
    assert_eq!(
        key.update(Some(oid(1)), oid(2), None),
        Err(RefStoreError::Conflict { expected: Some(oid(1)), actual: None })
    );
    assert_eq!(key.read(), Err(RefStoreError::NotFound("refs/heads/m".to_string())));
    assert_eq!(key.update(None, oid(1), None), Ok(()));
    assert_eq!(key.read(), Ok(oid(1)));
    assert_eq!(
        key.update(None, oid(2), None),
        Err(RefStoreError::Conflict { expected: None, actual: Some(oid(1)) })
    );
    assert_eq!(key.read(), Ok(oid(1)));
    assert_eq!(key.update(Some(oid(1)), oid(2), None), Ok(()));
    assert_eq!(key.read(), Ok(oid(2)));
    assert_eq!(
        key.update(Some(oid(2)), oid(3), Some(oid(7))),
        Err(RefStoreError::Conflict { expected: Some(oid(2)), actual: Some(oid(7)) })
    );
    assert_eq!(key.read(), Ok(oid(7)));
}

#[test]
fn pages_of_any_size_list_the_same() {
    let refs = ["refs/heads/a", "refs/heads/b/c", "refs/heads/main", "refs/headstrong", "refs/tags/v"];
    let value = |name: &str| oid(name.len() as u8);
    let list = |prefix: &str, asked: &str, size: usize| {
        let mut listing = RefListing::new(prefix, "acct", asked);
        let keys: Vec<String> = refs
            .iter()
            .map(|name| ref_key(prefix, "acct", name))
            .filter(|key| key.starts_with(&listing.key_prefix))
            .collect();
        let pages: Vec<Vec<String>> = keys.chunks(size).map(|c| c.to_vec()).collect();
        for (i, keys) in pages.iter().enumerate() {
            let more = i + 1 < pages.len();
            let mut page = listing.page(keys.clone(), Some(more), Some("t".to_string()));
            while let Some(name) = page.name() {
                let read = Ok(Some((value(&name), None)));
                page = page.read(read);
            }
            match page.finish() {
                ListNext::More(next) => listing = next,
                ListNext::Done(found) => return found,
            }
        }
        panic!("expected the end");
    };
    let expected: Vec<(String, ObjectId)> =
        refs[..3].iter().map(|name| (name.to_string(), value(name))).collect();
    for prefix in ["", "git", "git/"] {
        for asked in ["refs/heads", "refs/heads/"] {
            for size in 1..5 {
                assert_eq!(list(prefix, asked, size), expected, "{prefix} {asked} {size}");
            }
        }
    }
}
