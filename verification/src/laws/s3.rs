//! What the keys and replies of the store on S3 are for.

use crate::error::{ObjectStoreError, ObjectStoreErrorView, RefStoreError, RefStoreErrorView};
use crate::laws::names::{fine_ref_name, lemma_fine_ref_name, writes_none, writes_oid};
use crate::laws::text::{all_are, holds_at, is_trimmed, lemma_holds_at, lemma_trimmed};
use crate::oid::{hex, ObjectId};
use crate::s3::{
    cas_update, is_already_stored, is_head_not_found, is_no_such_key, is_precondition_failed,
    lowercase, object_exists, object_get_error, object_key, object_put_outcome, parse_ref,
    parse_ref_text, read_ref_opt, ref_key, ref_text, required_ref, same_value, CasMode, CasNext,
    CasPut, CasReread, CasStart, GetReply, ListNext, PutCondition, PutReply, RefListing, RefPage,
    RefRead,
};
use crate::text::views;
use vstd::prelude::*;
use vstd::utf8::{decode_utf8, valid_utf8};

verus! {

// ---- Keys ------------------------------------------------------------------

/// Two values of a ref are the same if and only if both are missing or both are one
/// identifier.
pub proof fn law_same_value(a: Option<ObjectId>, b: Option<ObjectId>, same: bool)
    requires
        call_ensures(same_value, (&a, &b), same),
    ensures
        same <==> match (a, b) {
            (Some(x), Some(y)) => x.bytes == y.bytes,
            (None, None) => true,
            _ => false,
        },
{
}

/// A prefix without the slashes at its end.
pub open spec fn is_bare(prefix: Seq<char>, bare: Seq<char>) -> bool {
    &&& bare.len() > 0 ==> bare[bare.len() - 1] != '/'
    &&& exists|back: Seq<char>|
        prefix == #[trigger] (bare + back) && all_are(back, |c: char| c == '/')
}

/// A key of an account: the prefix and a slash, where there is a prefix, the account
/// and a slash, and the place in the account.
pub open spec fn is_key(
    prefix: Seq<char>,
    account: Seq<char>,
    place: Seq<char>,
    key: Seq<char>,
) -> bool {
    exists|bare: Seq<char>| #[trigger]
        is_bare(prefix, bare) && key == (if bare.len() == 0 {
            bare
        } else {
            bare + "/"@
        }) + account + "/"@ + place
}

/// The key of something in an account.
pub proof fn lemma_key(prefix: Seq<char>, account: Seq<char>, place: Seq<char>)
    ensures
        is_key(prefix, account, place, crate::s3::key_of(prefix, account, place)),
{
    let kind = |c: char| c == '/';
    let bare = crate::text::without_end_slashes(prefix);
    let back = crate::laws::text::lemma_cut_end(prefix, kind);
    assert(prefix == bare + back);
    assert(is_bare(prefix, bare));
    let key = crate::s3::key_of(prefix, account, place);
    if bare.len() == 0 {
        assert(key =~= bare + account + "/"@ + place);
    }
}

/// A ref stands at its name in the account, and an object where the first two digits
/// of its identifier are a directory and the other thirty-eight its name in it.
pub proof fn law_keys(
    prefix: &str,
    account: &str,
    name: &str,
    oid: ObjectId,
    at_ref: String,
    at_object: String,
)
    requires
        call_ensures(ref_key, (prefix, account, name), at_ref),
        call_ensures(object_key, (prefix, account, &oid), at_object),
    ensures
        is_key(prefix@, account@, name@, at_ref@),
        exists|two: Seq<char>, rest: Seq<char>|
            #![trigger two + rest]
            two.len() == 2 && two + rest == hex(oid.bytes@) && is_key(
                prefix@,
                account@,
                "objects/"@ + two + "/"@ + rest,
                at_object@,
            ),
{
    lemma_key(prefix@, account@, name@);
    let digits = hex(oid.bytes@);
    let two = digits.take(2);
    let rest = digits.skip(2);
    assert(two + rest =~= digits);
    lemma_key(prefix@, account@, "objects/"@ + two + "/"@ + rest);
}

// ---- Replies ---------------------------------------------------------------

/// The text holds the words somewhere.
pub open spec fn mentions(text: Seq<char>, words: Seq<char>) -> bool {
    exists|at: int| holds_at(text, words, at)
}

proof fn lemma_mentions(text: Seq<char>, words: Seq<char>)
    ensures
        crate::text::occurs(text, words) <==> mentions(text, words),
{
    if crate::text::occurs(text, words) {
        let at = choose|at: int| crate::text::stands_at(text, words, at);
        lemma_holds_at(text, words, at);
    }
    if mentions(text, words) {
        let at = choose|at: int| holds_at(text, words, at);
        lemma_holds_at(text, words, at);
    }
}

proof fn lemma_all_mentions(text: Seq<char>)
    ensures
        crate::s3::says_precondition_failed(text) <==> mentions(text, "preconditionfailed"@)
            || mentions(text, "412"@),
        crate::s3::says_no_such_key(text) <==> mentions(text, "no_such_key"@) || mentions(
            text,
            "404"@,
        ),
        crate::s3::says_not_found(text) <==> mentions(text, "not_found"@) || mentions(text, "404"@),
        crate::text::occurs(text, "not modified"@) <==> mentions(text, "not modified"@),
{
    lemma_mentions(text, "preconditionfailed"@);
    lemma_mentions(text, "412"@);
    lemma_mentions(text, "no_such_key"@);
    lemma_mentions(text, "404"@);
    lemma_mentions(text, "not_found"@);
    lemma_mentions(text, "not modified"@);
}

/// What the description of a failure says.
pub proof fn law_descriptions(
    lower: &str,
    precondition: bool,
    no_key: bool,
    not_found: bool,
    stored: bool,
)
    requires
        call_ensures(is_precondition_failed, (lower,), precondition),
        call_ensures(is_no_such_key, (lower,), no_key),
        call_ensures(is_head_not_found, (lower,), not_found),
        call_ensures(is_already_stored, (lower,), stored),
    ensures
        precondition <==> mentions(lower@, "preconditionfailed"@) || mentions(lower@, "412"@),
        no_key <==> mentions(lower@, "no_such_key"@) || mentions(lower@, "404"@),
        not_found <==> mentions(lower@, "not_found"@) || mentions(lower@, "404"@),
        stored <==> precondition || mentions(lower@, "not modified"@),
{
    lemma_all_mentions(lower@);
}

/// An object is stored where the write was done, or was refused because it stands there
/// already; everything else is a failure of the store.
pub proof fn law_storing_an_object(reply: PutReply, result: Result<(), ObjectStoreError>)
    requires
        call_ensures(object_put_outcome, (reply,), result),
    ensures
        result is Ok <==> match reply {
            PutReply::Done => true,
            PutReply::Refused(t) => mentions(lowercase(t@), "preconditionfailed"@) || mentions(
                lowercase(t@),
                "412"@,
            ) || mentions(lowercase(t@), "not modified"@),
            PutReply::Failed(_) => false,
        },
        result matches Err(e) ==> (reply matches PutReply::Refused(t) && e@
            == ObjectStoreErrorView::Backend("S3 put error: "@ + t@)) || (
        reply matches PutReply::Failed(t) && e@ == ObjectStoreErrorView::Backend(
            "S3 put error: "@ + t@,
        )),
{
    match reply {
        PutReply::Refused(t) => lemma_all_mentions(lowercase(t@)),
        _ => {},
    }
}

/// An object that is not there is told from one that could not be read, and its
/// existence from a failure to ask for it.
pub proof fn law_missing_objects(
    oid: ObjectId,
    failure: &str,
    error: ObjectStoreError,
    reply: Result<(), String>,
    exists: Result<bool, ObjectStoreError>,
)
    requires
        call_ensures(object_get_error, (oid, failure), error),
        call_ensures(object_exists, (reply,), exists),
    ensures
        mentions(lowercase(failure@), "no_such_key"@) || mentions(lowercase(failure@), "404"@)
            ==> error@ == ObjectStoreErrorView::NotFound(oid),
        !mentions(lowercase(failure@), "no_such_key"@) && !mentions(lowercase(failure@), "404"@)
            ==> error@ == ObjectStoreErrorView::Backend("S3 get error: "@ + failure@),
        match reply {
            Ok(()) => exists == Ok::<bool, ObjectStoreError>(true),
            Err(t) => if mentions(lowercase(t@), "not_found"@) || mentions(
                lowercase(t@),
                "404"@,
            ) {
                exists == Ok::<bool, ObjectStoreError>(false)
            } else {
                exists matches Err(e) && e@ == ObjectStoreErrorView::Backend(
                    "S3 head error: "@ + t@,
                )
            },
        },
{
    lemma_all_mentions(lowercase(failure@));
    match reply {
        Err(t) => lemma_all_mentions(lowercase(t@)),
        _ => {},
    }
}

// ---- Refs ------------------------------------------------------------------

/// A stored ref holds the identifier that its digits write, with white space around
/// them that does not count; any other text is a failure of the store.
pub proof fn law_ref_text(text: &str, result: Result<ObjectId, RefStoreError>)
    requires
        call_ensures(parse_ref_text, (text,), result),
    ensures
        exists|core: Seq<char>| #[trigger]
            is_trimmed(text@, core) && match result {
                Ok(oid) => writes_oid(core, oid),
                Err(e) => writes_none(core) && e@ == RefStoreErrorView::Backend(
                    "invalid oid in ref: "@ + core,
                ),
            },
{
    lemma_trimmed(text@);
    let core = crate::text::trimmed(text@);
    crate::laws::names::lemma_read_hex(core);
}

/// What is read of a ref: the stored identifier with the tag of its version, nothing
/// where there is no such key, and else the failure. A ref that has to exist is not
/// found where nothing was read.
pub proof fn law_reading_a_ref(
    reply: GetReply,
    read: RefRead,
    name: &str,
    value: Result<ObjectId, RefStoreError>,
)
    requires
        call_ensures(read_ref_opt, (reply,), read),
        call_ensures(required_ref, (name, read), value),
    ensures
        match reply {
            GetReply::Found { bytes, etag } => match read {
                Ok(Some((oid, tag))) => tag == etag && (valid_utf8(bytes@) ==> holds_oid(
                    decode_utf8(bytes@),
                    Some(oid),
                )),
                Ok(None) => false,
                Err(e) => e is Backend && (valid_utf8(bytes@) ==> holds_oid(
                    decode_utf8(bytes@),
                    None,
                )),
            },
            GetReply::Broken(t) => read matches Err(e) && e@ == RefStoreErrorView::Backend(
                "S3 read body error: "@ + t@,
            ),
            GetReply::Failed(t) => if mentions(lowercase(t@), "no_such_key"@) || mentions(
                lowercase(t@),
                "404"@,
            ) {
                read matches Ok(None)
            } else {
                read matches Err(e) && e@ == RefStoreErrorView::Backend("S3 get error: "@ + t@)
            },
        },
        match read {
            Ok(Some((oid, _))) => value == Ok::<_, RefStoreError>(oid),
            Ok(None) => value matches Err(e) && e@ == RefStoreErrorView::NotFound(name@),
            Err(e) => value == Err::<ObjectId, _>(e),
        },
{
    match reply {
        GetReply::Failed(t) => lemma_all_mentions(lowercase(t@)),
        GetReply::Found { bytes, .. } => lemma_holds_oid(ref_text(bytes@)),
        _ => {},
    }
}

/// The text holds the identifier, or none, with white space around it.
pub open spec fn holds_oid(text: Seq<char>, value: Option<ObjectId>) -> bool {
    exists|core: Seq<char>| #[trigger]
        is_trimmed(text, core) && match value {
            Some(oid) => writes_oid(core, oid),
            None => writes_none(core),
        }
}

proof fn lemma_holds_oid(text: Seq<char>)
    ensures
        match crate::s3::ref_value(text) {
            Ok(oid) => holds_oid(text, Some(oid)),
            Err(e) => holds_oid(text, None) && e is Backend,
        },
{
    lemma_trimmed(text);
    crate::laws::names::lemma_read_hex(crate::text::trimmed(text));
}

/// The bytes of a stored ref are read as their text.
pub proof fn law_stored_ref(bytes: &[u8], result: Result<ObjectId, RefStoreError>)
    requires
        call_ensures(parse_ref, (bytes,), result),
        valid_utf8(bytes@),
    ensures
        match result {
            Ok(oid) => holds_oid(decode_utf8(bytes@), Some(oid)),
            Err(e) => holds_oid(decode_utf8(bytes@), None) && e is Backend,
        },
{
    lemma_holds_oid(decode_utf8(bytes@));
}

/// The value that was read of a ref.
pub open spec fn read_value(current: Option<(ObjectId, Option<String>)>) -> Option<ObjectId> {
    match current {
        Some((oid, _)) => Some(oid),
        None => None,
    }
}

/// An update begins where the name is valid and the mode is native. It goes on to the
/// write if and only if the ref has the expected value, and a tag where it exists; the
/// write holds the new identifier and a newline, under the condition that what was read
/// still stands, or that nothing does.
pub proof fn law_updating_a_ref(
    mode: CasMode,
    account: &str,
    name: &str,
    expected: Option<ObjectId>,
    new: ObjectId,
    begun: Result<CasStart, RefStoreError>,
    current: Option<(ObjectId, Option<String>)>,
    put: Result<CasPut, RefStoreError>,
)
    requires
        call_ensures(cas_update, (mode, account, name, expected, new), begun),
        begun matches Ok(start) ==> call_ensures(CasStart::current, (start, Ok(current)), put),
    ensures
        begun is Ok <==> fine_ref_name(name@) && mode == CasMode::Native,
        begun matches Err(e) ==> (e is InvalidName <==> !fine_ref_name(name@)),
        begun matches Err(e) ==> (fine_ref_name(name@) ==> e@ == RefStoreErrorView::Backend(
            "RedisLock CAS mode not yet implemented"@,
        )),
        begun is Ok ==> {
            &&& put is Ok <==> read_value(current) == expected && !(current matches Some((_, None)))
            &&& put matches Err(e) ==> e@ == (RefStoreErrorView::Conflict {
                expected,
                actual: read_value(current),
            })
            &&& put matches Ok(p) ==> {
                &&& p.body@ == hex(new.bytes@) + "\n"@
                &&& p.account@ == account@
                &&& p.ref_name@ == name@
                &&& p.expected == expected
                &&& match current {
                    Some((_, Some(tag))) => p.condition matches PutCondition::IfMatch(t) && t@
                        == tag@,
                    _ => p.condition is IfNoneMatch,
                }
            }
        },
{
    lemma_fine_ref_name(name@);
}

/// An update is done where the write was done, lost where its condition did not hold,
/// and else has failed. One that is lost reports the value that the ref has by now.
pub proof fn law_outcome_of_an_update(
    put: CasPut,
    reply: PutReply,
    next: CasNext,
    lost: CasReread,
    now: Option<(ObjectId, Option<String>)>,
    error: RefStoreError,
)
    requires
        call_ensures(CasPut::replied, (put, reply), next),
        call_ensures(CasReread::conflict, (lost, Ok(now)), error),
    ensures
        (next matches CasNext::Done(Ok(()))) <==> reply is Done,
        next is Lost <==> (reply matches PutReply::Refused(t) && (mentions(
            lowercase(t@),
            "preconditionfailed"@,
        ) || mentions(lowercase(t@), "412"@))),
        next matches CasNext::Lost(l) ==> l.expected == put.expected && l.account == put.account
            && l.ref_name == put.ref_name,
        next matches CasNext::Done(Err(e)) ==> e is Backend,
        error@ == (RefStoreErrorView::Conflict {
            expected: lost.expected,
            actual: read_value(now),
        }),
{
    match reply {
        PutReply::Refused(t) => lemma_all_mentions(lowercase(t@)),
        _ => {},
    }
}

// ---- Listing ---------------------------------------------------------------

/// A listing asks for the keys below the names that are given: a slash is put behind
/// them unless one stands there. A page looks at the refs whose keys do not end with a
/// slash, in their order, each by its name in the account.
pub proof fn law_listing_a_page(
    prefix: &str,
    account: &str,
    refs: &str,
    listing: RefListing,
    keys: Vec<String>,
    truncated: Option<bool>,
    token: Option<String>,
    page: RefPage,
)
    requires
        call_ensures(RefListing::new, (prefix, account, refs), listing),
        call_ensures(RefListing::page, (listing, keys, truncated, token), page),
    ensures
        exists|place: Seq<char>| #[trigger]
            is_key(prefix@, account@, refs@, place) && listing.key_prefix@ == if place[place.len()
                - 1] == '/' {
                place
            } else {
                place + "/"@
            },
        is_key(prefix@, account@, Seq::empty(), listing.base@),
        listing.token is None,
        listing.found@.len() == 0,
        page@.more <==> truncated == Some(true),
        page@.listing.token == token,
        page@.listing.base == listing.base,
        page@.listing.found == listing.found,
        page@.pending.len() <= keys@.len(),
        forall|i: int|
            0 <= i < keys@.len() && !holds_at((#[trigger] keys@[i])@, "/"@, keys@[i]@.len() - 1)
                && holds_at(keys@[i]@, listing.base@, 0) ==> page@.pending.contains(
                keys@[i]@.skip(listing.base@.len() as int),
            ),
        (forall|i: int|
            0 <= i < keys@.len() ==> !holds_at(
                (#[trigger] keys@[i])@,
                "/"@,
                keys@[i]@.len() - 1,
            ) && holds_at(keys@[i]@, listing.base@, 0)) ==> page@.pending.len() == keys@.len() && (
        forall|i: int|
            0 <= i < keys@.len() ==> #[trigger] page@.pending[i] == keys@[i]@.skip(
                listing.base@.len() as int,
            )),
{
    reveal_strlit("/");
    lemma_key(prefix@, account@, refs@);
    lemma_key(prefix@, account@, Seq::empty());
    let place = crate::s3::key_of(prefix@, account@, refs@);
    lemma_holds_at(place, "/"@, place.len() - 1);
    assert(is_key(prefix@, account@, refs@, place));
    assert(place.len() > 0);
    if place[place.len() - 1] == '/' {
        assert(holds_at(place, "/"@, place.len() - 1));
    } else if holds_at(place, "/"@, place.len() - 1) {
        assert(place[place.len() - 1 + 0] == "/"@[0]);
    }
    let base = listing.base@;
    let all = views(keys@);
    lemma_page_names(base, all);
    assert forall|i: int|
        0 <= i < keys@.len() && !holds_at((#[trigger] keys@[i])@, "/"@, keys@[i]@.len() - 1)
            && holds_at(keys@[i]@, base, 0) implies page@.pending.contains(
        keys@[i]@.skip(base.len() as int),
    ) by {
        let key = keys@[i]@;
        lemma_holds_at(key, "/"@, key.len() - 1);
        lemma_holds_at(key, base, 0);
        assert(all[i] == key);
        assert(crate::s3::name_at(base, key) == Some(key.skip(base.len() as int)));
    }
    if forall|i: int|
        0 <= i < keys@.len() ==> !holds_at((#[trigger] keys@[i])@, "/"@, keys@[i]@.len() - 1)
            && holds_at(keys@[i]@, base, 0) {
        assert forall|i: int| 0 <= i < all.len() implies crate::s3::name_at(base, #[trigger] all[i])
            == Some(all[i].skip(base.len() as int)) by {
            let key = keys@[i]@;
            lemma_holds_at(key, "/"@, key.len() - 1);
            lemma_holds_at(key, base, 0);
        }
        lemma_all_named(base, all);
        assert forall|i: int| 0 <= i < keys@.len() implies #[trigger] page@.pending[i]
            == keys@[i]@.skip(base.len() as int) by {
            assert(all[i] == keys@[i]@);
        }
    }
}

proof fn lemma_all_named(base: Seq<char>, keys: Seq<Seq<char>>)
    requires
        forall|i: int|
            0 <= i < keys.len() ==> crate::s3::name_at(base, #[trigger] keys[i]) == Some(
                keys[i].skip(base.len() as int),
            ),
    ensures
        crate::s3::names_at(base, keys).len() == keys.len(),
        forall|i: int|
            0 <= i < keys.len() ==> #[trigger] crate::s3::names_at(base, keys)[i] == keys[i].skip(
                base.len() as int,
            ),
    decreases keys.len(),
{
    if keys.len() > 0 {
        let front = keys.drop_last();
        assert forall|i: int| 0 <= i < front.len() implies crate::s3::name_at(
            base,
            #[trigger] front[i],
        ) == Some(front[i].skip(base.len() as int)) by {
            assert(front[i] == keys[i]);
        }
        lemma_all_named(base, front);
        assert(keys.last() == keys[keys.len() - 1]);
    }
}

proof fn lemma_page_names(base: Seq<char>, keys: Seq<Seq<char>>)
    ensures
        crate::s3::names_at(base, keys).len() <= keys.len(),
        forall|i: int|
            0 <= i < keys.len() && crate::s3::name_at(base, #[trigger] keys[i]) is Some
                ==> crate::s3::names_at(base, keys).contains(
                crate::s3::name_at(base, keys[i])->0,
            ),
    decreases keys.len(),
{
    if keys.len() > 0 {
        let front = keys.drop_last();
        lemma_page_names(base, front);
        let names = crate::s3::names_at(base, keys);
        let before = crate::s3::names_at(base, front);
        assert forall|i: int|
            0 <= i < keys.len() && crate::s3::name_at(base, #[trigger] keys[i]) is Some implies
            names.contains(crate::s3::name_at(base, keys[i])->0) by {
            let name = crate::s3::name_at(base, keys[i])->0;
            if i < front.len() {
                assert(front[i] == keys[i]);
                assert(before.contains(name));
                let k = choose|k: int| 0 <= k < before.len() && before[k] == name;
                assert(names[k] == name);
            } else {
                assert(names[names.len() - 1] == name);
            }
        }
    }
}

/// A page reads its refs one after the other: what has a value is found under its
/// name, and what has none, or cannot be read, is passed over. Once none is left, the
/// listing goes on where another page follows, and else ends with all that was found.
pub proof fn law_reading_a_page(
    page: RefPage,
    name: Option<String>,
    read: RefRead,
    after: RefPage,
    done: RefPage,
    next: ListNext,
)
    requires
        call_ensures(RefPage::name, (&page,), name),
        page@.pending.len() > 0,
        call_ensures(RefPage::read, (page, read), after),
        done@.pending.len() == 0,
        call_ensures(RefPage::finish, (done,), next),
    ensures
        name matches Some(n) && n@ == page@.pending[0],
        after@.pending == page@.pending.drop_first(),
        match read {
            Ok(Some((oid, _))) => {
                let found = after@.listing.found@;
                &&& found.len() == page@.listing.found@.len() + 1
                &&& found.take(found.len() - 1) == page@.listing.found@
                &&& found[found.len() - 1].0@ == page@.pending[0]
                &&& found[found.len() - 1].1 == oid
            },
            _ => after@.listing.found@ == page@.listing.found@,
        },
        match next {
            ListNext::More(l) => done@.more && l.found == done@.listing.found && l.token
                == done@.listing.token,
            ListNext::Done(found) => !done@.more && found == done@.listing.found,
        },
{
    let found = after@.listing.found@;
    if read matches Ok(Some((oid, _))) {
        assert(found.take(found.len() - 1) =~= found.drop_last());
    }
}

} // verus!
