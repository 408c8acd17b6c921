//! Objects and refs on S3: the keys, what the replies mean, and the conditional
//! writes with which refs are updated.

use crate::diff::entries;
use crate::error::{ObjectStoreError, ObjectStoreErrorView, RefStoreError, RefStoreErrorView};
use crate::oid::{hex, law_hex_round_trip, lemma_same_bytes, read_hex, ObjectId};
use crate::order::lemma_push_contains;
use crate::text::{
    begins, cat2, cat3, cat4, cat5, contains_text, ends_with, finishes, occurs, strip_prefix, trim,
    trim_end_slashes, trimmed, views, white_space, without_end_slashes,
};
use crate::util::{ref_name_error, validate_ref_name};
use vstd::prelude::*;
use vstd::utf8::{decode_utf8, encode_utf8, valid_utf8};

verus! {

/// How the update of a ref compares and swaps.
#[derive(Debug, Clone, Copy, PartialEq, Eq, Structural)]
pub enum CasMode {
    /// By conditional writes.
    Native,
    /// By a distributed lock, which is not available yet.
    RedisLock,
}

/// How to reach the store.
#[derive(Debug, Clone, PartialEq, Eq)]
pub struct S3Config {
    pub bucket: String,
    /// What all keys begin with.
    pub prefix: String,
    pub region: String,
    pub endpoint: Option<String>,
    pub access_key_id: Option<String>,
    pub secret_access_key: Option<String>,
    /// Whether the bucket stands in the path or in the host.
    pub use_path_style: bool,
    pub cas_mode: CasMode,
}

impl Default for S3Config {
    fn default() -> (config: Self)
        ensures
            config.bucket@.len() == 0,
            config.prefix@.len() == 0,
            config.region@ == "us-east-1"@,
            config.endpoint is None,
            config.access_key_id is None,
            config.secret_access_key is None,
            config.use_path_style,
            config.cas_mode == CasMode::Native,
    {
        S3Config {
            bucket: String::new(),
            prefix: String::new(),
            region: "us-east-1".to_owned(),
            endpoint: None,
            access_key_id: None,
            secret_access_key: None,
            use_path_style: true,
            cas_mode: CasMode::Native,
        }
    }
}

// ---- Keys ------------------------------------------------------------------

/// The key of something in an account. Slashes at the end of the prefix do not
/// count, and an empty prefix is left out.
pub open spec fn key_of(prefix: Seq<char>, account: Seq<char>, rest: Seq<char>) -> Seq<char> {
    let p = without_end_slashes(prefix);
    if p.len() == 0 {
        account + "/"@ + rest
    } else {
        p + "/"@ + account + "/"@ + rest
    }
}

/// Where an object stands: the first two digits of its identifier name a
/// directory, the others the object in it.
pub open spec fn object_place(oid: ObjectId) -> Seq<char> {
    "objects/"@ + hex(oid.bytes@).take(2) + "/"@ + hex(oid.bytes@).skip(2)
}

fn account_key(prefix: &str, account: &str, rest: &str) -> (key: String)
    ensures
        key@ == key_of(prefix@, account@, rest@),
{
    let p = trim_end_slashes(prefix);
    if p.as_str().is_empty() {
        cat3(account, "/", rest)
    } else {
        cat5(p.as_str(), "/", account, "/", rest)
    }
}

/// The key of an object.
pub fn object_key(prefix: &str, account: &str, oid: &ObjectId) -> (key: String)
    ensures
        key@ == key_of(prefix@, account@, object_place(*oid)),
{
    let digits = oid.to_hex();
    let first = digits.as_str().substring_char(0, 2);
    let others = digits.as_str().substring_char(2, 40);
    assert(first@ =~= hex(oid.bytes@).take(2));
    assert(others@ =~= hex(oid.bytes@).skip(2));
    account_key(prefix, account, cat4("objects/", first, "/", others).as_str())
}

/// The key of a ref.
pub fn ref_key(prefix: &str, account: &str, ref_name: &str) -> (key: String)
    ensures
        key@ == key_of(prefix@, account@, ref_name@),
{
    account_key(prefix, account, ref_name)
}

// ---- Replies ---------------------------------------------------------------

/// The reply to a write.
#[derive(Debug, Clone, PartialEq, Eq)]
pub enum PutReply {
    Done,
    /// The service refused, with this description.
    Refused(String),
    /// The request failed otherwise, with this description.
    Failed(String),
}

/// `str::to_lowercase` of a text.
pub uninterp spec fn lowercase(text: Seq<char>) -> Seq<char>;

/// `str::to_lowercase`: the lower-case form of the text, which depends on the
/// text alone.
#[verifier::external_body]
fn to_lowercase(text: &str) -> (lower: String)
    ensures
        lower@ == lowercase(text@),
{
    text.to_lowercase()
}

/// A description in lower case that says that a condition did not hold.
pub open spec fn says_precondition_failed(lower: Seq<char>) -> bool {
    occurs(lower, "preconditionfailed"@) || occurs(lower, "412"@)
}

/// A description in lower case that says that there is no such key.
pub open spec fn says_no_such_key(lower: Seq<char>) -> bool {
    occurs(lower, "no_such_key"@) || occurs(lower, "404"@)
}

/// A description in lower case that says that the object was not found.
pub open spec fn says_not_found(lower: Seq<char>) -> bool {
    occurs(lower, "not_found"@) || occurs(lower, "404"@)
}

/// Whether a description in lower case says that a condition did not hold.
pub fn is_precondition_failed(lower: &str) -> (yes: bool)
    ensures
        yes == says_precondition_failed(lower@),
{
    contains_text(lower, "preconditionfailed") || contains_text(lower, "412")
}

/// Whether a description in lower case says that there is no such key.
pub fn is_no_such_key(lower: &str) -> (yes: bool)
    ensures
        yes == says_no_such_key(lower@),
{
    contains_text(lower, "no_such_key") || contains_text(lower, "404")
}

/// Whether a description in lower case says that the object was not found.
pub fn is_head_not_found(lower: &str) -> (yes: bool)
    ensures
        yes == says_not_found(lower@),
{
    contains_text(lower, "not_found") || contains_text(lower, "404")
}

/// Whether a description in lower case says that an object stands there already.
pub fn is_already_stored(lower: &str) -> (yes: bool)
    ensures
        yes == (says_precondition_failed(lower@) || occurs(lower@, "not modified"@)),
{
    is_precondition_failed(lower) || contains_text(lower, "not modified")
}

/// The outcome of storing an object, which is written only where none stands
/// with its key: that one stands there already is no failure.
pub fn object_put_outcome(reply: PutReply) -> (result: Result<(), ObjectStoreError>)
    ensures
        match (reply, result) {
            (PutReply::Done, Ok(())) => true,
            (PutReply::Refused(t), Ok(())) => says_precondition_failed(lowercase(t@)) || occurs(
                lowercase(t@),
                "not modified"@,
            ),
            (PutReply::Refused(t), Err(e)) => !says_precondition_failed(lowercase(t@)) && !occurs(
                lowercase(t@),
                "not modified"@,
            ) && e@ == ObjectStoreErrorView::Backend("S3 put error: "@ + t@),
            (PutReply::Failed(t), Err(e)) => e@ == ObjectStoreErrorView::Backend(
                "S3 put error: "@ + t@,
            ),
            _ => false,
        },
{
    match reply {
        PutReply::Done => Ok(()),
        PutReply::Refused(t) => if is_already_stored(to_lowercase(t.as_str()).as_str()) {
            Ok(())
        } else {
            Err(ObjectStoreError::Backend(cat2("S3 put error: ", t.as_str())))
        },
        PutReply::Failed(t) => Err(ObjectStoreError::Backend(cat2("S3 put error: ", t.as_str()))),
    }
}

/// The error of a read of an object, given the description of the failure.
pub fn object_get_error(oid: ObjectId, failure: &str) -> (e: ObjectStoreError)
    ensures
        e@ == if says_no_such_key(lowercase(failure@)) {
            ObjectStoreErrorView::NotFound(oid)
        } else {
            ObjectStoreErrorView::Backend("S3 get error: "@ + failure@)
        },
{
    if is_no_such_key(to_lowercase(failure).as_str()) {
        ObjectStoreError::NotFound(oid)
    } else {
        ObjectStoreError::Backend(cat2("S3 get error: ", failure))
    }
}

/// Whether an object exists, given the reply to a request for its head: a
/// failure comes with its description.
pub fn object_exists(reply: Result<(), String>) -> (result: Result<bool, ObjectStoreError>)
    ensures
        match (reply, result) {
            (Ok(()), Ok(exists)) => exists,
            (Err(t), Ok(exists)) => says_not_found(lowercase(t@)) && !exists,
            (Err(t), Err(e)) => !says_not_found(lowercase(t@)) && e@
                == ObjectStoreErrorView::Backend("S3 head error: "@ + t@),
            _ => false,
        },
{
    match reply {
        Ok(()) => Ok(true),
        Err(t) => if is_head_not_found(to_lowercase(t.as_str()).as_str()) {
            Ok(false)
        } else {
            Err(ObjectStoreError::Backend(cat2("S3 head error: ", t.as_str())))
        },
    }
}

// ---- Reading a ref ---------------------------------------------------------

/// `String::from_utf8_lossy` of bytes.
pub uninterp spec fn lossy_text(bytes: Seq<u8>) -> Seq<char>;

/// `String::from_utf8_lossy`: bytes that are UTF-8 give their text; in others
/// what is not UTF-8 is replaced. The text depends on the bytes alone.
#[verifier::external_body]
fn from_utf8_lossy(bytes: &[u8]) -> (text: String)
    ensures
        text@ == lossy_text(bytes@),
        valid_utf8(bytes@) ==> text@ == decode_utf8(bytes@),
{
    String::from_utf8_lossy(bytes).into_owned()
}

/// The text of a stored ref: in bytes that are not UTF-8, what is not is replaced.
pub open spec fn ref_text(bytes: Seq<u8>) -> Seq<char> {
    if valid_utf8(bytes) {
        decode_utf8(bytes)
    } else {
        lossy_text(bytes)
    }
}

/// What a stored ref holds, by its text.
pub open spec fn ref_value(text: Seq<char>) -> Result<ObjectId, RefStoreErrorView> {
    match read_hex(encode_utf8(trimmed(text))) {
        Ok(oid) => Ok(oid),
        Err(_) => Err(RefStoreErrorView::Backend("invalid oid in ref: "@ + trimmed(text))),
    }
}

/// What a stored ref holds, by its text: an identifier, with white space around
/// it that does not count.
pub fn parse_ref_text(text: &str) -> (result: Result<ObjectId, RefStoreError>)
    ensures
        match result {
            Ok(oid) => ref_value(text@) == Ok::<_, RefStoreErrorView>(oid),
            Err(e) => ref_value(text@) == Err::<ObjectId, _>(e@),
        },
{
    let t = trim(text);
    match ObjectId::from_hex(t.as_str().as_bytes()) {
        Ok(oid) => Ok(oid),
        Err(_) => Err(RefStoreError::Backend(cat2("invalid oid in ref: ", t.as_str()))),
    }
}

/// What a stored ref holds.
pub fn parse_ref(bytes: &[u8]) -> (result: Result<ObjectId, RefStoreError>)
    ensures
        match result {
            Ok(oid) => ref_value(ref_text(bytes@)) == Ok::<_, RefStoreErrorView>(oid),
            Err(e) => ref_value(ref_text(bytes@)) == Err::<ObjectId, _>(e@),
        },
{
    parse_ref_text(from_utf8_lossy(bytes).as_str())
}

/// A ref that was read: its value, and the tag of the version that was read.
pub type RefRead = Result<Option<(ObjectId, Option<String>)>, RefStoreError>;

/// The reply to a read of a ref.
#[derive(Debug, Clone, PartialEq, Eq)]
pub enum GetReply {
    /// The stored bytes, with the tag of their version.
    Found { bytes: Vec<u8>, etag: Option<String> },
    /// The bytes could not be read, with this description.
    Broken(String),
    /// The request failed, with this description.
    Failed(String),
}

/// The ref that a reply gives: none, where there is no such key.
pub fn read_ref_opt(reply: GetReply) -> (result: RefRead)
    ensures
        match (reply, result) {
            (GetReply::Found { bytes, etag }, Ok(Some((oid, tag)))) => ref_value(ref_text(bytes@))
                == Ok::<_, RefStoreErrorView>(oid) && tag == etag,
            (GetReply::Found { bytes, .. }, Err(e)) => ref_value(ref_text(bytes@)) == Err::<
                ObjectId,
                _,
            >(e@),
            (GetReply::Broken(t), Err(e)) => e@ == RefStoreErrorView::Backend(
                "S3 read body error: "@ + t@,
            ),
            (GetReply::Failed(t), Ok(None)) => says_no_such_key(lowercase(t@)),
            (GetReply::Failed(t), Err(e)) => !says_no_such_key(lowercase(t@)) && e@
                == RefStoreErrorView::Backend("S3 get error: "@ + t@),
            _ => false,
        },
{
    match reply {
        GetReply::Found { bytes, etag } => match parse_ref(bytes.as_slice()) {
            Ok(oid) => Ok(Some((oid, etag))),
            Err(e) => Err(e),
        },
        GetReply::Broken(t) => Err(
            RefStoreError::Backend(cat2("S3 read body error: ", t.as_str())),
        ),
        GetReply::Failed(t) => if is_no_such_key(to_lowercase(t.as_str()).as_str()) {
            Ok(None)
        } else {
            Err(RefStoreError::Backend(cat2("S3 get error: ", t.as_str())))
        },
    }
}

/// The value of a ref, given what was read of it: one that does not exist is an
/// error.
pub fn required_ref(ref_name: &str, read: RefRead) -> (result: Result<ObjectId, RefStoreError>)
    ensures
        match (read, result) {
            (Ok(Some((oid, _))), Ok(r)) => r == oid,
            (Ok(None), Err(e)) => e@ == RefStoreErrorView::NotFound(ref_name@),
            (Err(e), Err(r)) => r == e,
            _ => false,
        },
{
    match read {
        Ok(Some((oid, _))) => Ok(oid),
        Ok(None) => Err(RefStoreError::NotFound(ref_name.to_owned())),
        Err(e) => Err(e),
    }
}

// ---- Updating a ref --------------------------------------------------------

/// The condition of a write.
#[derive(Debug, Clone, PartialEq, Eq)]
pub enum PutCondition {
    /// What stands there has this tag.
    IfMatch(String),
    /// Nothing stands there.
    IfNoneMatch,
}

/// Waits for the present value of the ref.
#[derive(Debug)]
pub struct CasStart {
    pub account: String,
    pub ref_name: String,
    pub expected: Option<ObjectId>,
    pub new: ObjectId,
}

/// Waits for `body` to be written under the condition.
#[derive(Debug)]
pub struct CasPut {
    pub account: String,
    pub ref_name: String,
    pub expected: Option<ObjectId>,
    pub body: String,
    pub condition: PutCondition,
}

/// Waits for the value of the ref, whose update has lost.
#[derive(Debug)]
pub struct CasReread {
    pub account: String,
    pub ref_name: String,
    pub expected: Option<ObjectId>,
}

/// Where an update stands once the reply to the write is known.
#[derive(Debug)]
pub enum CasNext {
    Done(Result<(), RefStoreError>),
    /// The condition did not hold.
    Lost(CasReread),
}

/// What a ref holds on S3: the identifier and a newline.
pub open spec fn ref_body(oid: ObjectId) -> Seq<char> {
    hex(oid.bytes@) + "\n"@
}

/// What was read of a ref, by the text of its tag.
pub open spec fn version(current: Option<(ObjectId, Option<String>)>) -> Option<
    (ObjectId, Option<Seq<char>>),
> {
    match current {
        Some((oid, Some(tag))) => Some((oid, Some(tag@))),
        Some((oid, None)) => Some((oid, None)),
        None => None,
    }
}

/// The value in what was read of a ref.
pub open spec fn value_of(current: Option<(ObjectId, Option<Seq<char>>)>) -> Option<ObjectId> {
    match current {
        Some((oid, _)) => Some(oid),
        None => None,
    }
}

/// The condition of a write, by the text of its tag.
pub enum ConditionView {
    IfMatch(Seq<char>),
    IfNoneMatch,
}

impl View for PutCondition {
    type V = ConditionView;

    open spec fn view(&self) -> ConditionView {
        match self {
            PutCondition::IfMatch(tag) => ConditionView::IfMatch(tag@),
            PutCondition::IfNoneMatch => ConditionView::IfNoneMatch,
        }
    }
}

/// The condition under which a ref is updated, given its present value. Where that
/// is not the expected one, or has no tag, it is a conflict.
pub open spec fn update_condition(
    expected: Option<ObjectId>,
    current: Option<(ObjectId, Option<Seq<char>>)>,
) -> Result<ConditionView, RefStoreErrorView> {
    if value_of(current) != expected {
        Err(RefStoreErrorView::Conflict { expected, actual: value_of(current) })
    } else {
        match current {
            Some((_, Some(tag))) => Ok(ConditionView::IfMatch(tag)),
            Some((_, None)) => Err(
                RefStoreErrorView::Conflict { expected, actual: value_of(current) },
            ),
            None => Ok(ConditionView::IfNoneMatch),
        }
    }
}

/// Whether two optional identifiers are the same.
pub fn same_value(a: &Option<ObjectId>, b: &Option<ObjectId>) -> (same: bool)
    ensures
        same == (*a == *b),
{
    broadcast use lemma_same_bytes;

    match (a, b) {
        (Some(x), Some(y)) => *x == *y,
        (None, None) => true,
        _ => false,
    }
}

/// Begins the update of a ref from `expected` to `new`.
pub fn cas_update(
    mode: CasMode,
    account: &str,
    ref_name: &str,
    expected: Option<ObjectId>,
    new: ObjectId,
) -> (result: Result<CasStart, RefStoreError>)
    ensures
        match result {
            Ok(start) => ref_name_error(ref_name@) is None && mode == CasMode::Native
                && start.account@ == account@ && start.ref_name@ == ref_name@ && start.expected
                == expected && start.new == new,
            Err(e) => match ref_name_error(ref_name@) {
                Some(t) => e@ == RefStoreErrorView::InvalidName(t),
                None => mode == CasMode::RedisLock && e@ == RefStoreErrorView::Backend(
                    "RedisLock CAS mode not yet implemented"@,
                ),
            },
        },
{
    match validate_ref_name(ref_name) {
        Err(e) => Err(e),
        Ok(()) => match mode {
            CasMode::Native => Ok(
                CasStart {
                    account: account.to_owned(),
                    ref_name: ref_name.to_owned(),
                    expected,
                    new,
                },
            ),
            CasMode::RedisLock => Err(
                RefStoreError::Backend("RedisLock CAS mode not yet implemented".to_owned()),
            ),
        },
    }
}

impl CasStart {
    /// Goes on with the present value of the ref. Where it is not the expected
    /// one, or has no tag, that is a conflict; else the new value is written
    /// under the condition that nothing has changed since.
    pub fn current(self, read: RefRead) -> (result: Result<CasPut, RefStoreError>)
        ensures
            match (read, result) {
                (Err(e), Err(r)) => r == e,
                (Ok(current), Ok(put)) => {
                    &&& update_condition(self.expected, version(current)) == Ok::<
                        _,
                        RefStoreErrorView,
                    >(put.condition@)
                    &&& put.body@ == ref_body(self.new)
                    &&& put.account == self.account
                    &&& put.ref_name == self.ref_name
                    &&& put.expected == self.expected
                },
                (Ok(current), Err(r)) => update_condition(self.expected, version(current)) == Err::<
                    ConditionView,
                    _,
                >(r@),
                _ => false,
            },
    {
        let (value, etag): (Option<ObjectId>, Option<String>) = match read {
            Err(e) => {
                return Err(e);
            },
            Ok(Some((oid, tag))) => (Some(oid), tag),
            Ok(None) => (None, None),
        };
        if !same_value(&value, &self.expected) {
            return Err(RefStoreError::Conflict { expected: self.expected, actual: value });
        }
        let condition = match (etag, self.expected) {
            (Some(tag), Some(_)) => PutCondition::IfMatch(tag),
            (None, None) => PutCondition::IfNoneMatch,
            _ => {
                return Err(RefStoreError::Conflict { expected: self.expected, actual: value });
            },
        };
        Ok(
            CasPut {
                account: self.account,
                ref_name: self.ref_name,
                expected: self.expected,
                body: cat2(self.new.to_hex().as_str(), "\n"),
                condition,
            },
        )
    }
}

impl CasPut {
    /// Goes on with the reply to the write.
    pub fn replied(self, reply: PutReply) -> (next: CasNext)
        ensures
            match (reply, next) {
                (PutReply::Done, CasNext::Done(Ok(()))) => true,
                (PutReply::Refused(t), CasNext::Lost(lost)) => says_precondition_failed(
                    lowercase(t@),
                ) && lost.account == self.account && lost.ref_name == self.ref_name
                    && lost.expected == self.expected,
                (PutReply::Refused(t), CasNext::Done(Err(e))) => !says_precondition_failed(
                    lowercase(t@),
                ) && e@ == RefStoreErrorView::Backend("S3 put error: "@ + t@),
                (PutReply::Failed(t), CasNext::Done(Err(e))) => e@ == RefStoreErrorView::Backend(
                    "S3 put error: "@ + t@,
                ),
                _ => false,
            },
    {
        match reply {
            PutReply::Done => CasNext::Done(Ok(())),
            PutReply::Refused(t) => if is_precondition_failed(to_lowercase(t.as_str()).as_str()) {
                CasNext::Lost(
                    CasReread {
                        account: self.account,
                        ref_name: self.ref_name,
                        expected: self.expected,
                    },
                )
            } else {
                CasNext::Done(Err(RefStoreError::Backend(cat2("S3 put error: ", t.as_str()))))
            },
            PutReply::Failed(t) => CasNext::Done(
                Err(RefStoreError::Backend(cat2("S3 put error: ", t.as_str()))),
            ),
        }
    }
}

impl CasReread {
    /// Ends with the value that the ref has by now.
    pub fn conflict(self, read: RefRead) -> (e: RefStoreError)
        ensures
            match read {
                Err(r) => e == r,
                Ok(current) => e@ == (RefStoreErrorView::Conflict {
                    expected: self.expected,
                    actual: value_of(version(current)),
                }),
            },
    {
        match read {
            Err(e) => e,
            Ok(Some((oid, _))) => RefStoreError::Conflict {
                expected: self.expected,
                actual: Some(oid),
            },
            Ok(None) => RefStoreError::Conflict { expected: self.expected, actual: None },
        }
    }
}

// ---- Listing refs ----------------------------------------------------------

/// What the keys of the listed refs begin with.
pub open spec fn list_prefix(prefix: Seq<char>, account: Seq<char>, refs: Seq<char>) -> Seq<char> {
    let key = key_of(prefix, account, refs);
    if finishes(key, "/"@) {
        key
    } else {
        key + "/"@
    }
}

/// The name of the ref at a key: a key that ends with a slash is a directory and
/// has none.
pub open spec fn name_at(base: Seq<char>, key: Seq<char>) -> Option<Seq<char>> {
    if finishes(key, "/"@) {
        None
    } else if begins(key, base) {
        Some(key.skip(base.len() as int))
    } else {
        Some(key)
    }
}

/// The names of the refs at the keys, in their order.
pub open spec fn names_at(base: Seq<char>, keys: Seq<Seq<char>>) -> Seq<Seq<char>>
    decreases keys.len(),
{
    if keys.len() == 0 {
        Seq::empty()
    } else {
        match name_at(base, keys.last()) {
            Some(name) => names_at(base, keys.drop_last()).push(name),
            None => names_at(base, keys.drop_last()),
        }
    }
}

/// Waits for a page of the keys that begin with `key_prefix`: the first where
/// there is no token.
#[derive(Debug)]
pub struct RefListing {
    pub key_prefix: String,
    pub base: String,
    pub token: Option<String>,
    pub found: Vec<(String, ObjectId)>,
}

/// Waits for the refs `pending[at..]` to be read, the first of them next.
#[derive(Debug)]
pub struct RefPage {
    listing: RefListing,
    pending: Vec<String>,
    at: usize,
    more: bool,
}

/// Where a listing stands once the refs of a page were read.
#[derive(Debug)]
pub enum ListNext {
    More(RefListing),
    Done(Vec<(String, ObjectId)>),
}

/// Where a listing stands within a page.
pub struct PageView {
    pub listing: RefListing,
    /// The names of the refs that were not read yet.
    pub pending: Seq<Seq<char>>,
    /// Whether another page follows.
    pub more: bool,
}

impl View for RefPage {
    type V = PageView;

    closed spec fn view(&self) -> PageView {
        PageView {
            listing: self.listing,
            pending: views(self.pending@).skip(self.at as int),
            more: self.more,
        }
    }
}

impl RefListing {
    /// Begins the listing of the refs of an account whose names begin with
    /// `refs`.
    pub fn new(prefix: &str, account: &str, refs: &str) -> (listing: RefListing)
        ensures
            listing.key_prefix@ == list_prefix(prefix@, account@, refs@),
            listing.base@ == key_of(prefix@, account@, Seq::empty()),
            listing.token is None,
            listing.found@.len() == 0,
    {
        let key = ref_key(prefix, account, refs);
        let key_prefix = if ends_with(key.as_str(), "/") {
            key
        } else {
            cat2(key.as_str(), "/")
        };
        let empty = String::new();
        assert(empty@ =~= Seq::<char>::empty());
        RefListing {
            key_prefix,
            base: ref_key(prefix, account, empty.as_str()),
            token: None,
            found: Vec::new(),
        }
    }

    /// Goes on with a page: its keys, whether it was cut short, and the token of
    /// the next.
    pub fn page(self, keys: Vec<String>, truncated: Option<bool>, next: Option<String>) -> (page:
        RefPage)
        ensures
            page@.pending == names_at(self.base@, views(keys@)),
            page@.more == (truncated == Some(true)),
            page@.listing == (RefListing { token: next, ..self }),
    {
        let mut pending: Vec<String> = Vec::new();
        let ghost all = views(keys@);
        let mut i: usize = 0;
        assert(all.take(0) =~= Seq::<Seq<char>>::empty());
        assert(views(pending@) =~= Seq::<Seq<char>>::empty());
        while i < keys.len()
            invariant
                all == views(keys@),
                i <= keys@.len(),
                views(pending@) == names_at(self.base@, all.take(i as int)),
            decreases keys.len() - i,
        {
            let ghost before = pending@;
            let key = keys[i].as_str();
            proof {
                assert(all.take(i + 1).drop_last() =~= all.take(i as int));
                assert(all.take(i + 1).last() == key@);
            }
            if !ends_with(key, "/") {
                let name = match strip_prefix(key, self.base.as_str()) {
                    Some(rest) => rest,
                    None => key.to_owned(),
                };
                let ghost text = name@;
                pending.push(name);
                assert(views(pending@) =~= views(before).push(text));
            }
            i = i + 1;
        }
        assert(all.take(i as int) =~= all);
        let more = match truncated {
            Some(t) => t,
            None => false,
        };
        assert(views(pending@).skip(0) =~= views(pending@));
        RefPage { listing: RefListing { token: next, ..self }, pending, at: 0, more }
    }
}

/// The refs that were found, with one more where the read of it gave a value.
pub open spec fn found_with(
    found: Seq<(String, ObjectId)>,
    after: Seq<(String, ObjectId)>,
    name: Seq<char>,
    read: RefRead,
) -> bool {
    match read {
        Ok(Some((oid, _))) => after.len() == found.len() + 1 && after.drop_last() == found
            && after.last().0@ == name && after.last().1 == oid,
        _ => after == found,
    }
}

impl PageView {
    /// `after` is where the listing stands once the next ref was read.
    pub open spec fn goes_on(self, read: RefRead, after: PageView) -> bool {
        &&& after.pending == self.pending.drop_first()
        &&& after.more == self.more
        &&& after.listing.key_prefix == self.listing.key_prefix
        &&& after.listing.base == self.listing.base
        &&& after.listing.token == self.listing.token
        &&& found_with(self.listing.found@, after.listing.found@, self.pending[0], read)
    }
}

impl RefPage {
    #[verifier::type_invariant]
    spec fn well_formed(self) -> bool {
        self.at <= self.pending@.len()
    }

    /// The name of the next ref to read.
    pub fn name(&self) -> (name: Option<String>)
        ensures
            match name {
                Some(n) => self@.pending.len() > 0 && n@ == self@.pending[0],
                None => self@.pending.len() == 0,
            },
    {
        proof {
            use_type_invariant(&*self);
        }
        if self.at < self.pending.len() {
            Some(self.pending[self.at].clone())
        } else {
            None
        }
    }

    /// Goes on with what was read of the next ref. One that cannot be read, or
    /// is gone, is passed over.
    pub fn read(self, read: RefRead) -> (page: RefPage)
        requires
            self@.pending.len() > 0,
        ensures
            self@.goes_on(read, page@),
    {
        proof {
            use_type_invariant(&self);
        }
        let ghost start = self@;
        let RefPage { listing, pending, at, more } = self;
        assert(pending@.len() == pending.len());
        let RefListing { key_prefix, base, token, found } = listing;
        let mut found = found;
        assert(start.pending.drop_first() =~= views(pending@).skip(at + 1));
        assert(start.pending[0] == pending@[at as int]@);
        if let Ok(Some((oid, _))) = read {
            let ghost before = found@;
            found.push((pending[at].clone(), oid));
            assert(found@.drop_last() =~= before);
        }
        RefPage {
            listing: RefListing { key_prefix, base, token, found },
            pending,
            at: at + 1,
            more,
        }
    }

    /// Goes on once no ref of the page is pending.
    pub fn finish(self) -> (next: ListNext)
        requires
            self@.pending.len() == 0,
        ensures
            match next {
                ListNext::More(listing) => self@.more && listing == self@.listing,
                ListNext::Done(found) => !self@.more && found == self@.listing.found,
            },
    {
        if self.more {
            ListNext::More(self.listing)
        } else {
            ListNext::Done(self.listing.found)
        }
    }
}

// ---- Laws ------------------------------------------------------------------

/// What an update writes is read back as the value of the ref.
pub proof fn law_ref_round_trip(oid: ObjectId)
    ensures
        ref_value(ref_body(oid)) == Ok::<ObjectId, RefStoreErrorView>(oid),
        valid_utf8(encode_utf8(ref_body(oid))),
        decode_utf8(encode_utf8(ref_body(oid))) == ref_body(oid),
{
    reveal_strlit("\n");
    let digits = hex(oid.bytes@);
    let body = ref_body(oid);
    let drop = |c: char| white_space(c);
    assert(digits.len() == 40);
    assert(!white_space(digits[0]));
    assert(!white_space(digits[39]));
    assert(body.first() == digits[0]);
    assert(crate::text::trim_start_by(body, drop) == body);
    assert(body.last() == '\n');
    assert(body.drop_last() =~= digits);
    reveal_with_fuel(crate::text::trim_end_by, 3);
    assert(crate::text::trim_end_by(body, drop) == digits);
    assert(trimmed(body) == digits);
    law_hex_round_trip(oid);
    vstd::utf8::encode_utf8_valid_utf8(body);
    vstd::utf8::encode_utf8_decode_utf8(body);
}

/// What stands at the key of a ref.
pub struct StoredRef {
    pub bytes: Seq<u8>,
    /// The tag of this version, where the store gives one.
    pub tag: Option<Seq<char>>,
}

/// What was read of a ref, given what stands at its key.
pub open spec fn stored_value(stored: Option<StoredRef>) -> Result<
    Option<(ObjectId, Option<Seq<char>>)>,
    RefStoreErrorView,
> {
    match stored {
        None => Ok(None),
        Some(v) => match ref_value(ref_text(v.bytes)) {
            Ok(oid) => Ok(Some((oid, v.tag))),
            Err(e) => Err(e),
        },
    }
}

/// The answer to a read of a ref, given what stands at its key.
pub open spec fn read_answer(name: Seq<char>, stored: Option<StoredRef>) -> Result<
    ObjectId,
    RefStoreErrorView,
> {
    match stored_value(stored) {
        Ok(Some((oid, _))) => Ok(oid),
        Ok(None) => Err(RefStoreErrorView::NotFound(name)),
        Err(e) => Err(e),
    }
}

/// The condition of a write holds.
pub open spec fn holds(condition: ConditionView, stored: Option<StoredRef>) -> bool {
    match condition {
        ConditionView::IfMatch(tag) => stored matches Some(v) && v.tag == Some(tag),
        ConditionView::IfNoneMatch => stored is None,
    }
}

/// `result` is the outcome of an update, and `after` is what it leaves at the key.
/// The ref was read as it stood at first; another writer may have come until the
/// write, which finds `present`. A write whose condition holds is done; one whose
/// condition does not hold changes nothing, and the ref is read once more.
pub open spec fn update_ran(
    first: Option<StoredRef>,
    present: Option<StoredRef>,
    after: Option<StoredRef>,
    expected: Option<ObjectId>,
    new: ObjectId,
    result: Result<(), RefStoreErrorView>,
) -> bool {
    match stored_value(first) {
        Err(e) => result == Err::<(), _>(e) && after == first,
        Ok(current) => match update_condition(expected, current) {
            Err(e) => result == Err::<(), _>(e) && after == first,
            Ok(condition) => if holds(condition, present) {
                &&& result == Ok::<(), RefStoreErrorView>(())
                &&& after matches Some(v) && v.bytes == encode_utf8(ref_body(new))
            } else {
                &&& after == present
                &&& result == Err::<(), _>(
                    match stored_value(present) {
                        Ok(now) => RefStoreErrorView::Conflict { expected, actual: value_of(now) },
                        Err(e) => e,
                    },
                )
            },
        },
    }
}

/// A read after an update gives the new value where the update was accepted, and
/// where it was refused for a conflict the value that the conflict reports: a
/// refused update changes nothing.
pub proof fn law_read_after_update(
    name: Seq<char>,
    first: Option<StoredRef>,
    present: Option<StoredRef>,
    after: Option<StoredRef>,
    expected: Option<ObjectId>,
    new: ObjectId,
    result: Result<(), RefStoreErrorView>,
)
    requires
        update_ran(first, present, after, expected, new, result),
    ensures
        match result {
            Ok(()) => read_answer(name, after) == Ok::<_, RefStoreErrorView>(new),
            Err(RefStoreErrorView::Conflict { actual: Some(a), .. }) => read_answer(name, after)
                == Ok::<_, RefStoreErrorView>(a),
            Err(RefStoreErrorView::Conflict { actual: None, .. }) => read_answer(name, after)
                == Err::<ObjectId, _>(RefStoreErrorView::NotFound(name)),
            Err(_) => after == first || after == present,
        },
{
    law_ref_round_trip(new);
}

/// Without another writer an update is accepted if and only if the ref has the
/// expected value, and its version a tag; else it is a conflict and nothing changes.
pub proof fn law_update_alone(
    stored: Option<StoredRef>,
    after: Option<StoredRef>,
    expected: Option<ObjectId>,
    new: ObjectId,
    result: Result<(), RefStoreErrorView>,
)
    requires
        update_ran(stored, stored, after, expected, new, result),
        stored_value(stored) is Ok,
        stored matches Some(v) ==> v.tag is Some,
    ensures
        ({
            let value = value_of(stored_value(stored)->Ok_0);
            &&& value == expected ==> result == Ok::<(), RefStoreErrorView>(())
            &&& value != expected ==> after == stored && result == Err::<(), _>(
                RefStoreErrorView::Conflict { expected, actual: value },
            )
        }),
{
}

proof fn lemma_first_slash(a: Seq<char>, b: Seq<char>, x: Seq<char>, y: Seq<char>)
    requires
        !a.contains('/'),
        !b.contains('/'),
        a.push('/') + x == b.push('/') + y,
    ensures
        a == b,
        x == y,
{
    let whole = a.push('/') + x;
    if a.len() < b.len() {
        assert(whole[a.len() as int] == '/');
        assert(b[a.len() as int] == '/');
    } else if b.len() < a.len() {
        assert(whole[b.len() as int] == '/');
        assert(a[b.len() as int] == '/');
    }
    assert(a =~= whole.take(a.len() as int));
    assert(b =~= whole.take(b.len() as int));
    assert(x =~= whole.skip(1 + a.len() as int));
    assert(y =~= whole.skip(1 + b.len() as int));
}

/// Accounts are apart: where the names of two accounts hold no slash, no key
/// belongs to both, and within an account a key belongs to one thing.
pub proof fn law_accounts_apart(
    prefix: Seq<char>,
    a: Seq<char>,
    b: Seq<char>,
    x: Seq<char>,
    y: Seq<char>,
)
    requires
        !a.contains('/'),
        !b.contains('/'),
        key_of(prefix, a, x) == key_of(prefix, b, y),
    ensures
        a == b,
        x == y,
{
    reveal_strlit("/");
    let p = without_end_slashes(prefix);
    let front = if p.len() == 0 {
        Seq::<char>::empty()
    } else {
        p + "/"@
    };
    let n = front.len() as int;
    assert(key_of(prefix, a, x) =~= front + (a.push('/') + x));
    assert(key_of(prefix, b, y) =~= front + (b.push('/') + y));
    assert(a.push('/') + x =~= (front + (a.push('/') + x)).skip(n));
    assert(b.push('/') + y =~= (front + (b.push('/') + y)).skip(n));
    lemma_first_slash(a, b, x, y);
}

/// Two objects never share a key.
pub proof fn law_objects_apart(prefix: Seq<char>, account: Seq<char>, a: ObjectId, b: ObjectId)
    requires
        !account.contains('/'),
        key_of(prefix, account, object_place(a)) == key_of(prefix, account, object_place(b)),
    ensures
        a == b,
{
    law_accounts_apart(prefix, account, account, object_place(a), object_place(b));
    reveal_strlit("objects/");
    reveal_strlit("/");
    let x = hex(a.bytes@);
    let y = hex(b.bytes@);
    assert(x.take(2) =~= object_place(a).subrange(8, 10));
    assert(y.take(2) =~= object_place(b).subrange(8, 10));
    assert(x.skip(2) =~= object_place(a).skip(11));
    assert(y.skip(2) =~= object_place(b).skip(11));
    assert(x =~= x.take(2) + x.skip(2));
    assert(y =~= y.take(2) + y.skip(2));
    law_hex_round_trip(a);
    law_hex_round_trip(b);
    lemma_same_bytes(a, b);
}

/// The names of the listed refs lead back to their keys.
pub proof fn law_listed_name(prefix: Seq<char>, account: Seq<char>, name: Seq<char>)
    requires
        !finishes(key_of(prefix, account, name), "/"@),
    ensures
        name_at(key_of(prefix, account, Seq::empty()), key_of(prefix, account, name)) == Some(name),
{
    let base = key_of(prefix, account, Seq::empty());
    let key = key_of(prefix, account, name);
    assert(base + name =~= key);
    assert(key.subrange(0, base.len() as int) =~= base);
    assert(key.skip(base.len() as int) =~= name);
}

// ---- Laws of a listing -----------------------------------------------------

/// The named refs that have a value, each with it, in the order of the names.
pub open spec fn listed(names: Seq<Seq<char>>, refs: Map<Seq<char>, ObjectId>) -> Seq<
    (Seq<char>, ObjectId),
>
    decreases names.len(),
{
    if names.len() == 0 {
        Seq::empty()
    } else if refs.contains_key(names.last()) {
        listed(names.drop_last(), refs).push((names.last(), refs[names.last()]))
    } else {
        listed(names.drop_last(), refs)
    }
}

/// What was read of a ref is what the refs hold: one that cannot be read holds
/// nothing.
pub open spec fn read_of(refs: Map<Seq<char>, ObjectId>, name: Seq<char>, read: RefRead) -> bool {
    match read {
        Ok(Some((oid, _))) => refs.contains_key(name) && refs[name] == oid,
        _ => !refs.contains_key(name),
    }
}

/// One page of a listing: its keys, where the listing stood with it from first to
/// last, and what was read in between.
pub struct PageRun {
    pub keys: Seq<Seq<char>>,
    pub points: Seq<PageView>,
    pub reads: Seq<RefRead>,
}

impl PageRun {
    pub open spec fn found_before(self) -> Seq<(Seq<char>, ObjectId)> {
        entries(self.points.first().listing.found@)
    }

    pub open spec fn found_after(self) -> Seq<(Seq<char>, ObjectId)> {
        entries(self.points.last().listing.found@)
    }

    /// The page was gone through.
    pub open spec fn ran(self, base: Seq<char>, refs: Map<Seq<char>, ObjectId>) -> bool {
        &&& self.points.len() == self.reads.len() + 1
        &&& self.points.first().pending == names_at(base, self.keys)
        &&& self.points.last().pending.len() == 0
        &&& forall|i: int|
            0 <= i < self.reads.len() ==> {
                &&& self.points[i].pending.len() > 0
                &&& read_of(refs, self.points[i].pending[0], #[trigger] self.reads[i])
                &&& self.points[i].goes_on(self.reads[i], self.points[i + 1])
            }
    }
}

/// The pages were gone through, the first with nothing found yet, and each other
/// with what was found until it.
pub open spec fn listing_ran(
    runs: Seq<PageRun>,
    base: Seq<char>,
    refs: Map<Seq<char>, ObjectId>,
) -> bool {
    &&& runs.len() > 0
    &&& runs.first().found_before().len() == 0
    &&& forall|i: int| 0 <= i < runs.len() ==> (#[trigger] runs[i]).ran(base, refs)
    &&& forall|i: int|
        0 < i < runs.len() ==> (#[trigger] runs[i]).found_before() == runs[i - 1].found_after()
}

/// The keys of all pages.
pub open spec fn all_keys(runs: Seq<PageRun>) -> Seq<Seq<char>>
    decreases runs.len(),
{
    if runs.len() == 0 {
        Seq::empty()
    } else {
        all_keys(runs.drop_last()) + runs.last().keys
    }
}

proof fn lemma_names_of_two(base: Seq<char>, a: Seq<Seq<char>>, b: Seq<Seq<char>>)
    ensures
        names_at(base, a + b) == names_at(base, a) + names_at(base, b),
    decreases b.len(),
{
    if b.len() == 0 {
        assert(a + b =~= a);
    } else {
        assert((a + b).drop_last() =~= a + b.drop_last());
        lemma_names_of_two(base, a, b.drop_last());
    }
    assert(names_at(base, a + b) =~= names_at(base, a) + names_at(base, b));
}

proof fn lemma_listed_of_two(
    a: Seq<Seq<char>>,
    b: Seq<Seq<char>>,
    refs: Map<Seq<char>, ObjectId>,
)
    ensures
        listed(a + b, refs) == listed(a, refs) + listed(b, refs),
    decreases b.len(),
{
    if b.len() == 0 {
        assert(a + b =~= a);
    } else {
        assert((a + b).drop_last() =~= a + b.drop_last());
        lemma_listed_of_two(a, b.drop_last(), refs);
    }
    assert(listed(a + b, refs) =~= listed(a, refs) + listed(b, refs));
}

proof fn lemma_page(run: PageRun, base: Seq<char>, refs: Map<Seq<char>, ObjectId>, n: int)
    requires
        run.ran(base, refs),
        0 <= n <= run.reads.len(),
    ensures
        entries(run.points[n].listing.found@) + listed(run.points[n].pending, refs)
            == run.found_after(),
    decreases run.reads.len() - n,
{
    let here = run.points[n];
    if n == run.reads.len() {
        assert(entries(here.listing.found@) + listed(here.pending, refs) =~= entries(
            here.listing.found@,
        ));
    } else {
        let next = run.points[n + 1];
        let read = run.reads[n];
        let name = here.pending[0];
        lemma_page(run, base, refs, n + 1);
        assert(here.goes_on(read, next));
        assert(here.pending =~= seq![name] + next.pending);
        lemma_listed_of_two(seq![name], next.pending, refs);
        assert(seq![name].drop_last() =~= Seq::<Seq<char>>::empty());
        let alone = listed(seq![name], refs);
        assert(listed(Seq::empty(), refs) =~= Seq::<(Seq<char>, ObjectId)>::empty());
        assert(seq![name].last() == name);
        let found = next.listing.found@;
        if refs.contains_key(name) {
            assert(alone =~= seq![(name, refs[name])]);
            assert(found =~= here.listing.found@.push(found.last()));
        } else {
            assert(alone =~= Seq::<(Seq<char>, ObjectId)>::empty());
            assert(found == here.listing.found@);
        }
        assert(entries(found) =~= entries(here.listing.found@) + alone);
        assert(entries(here.listing.found@) + listed(here.pending, refs) =~= entries(
            next.listing.found@,
        ) + listed(next.pending, refs));
    }
}

/// A listing finds, over all its pages, exactly the refs at their keys that have a
/// value, each with it and in the order of the keys. So it does not matter how the
/// keys are cut into pages.
pub proof fn law_listing(
    runs: Seq<PageRun>,
    base: Seq<char>,
    refs: Map<Seq<char>, ObjectId>,
)
    requires
        listing_ran(runs, base, refs),
    ensures
        runs.last().found_after() == listed(names_at(base, all_keys(runs)), refs),
    decreases runs.len(),
{
    let last = runs.last();
    let front = runs.drop_last();
    assert(last == runs[runs.len() - 1]);
    lemma_page(last, base, refs, 0);
    lemma_names_of_two(base, all_keys(front), last.keys);
    lemma_listed_of_two(names_at(base, all_keys(front)), names_at(base, last.keys), refs);
    if front.len() > 0 {
        assert forall|i: int| 0 <= i < front.len() implies (#[trigger] front[i]).ran(
            base,
            refs,
        ) by {
            assert(front[i] == runs[i]);
        }
        assert forall|i: int| 0 < i < front.len() implies (#[trigger] front[i]).found_before()
            == front[i - 1].found_after() by {
            assert(front[i] == runs[i]);
        }
        assert(front.first() == runs.first());
        law_listing(front, base, refs);
        assert(front.last() == runs[runs.len() - 2]);
    } else {
        assert(all_keys(front) =~= Seq::<Seq<char>>::empty());
        assert(listed(names_at(base, all_keys(front)), refs) =~= Seq::<
            (Seq<char>, ObjectId),
        >::empty());
        assert(runs.first() == last);
    }
    assert(last.found_after() =~= listed(names_at(base, all_keys(runs)), refs));
}

/// The names to be listed may be given with a slash at the end or without: the keys
/// are the same.
pub proof fn law_list_prefix_forms(prefix: Seq<char>, account: Seq<char>, refs: Seq<char>)
    requires
        refs.len() > 0,
        refs.last() != '/',
    ensures
        list_prefix(prefix, account, refs) == list_prefix(prefix, account, refs + "/"@),
        list_prefix(prefix, account, refs) == key_of(prefix, account, refs + "/"@),
{
    reveal_strlit("/");
    let key = key_of(prefix, account, refs);
    let other = key_of(prefix, account, refs + "/"@);
    assert(key.last() == refs.last());
    assert(other.last() == '/');
    assert(!finishes(key, "/"@)) by {
        if finishes(key, "/"@) {
            assert(key.subrange(key.len() - 1, key.len() as int)[0] == '/');
        }
    }
    assert(finishes(other, "/"@)) by {
        assert(other.subrange(other.len() - 1, other.len() as int) =~= "/"@);
    }
    assert(key + "/"@ =~= other);
}

/// The key of a ref is among those that are asked for if and only if its name lies
/// below the names to be listed.
pub proof fn law_listed_below(
    prefix: Seq<char>,
    account: Seq<char>,
    refs: Seq<char>,
    name: Seq<char>,
)
    requires
        refs.len() > 0,
        refs.last() != '/',
    ensures
        begins(key_of(prefix, account, name), list_prefix(prefix, account, refs)) <==> begins(
            name,
            refs + "/"@,
        ),
{
    reveal_strlit("/");
    law_list_prefix_forms(prefix, account, refs);
    let base = key_of(prefix, account, Seq::empty());
    let key = key_of(prefix, account, name);
    let front = key_of(prefix, account, refs + "/"@);
    let n = base.len() as int;
    let m = (refs + "/"@).len() as int;
    assert(key =~= base + name);
    assert(front =~= base + (refs + "/"@));
    if begins(name, refs + "/"@) {
        assert(name.subrange(0, m) == refs + "/"@);
        assert(key.subrange(0, n + m) =~= base + name.subrange(0, m));
    }
    if begins(key, front) {
        assert(key.subrange(0, n + m) == front);
        assert(name.subrange(0, m) =~= key.subrange(0, n + m).skip(n));
        assert(front.skip(n) =~= refs + "/"@);
    }
}

proof fn lemma_listed_has(
    names: Seq<Seq<char>>,
    refs: Map<Seq<char>, ObjectId>,
    name: Seq<char>,
    oid: ObjectId,
)
    ensures
        listed(names, refs).contains((name, oid)) <==> names.contains(name) && refs.contains_key(
            name,
        ) && refs[name] == oid,
    decreases names.len(),
{
    if names.len() > 0 {
        let front = names.drop_last();
        let last = names.last();
        lemma_listed_has(front, refs, name, oid);
        assert(names =~= front.push(last));
        lemma_push_contains(front, last, name);
        if refs.contains_key(last) {
            lemma_push_contains(listed(front, refs), (last, refs[last]), (name, oid));
        }
    }
}

proof fn lemma_names_have(base: Seq<char>, keys: Seq<Seq<char>>, name: Seq<char>)
    ensures
        names_at(base, keys).contains(name) <==> exists|key: Seq<char>| #[trigger]
            keys.contains(key) && name_at(base, key) == Some(name),
    decreases keys.len(),
{
    if keys.len() > 0 {
        let front = keys.drop_last();
        let last = keys.last();
        lemma_names_have(base, front, name);
        assert(keys =~= front.push(last));
        assert forall|key: Seq<char>| #[trigger] keys.contains(key) <==> front.contains(key) || key
            == last by {
            lemma_push_contains(front, last, key);
        }
        if let Some(n) = name_at(base, last) {
            lemma_push_contains(names_at(base, front), n, name);
        }
        assert(keys.contains(last));
        if exists|key: Seq<char>| #[trigger]
            front.contains(key) && name_at(base, key) == Some(name) {
            let key = choose|key: Seq<char>| #[trigger]
                front.contains(key) && name_at(base, key) == Some(name);
            assert(keys.contains(key));
        }
    }
}

/// A listing of the refs below `dir` finds exactly those of the account that lie
/// there, each with its value. The pages hold the keys of the account that begin
/// with the prefix that was asked for.
pub proof fn law_listing_finds(
    runs: Seq<PageRun>,
    prefix: Seq<char>,
    account: Seq<char>,
    dir: Seq<char>,
    refs: Map<Seq<char>, ObjectId>,
    name: Seq<char>,
    oid: ObjectId,
)
    requires
        dir.len() > 0,
        dir.last() != '/',
        listing_ran(runs, key_of(prefix, account, Seq::empty()), refs),
        forall|key: Seq<char>| #[trigger]
            all_keys(runs).contains(key) ==> begins(key, list_prefix(prefix, account, dir)),
        forall|n: Seq<char>| #[trigger]
            refs.contains_key(n) && begins(
                key_of(prefix, account, n),
                list_prefix(prefix, account, dir),
            ) ==> all_keys(runs).contains(key_of(prefix, account, n)),
        forall|n: Seq<char>| #[trigger] refs.contains_key(n) ==> n.len() > 0 && n.last() != '/',
    ensures
        runs.last().found_after().contains((name, oid)) <==> refs.contains_key(name) && refs[name]
            == oid && begins(name, dir + "/"@),
{
    reveal_strlit("/");
    let base = key_of(prefix, account, Seq::empty());
    let keys = all_keys(runs);
    let key = key_of(prefix, account, name);
    law_listing(runs, base, refs);
    lemma_listed_has(names_at(base, keys), refs, name, oid);
    lemma_names_have(base, keys, name);
    law_listed_below(prefix, account, dir, name);
    assert(key =~= base + name);
    if refs.contains_key(name) {
        assert(key.last() == name.last());
        assert(!finishes(key, "/"@)) by {
            if finishes(key, "/"@) {
                assert(key.subrange(key.len() - 1, key.len() as int)[0] == '/');
            }
        }
        law_listed_name(prefix, account, name);
    }
    if names_at(base, keys).contains(name) {
        let k = choose|k: Seq<char>| #[trigger] keys.contains(k) && name_at(base, k) == Some(name);
        let front = list_prefix(prefix, account, dir);
        law_list_prefix_forms(prefix, account, dir);
        assert(front =~= base + (dir + "/"@));
        assert(k.subrange(0, front.len() as int) == front);
        assert(k.subrange(0, base.len() as int) =~= front.subrange(0, base.len() as int));
        assert(front.subrange(0, base.len() as int) =~= base);
        assert(k =~= base + k.skip(base.len() as int));
        assert(k == key);
    }
}

} // verus!
