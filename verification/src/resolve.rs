//! From what a caller names to a commit: identifiers, abbreviated identifiers
//! and refs.

use crate::error::{hex_error_text, GitError, GitErrorView, ObjectStoreError};
use crate::object::{meta_answer, CommitMeta, CommitMetaView};
use crate::oid::{hex, hex_value, lemma_same_bytes, unhex, ObjectId};
use crate::order::lemma_push_contains;
use crate::text::{
    begins, begins_with, cat2, cat4, join_texts, join_with, lowered, to_ascii_lowercase, views,
};
use crate::util::{ref_name_error, validate_ref_name};
use vstd::hash_map::StringHashMap;
use vstd::prelude::*;
use vstd::utf8::encode_utf8;

verus! {

// ---- What a target names ---------------------------------------------------

/// What a target names.
#[derive(Debug, Clone, PartialEq, Eq)]
pub enum RefTarget {
    /// The commit itself.
    Oid(ObjectId),
    /// The first digits of a commit's identifier.
    Abbreviated(String),
    /// A ref, by its full name.
    Name(String),
}

pub enum RefTargetView {
    Oid(ObjectId),
    Abbreviated(Seq<char>),
    Name(Seq<char>),
}

impl View for RefTarget {
    type V = RefTargetView;

    open spec fn view(&self) -> RefTargetView {
        match self {
            RefTarget::Oid(oid) => RefTargetView::Oid(*oid),
            RefTarget::Abbreviated(t) => RefTargetView::Abbreviated(t@),
            RefTarget::Name(t) => RefTargetView::Name(t@),
        }
    }
}

/// Every byte is a hexadecimal digit.
pub open spec fn all_hex(bytes: Seq<u8>) -> bool {
    forall|i: int| 0 <= i < bytes.len() ==> hex_value(#[trigger] bytes[i]) is Some
}

/// The full name of a ref: a name that does not begin with `refs/` is that of a
/// branch.
pub open spec fn full_ref_name(target: Seq<char>) -> Seq<char> {
    if begins(target, "refs/"@) {
        target
    } else {
        "refs/heads/"@ + target
    }
}

/// What a target names: forty hexadecimal digits are an identifier, four to
/// thirty-nine an abbreviated one, and anything else a ref, whose name must be
/// valid.
pub open spec fn target_of(target: Seq<char>, result: Result<RefTargetView, GitErrorView>) -> bool {
    let bytes = encode_utf8(target);
    let name = full_ref_name(target);
    if all_hex(bytes) && bytes.len() == 40 {
        result matches Ok(RefTargetView::Oid(oid)) && oid.bytes@ == unhex(bytes)
    } else if all_hex(bytes) && 4 <= bytes.len() < 40 {
        result == Ok::<_, GitErrorView>(RefTargetView::Abbreviated(target))
    } else if ref_name_error(name) is Some {
        result == Err::<RefTargetView, _>(
            GitErrorView::Other("invalid ref name: "@ + ref_name_error(name)->0),
        )
    } else {
        result == Ok::<_, GitErrorView>(RefTargetView::Name(name))
    }
}

fn is_all_hex(bytes: &[u8]) -> (yes: bool)
    ensures
        yes == all_hex(bytes@),
{
    let mut i: usize = 0;
    while i < bytes.len()
        invariant
            i <= bytes@.len(),
            forall|j: int| 0 <= j < i ==> hex_value(#[trigger] bytes@[j]) is Some,
        decreases bytes.len() - i,
    {
        let b = bytes[i];
        if !((0x30 <= b && b <= 0x39) || (0x61 <= b && b <= 0x66) || (0x41 <= b && b <= 0x46)) {
            assert(hex_value(bytes@[i as int]) is None);
            return false;
        }
        i = i + 1;
    }
    true
}

/// Decides what `target_ref` names. A name of forty hexadecimal digits is always
/// an identifier; to name such a branch, give its full name.
pub fn resolve_ref(target_ref: &str) -> (result: Result<RefTarget, GitError>)
    ensures
        target_of(
            target_ref@,
            match result {
                Ok(t) => Ok(t@),
                Err(e) => Err(e@),
            },
        ),
{
    let bytes = target_ref.as_bytes();
    if is_all_hex(bytes) {
        if bytes.len() == 40 {
            return match ObjectId::from_hex(bytes) {
                Ok(oid) => Ok(RefTarget::Oid(oid)),
                Err(e) => Err(
                    GitError::Other(
                        cat4("invalid oid ", target_ref, ": ", hex_error_text(e).as_str()),
                    ),
                ),
            };
        }
        if bytes.len() >= 4 && bytes.len() < 40 {
            return Ok(RefTarget::Abbreviated(target_ref.to_owned()));
        }
    }
    let name = if begins_with(target_ref, "refs/") {
        target_ref.to_owned()
    } else {
        cat2("refs/heads/", target_ref)
    };
    match validate_ref_name(name.as_str()) {
        Ok(()) => Ok(RefTarget::Name(name)),
        Err(e) => Err(GitError::Other(e.message())),
    }
}

// ---- Search for an abbreviated identifier ----------------------------------

/// The search ends with an error once it has visited more commits than this.
pub const MAX_OID_RESOLVE_VISITED: usize = 50000;

/// An ambiguous abbreviation is reported with at most this many candidates.
pub const MAX_REPORTED_CANDIDATES: usize = 5;

/// The identifiers that were visited, in their order, each once.
struct Visited {
    order: Vec<ObjectId>,
    by_hex: StringHashMap<()>,
}

proof fn lemma_hex_injective(a: ObjectId, b: ObjectId)
    requires
        hex(a.bytes@) == hex(b.bytes@),
    ensures
        a == b,
{
    crate::oid::law_hex_round_trip(a);
    crate::oid::law_hex_round_trip(b);
    lemma_same_bytes(a, b);
}

impl Visited {
    spec fn well_formed(self) -> bool {
        forall|oid: ObjectId|
            self.by_hex@.contains_key(hex(oid.bytes@)) <==> #[trigger] self.order@.contains(oid)
    }

    fn new() -> (visited: Visited)
        ensures
            visited.well_formed(),
            visited.order@ == Seq::<ObjectId>::empty(),
    {
        Visited { order: Vec::new(), by_hex: StringHashMap::new() }
    }

    fn contains(&self, oid: &ObjectId) -> (yes: bool)
        requires
            self.well_formed(),
        ensures
            yes == self.order@.contains(*oid),
    {
        self.by_hex.contains_key(oid.to_hex().as_str())
    }

    fn insert(&mut self, oid: ObjectId)
        requires
            old(self).well_formed(),
        ensures
            final(self).well_formed(),
            final(self).order@ == old(self).order@.push(oid),
    {
        let ghost before = self.order@;
        let ghost keys = self.by_hex@;
        self.by_hex.insert(oid.to_hex(), ());
        self.order.push(oid);
        proof {
            assert forall|o: ObjectId|
                self.by_hex@.contains_key(hex(o.bytes@)) <==> #[trigger] self.order@.contains(
                    o,
                ) by {
                if hex(o.bytes@) == hex(oid.bytes@) {
                    lemma_hex_injective(o, oid);
                    assert(self.order@[before.len() as int] == o);
                } else {
                    assert(o != oid);
                    assert(keys.contains_key(hex(o.bytes@)) <==> before.contains(o));
                    if before.contains(o) {
                        let i = choose|i: int| 0 <= i < before.len() && before[i] == o;
                        assert(self.order@[i] == o);
                    }
                    if self.order@.contains(o) {
                        let i = choose|i: int|
                            0 <= i < self.order@.len() && self.order@[i] == o;
                        assert(before[i] == o);
                    }
                }
            }
        }
    }
}

/// The search for the commits whose identifier begins with given digits. It
/// walks from the tips of the refs to the parents.
pub struct OidSearch {
    prefix: String,
    digits: String,
    queue: Vec<ObjectId>,
    visited: Visited,
    matches: Vec<ObjectId>,
}

/// The state of a search: the digits, the commits still to look at, those that
/// were visited, and those that matched.
#[verifier::ext_equal]
pub struct SearchView {
    pub prefix: Seq<char>,
    pub queue: Seq<ObjectId>,
    pub visited: Seq<ObjectId>,
    pub matches: Seq<ObjectId>,
}

/// A search that waits for a commit.
pub struct OidLoad {
    pub oid: ObjectId,
    pub search: OidSearch,
}

/// What a search needs next.
pub enum SearchStep {
    /// The commit with this identifier.
    Load(OidLoad),
    /// Nothing: the search is over.
    Done(Result<ObjectId, GitError>),
}

/// The message of a search that has visited too many commits.
pub const SEARCH_ABORTED: &'static str =
    "OID prefix resolution aborted: scanned over 50000 commits without converging";

/// What a search needs next.
pub enum SearchStepView {
    Load { oid: ObjectId, search: SearchView },
    Done(Result<ObjectId, GitErrorView>),
}

/// The identifier begins with the digits, whose case does not count.
pub open spec fn oid_matches(oid: ObjectId, prefix: Seq<char>) -> bool {
    begins(hex(oid.bytes@), lowered(prefix))
}

/// What is left of the queue once the commits at its end that were visited have
/// been dropped.
pub open spec fn unvisited_end(queue: Seq<ObjectId>, visited: Seq<ObjectId>) -> Seq<ObjectId>
    decreases queue.len(),
{
    if queue.len() > 0 && visited.contains(queue.last()) {
        unvisited_end(queue.drop_last(), visited)
    } else {
        queue
    }
}

/// The identifiers in hexadecimal.
pub open spec fn hexes(oids: Seq<ObjectId>) -> Seq<Seq<char>> {
    oids.map_values(|oid: ObjectId| hex(oid.bytes@))
}

/// The first of the identifiers, as many as are reported.
pub open spec fn reported(oids: Seq<ObjectId>) -> Seq<ObjectId> {
    if oids.len() <= 5 {
        oids
    } else {
        oids.take(5)
    }
}

/// The answer to an abbreviation, given the commits that match it.
pub open spec fn search_answer(prefix: Seq<char>, matches: Seq<ObjectId>) -> Result<
    ObjectId,
    GitErrorView,
> {
    if matches.len() == 0 {
        Err(GitErrorView::OidPrefixNotFound { prefix })
    } else if matches.len() == 1 {
        Ok(matches[0])
    } else {
        Err(
            GitErrorView::AmbiguousOid {
                prefix,
                count: matches.len(),
                candidates: join_with(hexes(reported(matches)), ", "@),
            },
        )
    }
}

impl SearchView {
    /// The search from the tips of the refs.
    pub open spec fn started(prefix: Seq<char>, tips: Seq<ObjectId>) -> SearchView {
        SearchView { prefix, queue: tips, visited: Seq::empty(), matches: Seq::empty() }
    }

    /// What the search needs next.
    pub open spec fn next(self) -> SearchStepView {
        let queue = unvisited_end(self.queue, self.visited);
        if queue.len() == 0 || self.matches.len() > 5 {
            SearchStepView::Done(search_answer(self.prefix, self.matches))
        } else {
            let oid = queue.last();
            let visited = self.visited.push(oid);
            if visited.len() > 50000 {
                SearchStepView::Done(Err(GitErrorView::Other(SEARCH_ABORTED@)))
            } else {
                SearchStepView::Load {
                    oid,
                    search: SearchView { queue: queue.drop_last(), visited, ..self },
                }
            }
        }
    }

    /// The search once the object `oid` that it waited for was read, or could not
    /// be read. Only a commit matches; an object that is missing or is no commit
    /// has no parents either.
    pub open spec fn loaded(self, oid: ObjectId, meta: Result<CommitMetaView, GitErrorView>) -> Result<
        SearchView,
        GitErrorView,
    > {
        match meta {
            Ok(m) => Ok(
                SearchView {
                    queue: self.queue + m.parents.filter(
                        |p: ObjectId| !self.visited.contains(p),
                    ),
                    matches: if oid_matches(oid, self.prefix) {
                        self.matches.push(oid)
                    } else {
                        self.matches
                    },
                    ..self
                },
            ),
            Err(GitErrorView::ObjectStore(crate::error::ObjectStoreErrorView::NotFound(_))) => Ok(
                self,
            ),
            Err(GitErrorView::Other(_)) => Ok(self),
            Err(e) => Err(e),
        }
    }
}

impl View for OidSearch {
    type V = SearchView;

    closed spec fn view(&self) -> SearchView {
        SearchView {
            prefix: self.prefix@,
            queue: self.queue@,
            visited: self.visited.order@,
            matches: self.matches@,
        }
    }
}

impl View for SearchStep {
    type V = SearchStepView;

    open spec fn view(&self) -> SearchStepView {
        match self {
            SearchStep::Load(load) => SearchStepView::Load { oid: load.oid, search: load.search@ },
            SearchStep::Done(Ok(oid)) => SearchStepView::Done(Ok(*oid)),
            SearchStep::Done(Err(e)) => SearchStepView::Done(Err(e@)),
        }
    }
}

/// The answer to an abbreviation, given the commits that match it.
fn answer_search(prefix: String, matches: &Vec<ObjectId>) -> (result: Result<ObjectId, GitError>)
    ensures
        match result {
            Ok(oid) => search_answer(prefix@, matches@) == Ok::<_, GitErrorView>(oid),
            Err(e) => search_answer(prefix@, matches@) == Err::<ObjectId, _>(e@),
        },
{
    if matches.len() == 0 {
        return Err(GitError::OidPrefixNotFound { prefix });
    }
    if matches.len() == 1 {
        return Ok(matches[0]);
    }
    let ghost shown = reported(matches@);
    let mut listed: Vec<String> = Vec::new();
    let mut i: usize = 0;
    assert(views(listed@) =~= hexes(shown).take(0));
    while i < matches.len() && i < MAX_REPORTED_CANDIDATES
        invariant
            shown == reported(matches@),
            i <= shown.len(),
            views(listed@) == hexes(shown).take(i as int),
        decreases matches.len() - i,
    {
        let ghost before = listed@;
        listed.push(matches[i].to_hex());
        i = i + 1;
        assert(views(listed@) =~= views(before).push(hex(matches@[i - 1].bytes@)));
        assert(hexes(shown).take(i as int) =~= hexes(shown).take(i - 1).push(hexes(shown)[i - 1]));
    }
    assert(hexes(shown).take(i as int) =~= hexes(shown));
    Err(
        GitError::AmbiguousOid {
            prefix,
            count: matches.len(),
            candidates: join_texts(&listed, ", "),
        },
    )
}

impl OidSearch {
    #[verifier::type_invariant]
    spec fn well_formed(self) -> bool {
        self.visited.well_formed() && self.digits@ == lowered(self.prefix@)
    }

    /// The search for `prefix` from the tips of the refs.
    pub fn start(prefix: &str, tips: Vec<ObjectId>) -> (search: OidSearch)
        ensures
            search@ == SearchView::started(prefix@, tips@),
    {
        OidSearch {
            prefix: prefix.to_owned(),
            digits: to_ascii_lowercase(prefix),
            queue: tips,
            visited: Visited::new(),
            matches: Vec::new(),
        }
    }

    /// Goes on to the next commit that was not visited.
    pub fn next(self) -> (step: SearchStep)
        ensures
            step@ == self@.next(),
    {
        proof {
            use_type_invariant(&self);
        }
        let ghost start = self@;
        let OidSearch { prefix, digits, queue, visited, matches } = self;
        let mut queue = queue;
        let mut visited = visited;
        while queue.len() > 0 && visited.contains(&queue[queue.len() - 1])
            invariant
                visited.well_formed(),
                visited.order@ == start.visited,
                unvisited_end(start.queue, start.visited) == unvisited_end(
                    queue@,
                    start.visited,
                ),
            decreases queue.len(),
        {
            let _ = queue.pop();
        }
        if matches.len() > MAX_REPORTED_CANDIDATES {
            return SearchStep::Done(answer_search(prefix, &matches));
        }
        match queue.pop() {
            None => SearchStep::Done(answer_search(prefix, &matches)),
            Some(oid) => {
                visited.insert(oid);
                if visited.order.len() > MAX_OID_RESOLVE_VISITED {
                    return SearchStep::Done(Err(GitError::Other(SEARCH_ABORTED.to_owned())));
                }
                SearchStep::Load(
                    OidLoad { oid, search: OidSearch { prefix, digits, queue, visited, matches } },
                )
            },
        }
    }
}

impl OidLoad {
    /// Goes on with the object that the search waited for.
    pub fn loaded(self, meta: Result<CommitMeta, GitError>) -> (result: Result<OidSearch, GitError>)
        ensures
            match result {
                Ok(search) => self.search@.loaded(self.oid, meta_answer(meta)) == Ok::<
                    _,
                    GitErrorView,
                >(search@),
                Err(e) => self.search@.loaded(self.oid, meta_answer(meta)) == Err::<SearchView, _>(
                    e@,
                ),
            },
    {
        let ghost start = self.search@;
        match meta {
            Err(GitError::ObjectStore(ObjectStoreError::NotFound(_))) => Ok(self.search),
            Err(GitError::Other(_)) => Ok(self.search),
            Err(e) => Err(e),
            Ok(m) => {
                proof {
                    use_type_invariant(&self.search);
                }
                let oid = self.oid;
                let OidSearch { prefix, digits, queue, visited, matches } = self.search;
                let mut queue = queue;
                let mut matches = matches;
                if begins_with(oid.to_hex().as_str(), digits.as_str()) {
                    matches.push(oid);
                }
                let ghost fresh = |p: ObjectId| !start.visited.contains(p);
                let mut i: usize = 0;
                proof {
                    reveal(Seq::filter);
                    assert(m.parents@.take(0).filter(fresh) =~= Seq::<ObjectId>::empty());
                }
                while i < m.parents.len()
                    invariant
                        visited.well_formed(),
                        visited.order@ == start.visited,
                        fresh == (|p: ObjectId| !start.visited.contains(p)),
                        i <= m.parents@.len(),
                        queue@ == start.queue + m.parents@.take(i as int).filter(fresh),
                    decreases m.parents.len() - i,
                {
                    let p = m.parents[i];
                    proof {
                        reveal(Seq::filter);
                        assert(m.parents@.take(i + 1).drop_last() =~= m.parents@.take(i as int));
                        assert(m.parents@.take(i + 1).last() == p);
                    }
                    if !visited.contains(&p) {
                        queue.push(p);
                        assert(queue@ =~= start.queue + m.parents@.take(i + 1).filter(fresh));
                    }
                    i = i + 1;
                }
                assert(m.parents@.take(i as int) =~= m.parents@);
                Ok(OidSearch { prefix, digits, queue, visited, matches })
            },
        }
    }
}

// ---- Laws of the targets ---------------------------------------------------

proof fn lemma_hex_digits(oid: ObjectId, n: int)
    requires
        0 <= n <= 40,
    ensures
        encode_utf8(hex(oid.bytes@).take(n)).len() == n,
        all_hex(encode_utf8(hex(oid.bytes@).take(n))),
        lowered(hex(oid.bytes@).take(n)) == hex(oid.bytes@).take(n),
{
    let digits = hex(oid.bytes@);
    let first = digits.take(n);
    assert(digits.len() == 40);
    assert forall|i: int| 0 <= i < n implies '\0' <= #[trigger] first[i] <= '\u{7f}' && hex_value(
        first[i] as u8,
    ) is Some && crate::text::ascii_lower(first[i]) == first[i] by {
        assert(first[i] == digits[i]);
    }
    vstd::utf8::is_ascii_chars_encode_utf8(first);
    let bytes = encode_utf8(first);
    assert forall|i: int| 0 <= i < bytes.len() implies hex_value(#[trigger] bytes[i]) is Some by {
        assert(bytes[i] == first[i] as u8);
    }
    assert(lowered(first) =~= first);
}

/// An identifier that is written out names its commit.
pub proof fn law_full_oid(oid: ObjectId)
    ensures
        target_of(hex(oid.bytes@), Ok(RefTargetView::Oid(oid))),
{
    let digits = hex(oid.bytes@);
    lemma_hex_digits(oid, 40);
    assert(digits.take(40) =~= digits);
    crate::oid::law_hex_round_trip(oid);
}

/// The first digits of an identifier, from four to thirty-nine, are an
/// abbreviation, and the commit fits it.
pub proof fn law_first_digits(oid: ObjectId, n: int)
    requires
        4 <= n < 40,
    ensures
        target_of(
            hex(oid.bytes@).take(n),
            Ok(RefTargetView::Abbreviated(hex(oid.bytes@).take(n))),
        ),
        oid_matches(oid, hex(oid.bytes@).take(n)),
{
    let digits = hex(oid.bytes@);
    lemma_hex_digits(oid, n);
    assert(digits.subrange(0, n) =~= digits.take(n));
}

/// A valid ref name that does not begin with `refs/` and is no run of four to
/// forty hexadecimal digits names the branch of that name.
pub proof fn law_branch_name(name: Seq<char>)
    requires
        !(all_hex(encode_utf8(name)) && 4 <= encode_utf8(name).len() <= 40),
        !begins(name, "refs/"@),
        ref_name_error("refs/heads/"@ + name) is None,
    ensures
        target_of(name, Ok(RefTargetView::Name("refs/heads/"@ + name))),
{
}

/// A valid name that begins with `refs/` names the ref of that name.
pub proof fn law_full_ref_name(name: Seq<char>)
    requires
        begins(name, "refs/"@),
        ref_name_error(name) is None,
    ensures
        target_of(name, Ok(RefTargetView::Name(name))),
{
    reveal_strlit("refs/");
    let first = name.take(1);
    assert(name.subrange(0, 5)[0] == 'r');
    assert(name[0] == 'r');
    assert(first =~= seq!['r']);
    vstd::utf8::is_ascii_chars_encode_utf8(first);
    assert(first.drop_first() =~= Seq::<char>::empty());
    assert(encode_utf8(first) =~= vstd::utf8::encode_scalar('r' as u32));
    let bytes = encode_utf8(name);
    assert(bytes[0] == 0x72);
    assert(hex_value(bytes[0]) is None);
}

// ---- Laws of the search ----------------------------------------------------

/// `oid` is a tip, or lies at most `n` steps from one along the parents.
pub open spec fn within(
    graph: Map<ObjectId, Seq<ObjectId>>,
    tips: Seq<ObjectId>,
    oid: ObjectId,
    n: nat,
) -> bool
    decreases n,
{
    tips.contains(oid) || (n > 0 && exists|child: ObjectId| #[trigger]
        graph.contains_key(child) && within(graph, tips, child, (n - 1) as nat)
            && graph[child].contains(oid))
}

/// `oid` can be reached from the tips along the parents. The graph holds the
/// objects that are commits, each with its parents.
pub open spec fn reachable(
    graph: Map<ObjectId, Seq<ObjectId>>,
    tips: Seq<ObjectId>,
    oid: ObjectId,
) -> bool {
    exists|n: nat| within(graph, tips, oid, n)
}

/// `oid` is a commit that can be reached and fits the digits.
pub open spec fn fits(
    graph: Map<ObjectId, Seq<ObjectId>>,
    tips: Seq<ObjectId>,
    prefix: Seq<char>,
    oid: ObjectId,
) -> bool {
    graph.contains_key(oid) && reachable(graph, tips, oid) && oid_matches(oid, prefix)
}

/// What was read of an object agrees with the graph.
pub open spec fn agrees(
    graph: Map<ObjectId, Seq<ObjectId>>,
    oid: ObjectId,
    meta: Result<CommitMetaView, GitErrorView>,
) -> bool {
    match meta {
        Ok(m) => graph.contains_key(oid) && graph[oid] == m.parents,
        Err(_) => !graph.contains_key(oid),
    }
}

impl SearchView {
    /// The search knows the object.
    pub open spec fn knows(self, oid: ObjectId) -> bool {
        self.queue.contains(oid) || self.visited.contains(oid)
    }

    /// The search has gone right so far: it knows only what can be reached, it
    /// knows the tips and the parents of all that it visited but for the one
    /// that it waits for, and what matches is what it visited but for that one, is
    /// a commit and fits.
    pub open spec fn on_track(
        self,
        graph: Map<ObjectId, Seq<ObjectId>>,
        tips: Seq<ObjectId>,
        waiting: Option<ObjectId>,
    ) -> bool {
        &&& forall|o: ObjectId| #[trigger] self.knows(o) ==> reachable(graph, tips, o)
        &&& forall|o: ObjectId| #[trigger] tips.contains(o) ==> self.knows(o)
        &&& forall|v: ObjectId, p: ObjectId|
            self.visited.contains(v) && Some(v) != waiting && #[trigger] graph.contains_key(v)
                && #[trigger] graph[v].contains(p) ==> self.knows(p)
        &&& forall|o: ObjectId| #[trigger]
            self.matches.contains(o) <==> self.visited.contains(o) && Some(o) != waiting
                && graph.contains_key(o) && oid_matches(o, self.prefix)
        &&& self.matches.no_duplicates()
    }
}

proof fn lemma_unvisited_end(queue: Seq<ObjectId>, visited: Seq<ObjectId>)
    ensures
        forall|o: ObjectId|
            queue.contains(o) ==> #[trigger] unvisited_end(queue, visited).contains(o)
                || visited.contains(o),
        forall|o: ObjectId| #[trigger]
            unvisited_end(queue, visited).contains(o) ==> queue.contains(o),
        unvisited_end(queue, visited).len() > 0 ==> !visited.contains(
            unvisited_end(queue, visited).last(),
        ),
    decreases queue.len(),
{
    if queue.len() > 0 && visited.contains(queue.last()) {
        let front = queue.drop_last();
        lemma_unvisited_end(front, visited);
        assert forall|o: ObjectId| queue.contains(o) implies #[trigger] unvisited_end(
            queue,
            visited,
        ).contains(o) || visited.contains(o) by {
            let i = choose|i: int| 0 <= i < queue.len() && queue[i] == o;
            if i < front.len() {
                assert(front[i] == o);
            }
        }
        assert forall|o: ObjectId| #[trigger]
            unvisited_end(queue, visited).contains(o) implies queue.contains(o) by {
            let i = choose|i: int| 0 <= i < front.len() && front[i] == o;
            assert(queue[i] == o);
        }
    }
}

/// A search starts on track.
pub proof fn law_search_starts(
    graph: Map<ObjectId, Seq<ObjectId>>,
    tips: Seq<ObjectId>,
    prefix: Seq<char>,
)
    ensures
        SearchView::started(prefix, tips).on_track(graph, tips, None),
{
    let s = SearchView::started(prefix, tips);
    assert forall|o: ObjectId| #[trigger] s.knows(o) implies reachable(graph, tips, o) by {
        assert(within(graph, tips, o, 0));
    }
    assert forall|o: ObjectId| #[trigger] tips.contains(o) implies s.knows(o) by {}
}

/// A search that goes on to a commit stays on track.
pub proof fn law_search_goes_on(
    graph: Map<ObjectId, Seq<ObjectId>>,
    tips: Seq<ObjectId>,
    search: SearchView,
)
    requires
        search.on_track(graph, tips, None),
        search.next() is Load,
    ensures
        search.next()->Load_search.on_track(graph, tips, Some(search.next()->Load_oid)),
{
    let queue = unvisited_end(search.queue, search.visited);
    let oid = queue.last();
    let after = search.next()->Load_search;
    lemma_unvisited_end(search.queue, search.visited);
    assert forall|o: ObjectId| #[trigger] after.knows(o) <==> search.knows(o) by {
        lemma_push_contains(search.visited, oid, o);
        lemma_push_contains(queue.drop_last(), oid, o);
        assert(queue.drop_last().push(oid) =~= queue);
        assert(queue.contains(o) ==> search.queue.contains(o));
    }
    assert forall|o: ObjectId| #[trigger]
        after.matches.contains(o) <==> after.visited.contains(o) && Some(o) != Some(oid)
            && graph.contains_key(o) && oid_matches(o, after.prefix) by {
        lemma_push_contains(search.visited, oid, o);
        assert(search.matches.contains(o) <==> search.visited.contains(o) && graph.contains_key(o)
            && oid_matches(o, search.prefix));
    }
    assert forall|v: ObjectId, p: ObjectId|
        after.visited.contains(v) && Some(v) != Some(oid) && #[trigger] graph.contains_key(v)
            && #[trigger] graph[v].contains(p) implies after.knows(p) by {
        lemma_push_contains(search.visited, oid, v);
        assert(search.knows(p));
    }
    assert forall|o: ObjectId| #[trigger] tips.contains(o) implies after.knows(o) by {
        assert(search.knows(o));
    }
    assert forall|o: ObjectId| #[trigger] after.knows(o) implies reachable(graph, tips, o) by {
        assert(search.knows(o));
    }
}

/// A search stays on track when the commit that it waited for comes in.
pub proof fn law_search_loads(
    graph: Map<ObjectId, Seq<ObjectId>>,
    tips: Seq<ObjectId>,
    search: SearchView,
    oid: ObjectId,
    meta: Result<CommitMetaView, GitErrorView>,
)
    requires
        search.on_track(graph, tips, Some(oid)),
        search.visited.contains(oid),
        agrees(graph, oid, meta),
        search.loaded(oid, meta) is Ok,
    ensures
        search.loaded(oid, meta)->Ok_0.on_track(graph, tips, None),
{
    let after = search.loaded(oid, meta)->Ok_0;
    assert(!search.matches.contains(oid));
    assert forall|o: ObjectId| #[trigger]
        after.matches.contains(o) <==> after.visited.contains(o) && graph.contains_key(o)
            && oid_matches(o, after.prefix) by {
        lemma_push_contains(search.matches, oid, o);
        assert(search.matches.contains(o) <==> search.visited.contains(o) && o != oid
            && graph.contains_key(o) && oid_matches(o, search.prefix));
    }
    if let Ok(m) = meta {
        let fresh = |p: ObjectId| !search.visited.contains(p);
        let added = m.parents.filter(fresh);
        broadcast use vstd::seq_lib::group_filter_ensures;

        assert forall|o: ObjectId| #[trigger]
            after.knows(o) <==> search.knows(o) || m.parents.contains(o) by {
            assert(after.queue == search.queue + added);
            if after.queue.contains(o) {
                let i = choose|i: int| 0 <= i < after.queue.len() && after.queue[i] == o;
                if i < search.queue.len() {
                    assert(search.queue[i] == o);
                } else {
                    assert(added[i - search.queue.len()] == o);
                    assert(added.contains(o));
                    m.parents.lemma_filter_contains_rev(fresh, o);
                }
            }
            if search.queue.contains(o) {
                let i = choose|i: int| 0 <= i < search.queue.len() && search.queue[i] == o;
                assert(after.queue[i] == o);
            }
            if m.parents.contains(o) && !search.visited.contains(o) {
                let i = choose|i: int| 0 <= i < m.parents.len() && m.parents[i] == o;
                assert(fresh(m.parents[i]));
                assert(added.contains(m.parents[i]));
                let j = choose|j: int| 0 <= j < added.len() && added[j] == o;
                assert(after.queue[search.queue.len() + j] == o);
            }
        }
        assert forall|o: ObjectId| #[trigger] after.knows(o) implies reachable(graph, tips, o) by {
            if !search.knows(o) {
                assert(search.knows(oid));
                let n = choose|n: nat| within(graph, tips, oid, n);
                assert(graph.contains_key(oid));
                assert(within(graph, tips, o, n + 1));
            }
        }
        assert forall|v: ObjectId, p: ObjectId|
            after.visited.contains(v) && #[trigger] graph.contains_key(v)
                && #[trigger] graph[v].contains(p) implies after.knows(p) by {
            if v != oid {
                assert(search.knows(p));
            }
        }
        assert forall|o: ObjectId| #[trigger] tips.contains(o) implies after.knows(o) by {
            assert(search.knows(o));
        }
    }
}

proof fn lemma_exhausted(
    graph: Map<ObjectId, Seq<ObjectId>>,
    tips: Seq<ObjectId>,
    search: SearchView,
    oid: ObjectId,
    n: nat,
)
    requires
        search.on_track(graph, tips, None),
        unvisited_end(search.queue, search.visited).len() == 0,
        within(graph, tips, oid, n),
    ensures
        search.visited.contains(oid),
    decreases n,
{
    lemma_unvisited_end(search.queue, search.visited);
    let rest = unvisited_end(search.queue, search.visited);
    if !tips.contains(oid) {
        let child = choose|child: ObjectId| #[trigger]
            graph.contains_key(child) && within(graph, tips, child, (n - 1) as nat)
                && graph[child].contains(oid);
        lemma_exhausted(graph, tips, search, child, (n - 1) as nat);
    }
    assert(search.knows(oid));
    assert(search.queue.contains(oid) ==> rest.contains(oid) || search.visited.contains(oid));
}

/// The answer of a search: one commit where exactly one of those that can be
/// reached fits; that none was found only where none fits; and that the
/// abbreviation is ambiguous only where two fit. What is no commit never counts.
pub proof fn law_search_answers(
    graph: Map<ObjectId, Seq<ObjectId>>,
    tips: Seq<ObjectId>,
    search: SearchView,
)
    requires
        search.on_track(graph, tips, None),
        search.next() is Done,
    ensures
        match search.next()->Done_0 {
            Ok(found) => fits(graph, tips, search.prefix, found) && forall|o: ObjectId| #[trigger]
                fits(graph, tips, search.prefix, o) ==> o == found,
            Err(GitErrorView::OidPrefixNotFound { prefix }) => prefix == search.prefix
                && forall|o: ObjectId| !#[trigger] fits(graph, tips, search.prefix, o),
            Err(GitErrorView::AmbiguousOid { prefix, .. }) => prefix == search.prefix
                && exists|a: ObjectId, b: ObjectId|
                a != b && #[trigger] fits(graph, tips, search.prefix, a) && #[trigger] fits(
                    graph,
                    tips,
                    search.prefix,
                    b,
                ),
            Err(GitErrorView::Other(_)) => search.visited.len() >= 50000,
            Err(_) => false,
        },
{
    lemma_unvisited_end(search.queue, search.visited);
    let queue = unvisited_end(search.queue, search.visited);
    let matches = search.matches;
    assert forall|o: ObjectId| #[trigger] matches.contains(o) implies fits(
        graph,
        tips,
        search.prefix,
        o,
    ) by {
        assert(search.knows(o));
    }
    if matches.len() > 1 {
        assert(matches.contains(matches[0]));
        assert(matches.contains(matches[1]));
        assert(fits(graph, tips, search.prefix, matches[0]));
        assert(fits(graph, tips, search.prefix, matches[1]));
    } else if queue.len() == 0 {
        assert forall|o: ObjectId| #[trigger] fits(graph, tips, search.prefix, o) implies
            matches.contains(o) by {
            let n = choose|n: nat| within(graph, tips, o, n);
            lemma_exhausted(graph, tips, search, o, n);
        }
        if matches.len() == 1 {
            assert(matches.contains(matches[0]));
        }
    }
}

/// Where no commit can be reached, an abbreviation names none, whatever the tips
/// are.
pub proof fn law_no_commit_no_match(
    graph: Map<ObjectId, Seq<ObjectId>>,
    tips: Seq<ObjectId>,
    search: SearchView,
)
    requires
        search.on_track(graph, tips, None),
        search.next() is Done,
        search.visited.len() < 50000,
        forall|o: ObjectId| #[trigger] reachable(graph, tips, o) ==> !graph.contains_key(o),
    ensures
        search.next()->Done_0 == Err::<ObjectId, _>(
            GitErrorView::OidPrefixNotFound { prefix: search.prefix },
        ),
{
    law_search_answers(graph, tips, search);
    assert forall|o: ObjectId| !#[trigger] fits(graph, tips, search.prefix, o) by {
        if reachable(graph, tips, o) {
            assert(!graph.contains_key(o));
        }
    }
    match search.next()->Done_0 {
        Ok(found) => {
            assert(fits(graph, tips, search.prefix, found));
        },
        Err(_) => {},
    }
}

} // verus!
