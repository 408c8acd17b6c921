//! The rules of an account's `.ovgitignore`.
//!
//! The file is UTF-8 text with one pattern on a line, a subset of the rules of
//! a root `.gitignore`. Negation is rejected.

use crate::enumerate::{prune_path, pruned};
use crate::error::{GitError, GitErrorView};
use crate::text::{
    begins, cat2, cat4, decimal, decimal_text, finishes, lemma_no_slashes_at_the_ends,
    lemma_split_one, lemma_split_parts, same_text, split, split_on, trim, trim_slashes, trimmed,
    views, without_slashes,
};
use vstd::prelude::*;
use vstd::utf8::{
    decode_utf8, decode_utf8_split, is_char_boundary_iff_is_leading_byte, is_leading_byte_width_1,
    valid_utf8, valid_utf8_concat, valid_utf8_split,
};

verus! {

/// The path of the ignore file, relative to the account.
pub const OVGITIGNORE_PATH: &'static str = ".ovgitignore";

/// The ignore file holds at most this many bytes.
pub const OVGITIGNORE_MAX_BYTES: usize = 65536;

// ---- Outside calls ---------------------------------------------------------

/// A set of patterns under construction.
#[verifier::external_type_specification]
#[verifier::external_body]
pub struct ExGitignoreBuilder(ignore::gitignore::GitignoreBuilder);

/// A compiled set of patterns.
#[verifier::external_type_specification]
#[verifier::external_body]
pub struct ExGitignore(ignore::gitignore::Gitignore);

/// The patterns that a builder holds, in the order in which they were added.
pub uninterp spec fn builder_patterns(builder: ignore::gitignore::GitignoreBuilder) -> Seq<
    Seq<char>,
>;

/// The patterns that a compiled set holds, in their order.
pub uninterp spec fn set_patterns(set: ignore::gitignore::Gitignore) -> Seq<Seq<char>>;

/// The message with which `GitignoreBuilder::add_line` rejects a line, if it does.
pub uninterp spec fn pattern_error(line: Seq<char>) -> Option<Seq<char>>;

/// Whether a pattern matches a file or one of the directories it is in.
pub uninterp spec fn pattern_ignores(line: Seq<char>, path: Seq<char>) -> bool;

/// The message with which `std::str::from_utf8` rejects bytes that are not UTF-8.
pub uninterp spec fn utf8_error(bytes: Seq<u8>) -> Seq<char>;

/// `GitignoreBuilder::new` with an empty root: a builder without patterns.
#[verifier::external_body]
fn new_builder() -> (builder: ignore::gitignore::GitignoreBuilder)
    ensures
        builder_patterns(builder) == Seq::<Seq<char>>::empty(),
{
    ignore::gitignore::GitignoreBuilder::new(std::path::Path::new(""))
}

/// `GitignoreBuilder::add_line`: a line that parses as a pattern is added at the
/// end; one that does not is reported, and the builder stays as it is. Whether a
/// line parses, and the message where it does not, depend on the line alone. The
/// call recurses where braces are nested in the line, so it needs stack for that.
#[verifier::external_body]
fn add_pattern(builder: &mut ignore::gitignore::GitignoreBuilder, line: &str) -> (result: Result<
    (),
    String,
>)
    requires
        line@.len() > 0,
        trimmed(line@) == line@,
        line@[0] != '#',
    ensures
        match result {
            Ok(()) => pattern_error(line@) is None && builder_patterns(*final(builder))
                == builder_patterns(*old(builder)).push(line@),
            Err(message) => pattern_error(line@) == Some(message@) && builder_patterns(
                *final(builder),
            ) == builder_patterns(*old(builder)),
        },
{
    match builder.add_line(Some(OVGITIGNORE_PATH.into()), line) {
        Ok(_) => Ok(()),
        Err(e) => Err(e.to_string()),
    }
}

/// `GitignoreBuilder::build`: a set that is built holds the patterns of the
/// builder, in their order. Nothing is said of when it is built: the limits on the
/// size of the compiled set are counted in bytes of the machine. Nor of the message
/// where it is not: it is about whichever pattern was tried first, and the order is
/// that of a hash map.
#[verifier::external_body]
fn build_set(builder: &ignore::gitignore::GitignoreBuilder) -> (result: Result<
    ignore::gitignore::Gitignore,
    String,
>)
    ensures
        result matches Ok(set) ==> set_patterns(set) == builder_patterns(*builder),
{
    match builder.build() {
        Ok(set) => Ok(set),
        Err(e) => Err(e.to_string()),
    }
}

/// `Gitignore::clone`: the copy holds the same patterns, in the same order.
#[verifier::external_body]
fn copy_set(set: &ignore::gitignore::Gitignore) -> (copy: ignore::gitignore::Gitignore)
    ensures
        set_patterns(copy) == set_patterns(*set),
{
    set.clone()
}

/// No pattern of the list is empty or takes a path back.
pub open spec fn excluding(patterns: Seq<Seq<char>>) -> bool {
    forall|i: int|
        0 <= i < patterns.len() ==> (#[trigger] patterns[i]).len() > 0 && patterns[i][0] != '!'
}

/// Whether one of the patterns ignores a path.
pub open spec fn any_ignores(patterns: Seq<Seq<char>>, path: Seq<char>) -> bool {
    exists|i: int| 0 <= i < patterns.len() && pattern_ignores(#[trigger] patterns[i], path)
}

/// A component of a path that names something: neither empty nor a dot.
pub open spec fn names_something(component: Seq<char>) -> bool {
    component.len() > 0 && component != "."@
}

/// `inner` lies below `path`: it continues it by a `/` and at least one name.
/// `path` itself ends in a name.
pub open spec fn below(path: Seq<char>, inner: Seq<char>) -> bool {
    let rest = inner.skip(path.len() as int + 1);
    &&& names_something(split(path, '/').last())
    &&& begins(inner, path.push('/'))
    &&& exists|i: int|
        0 <= i < split(rest, '/').len() && names_something(#[trigger] split(rest, '/')[i])
}

/// `Gitignore::matched_path_or_any_parents` for a file, and `is_ignore` on the
/// match. The call holds the path, and after it the directories it is in, up to
/// the root, against the patterns, and stops where one of them matches. No pattern
/// takes a path back, so `is_ignore` says whether any of them matches, and each
/// matches or not by itself. An ignored path is among the directories that a path
/// below it is in, and a pattern that matches it as a file matches it as a
/// directory too, so that what lies below it is ignored as well. Paths are those
/// of Unix: `/` alone separates components. The call panics on a path that still
/// has a root once a leading `./` and a `/` have been taken off.
#[verifier::external_body]
fn set_ignores(set: &ignore::gitignore::Gitignore, path: &str) -> (ignored: bool)
    requires
        excluding(set_patterns(*set)),
        !begins(path@, "/"@),
        !begins(path@, ".///"@),
    ensures
        ignored == (exists|i: int|
            0 <= i < set_patterns(*set).len() && pattern_ignores(
                #[trigger] set_patterns(*set)[i],
                path@,
            )),
        ignored ==> (forall|inner: Seq<char>| #[trigger]
            below(path@, inner) ==> any_ignores(set_patterns(*set), inner)),
{
    set.matched_path_or_any_parents(std::path::Path::new(path), false).is_ignore()
}

/// `std::str::from_utf8`: bytes that are UTF-8 give the text that they encode;
/// others give an error, whose message depends on the bytes alone.
#[verifier::external_body]
fn utf8_text(bytes: &[u8]) -> (result: Result<&str, String>)
    ensures
        match result {
            Ok(text) => valid_utf8(bytes@) && text@ == decode_utf8(bytes@),
            Err(message) => !valid_utf8(bytes@) && message@ == utf8_error(bytes@),
        },
{
    match std::str::from_utf8(bytes) {
        Ok(text) => Ok(text),
        Err(e) => Err(e.to_string()),
    }
}

// ---- Lines -----------------------------------------------------------------

/// What a line of the ignore file says.
#[derive(Debug, Clone, PartialEq, Eq)]
pub enum IgnoreLine {
    /// A blank line or a comment.
    Blank,
    /// A negation, which is not supported.
    Negation(String),
    /// A pattern.
    Pattern(String),
}

pub enum IgnoreLineView {
    Blank,
    Negation(Seq<char>),
    Pattern(Seq<char>),
}

impl View for IgnoreLine {
    type V = IgnoreLineView;

    open spec fn view(&self) -> IgnoreLineView {
        match self {
            IgnoreLine::Blank => IgnoreLineView::Blank,
            IgnoreLine::Negation(t) => IgnoreLineView::Negation(t@),
            IgnoreLine::Pattern(t) => IgnoreLineView::Pattern(t@),
        }
    }
}

/// What a line of the ignore file says.
pub open spec fn line_kind(raw: Seq<char>) -> IgnoreLineView {
    let line = trimmed(raw);
    if line.len() == 0 || line[0] == '#' {
        IgnoreLineView::Blank
    } else if line[0] == '!' {
        IgnoreLineView::Negation(line)
    } else {
        IgnoreLineView::Pattern(line)
    }
}

/// What a line of the ignore file says. White space around it does not count.
pub fn classify_line(raw: &str) -> (kind: IgnoreLine)
    ensures
        kind@ == line_kind(raw@),
{
    let line = trim(raw);
    if line.as_str().is_empty() {
        return IgnoreLine::Blank;
    }
    let first = line.as_str().get_char(0);
    if first == '#' {
        IgnoreLine::Blank
    } else if first == '!' {
        IgnoreLine::Negation(line)
    } else {
        IgnoreLine::Pattern(line)
    }
}

/// The error for an ignore file that cannot be used.
pub open spec fn invalid(reason: Seq<char>) -> GitErrorView {
    GitErrorView::InvalidIgnoreFile { path: ".ovgitignore"@, reason }
}

fn invalid_file(reason: String) -> (e: GitError)
    ensures
        e@ == invalid(reason@),
{
    GitError::InvalidIgnoreFile { path: OVGITIGNORE_PATH.to_owned(), reason }
}

/// The error for a file that is not UTF-8, given the message about its bytes.
pub fn not_utf8(message: &str) -> (e: GitError)
    ensures
        e@ == invalid("must be UTF-8: "@ + message@),
{
    invalid_file(cat2("must be UTF-8: ", message))
}

/// The error for a negation.
pub fn negated_line(number: u64, line: &str) -> (e: GitError)
    ensures
        e@ == invalid(
            "line "@ + decimal(number as nat) + " uses unsupported negation: "@ + line@,
        ),
{
    invalid_file(
        cat4("line ", decimal_text(number).as_str(), " uses unsupported negation: ", line),
    )
}

/// The error for a pattern that does not parse, given the message about it.
pub fn rejected_line(number: u64, message: &str) -> (e: GitError)
    ensures
        e@ == invalid("line "@ + decimal(number as nat) + " is invalid: "@ + message@),
{
    invalid_file(cat4("line ", decimal_text(number).as_str(), " is invalid: ", message))
}

/// The patterns of the lines of an ignore file, or the error for the first line
/// that cannot be used.
pub open spec fn patterns_of(lines: Seq<Seq<char>>) -> Result<Seq<Seq<char>>, GitErrorView>
    decreases lines.len(),
{
    if lines.len() == 0 {
        Ok(Seq::empty())
    } else {
        let number = decimal(lines.len());
        match (patterns_of(lines.drop_last()), line_kind(lines.last())) {
            (Err(e), _) => Err(e),
            (Ok(patterns), IgnoreLineView::Blank) => Ok(patterns),
            (Ok(_), IgnoreLineView::Negation(line)) => Err(
                invalid("line "@ + number + " uses unsupported negation: "@ + line),
            ),
            (Ok(patterns), IgnoreLineView::Pattern(line)) => match pattern_error(line) {
                Some(message) => Err(invalid("line "@ + number + " is invalid: "@ + message)),
                None => Ok(patterns.push(line)),
            },
        }
    }
}

pub proof fn lemma_first_error(lines: Seq<Seq<char>>, n: int)
    requires
        0 <= n <= lines.len(),
        patterns_of(lines.take(n)) is Err,
    ensures
        patterns_of(lines) == patterns_of(lines.take(n)),
    decreases lines.len() - n,
{
    if n < lines.len() {
        assert(lines.take(n + 1).drop_last() =~= lines.take(n));
        lemma_first_error(lines, n + 1);
    } else {
        assert(lines.take(n) =~= lines);
    }
}

// ---- Matcher ---------------------------------------------------------------

/// The patterns of an account's ignore file.
#[derive(Debug)]
pub struct IgnoreMatcher {
    inner: Option<ignore::gitignore::Gitignore>,
}

impl Clone for IgnoreMatcher {
    fn clone(&self) -> (copy: Self)
        ensures
            copy@ == self@,
    {
        proof {
            use_type_invariant(self);
        }
        match &self.inner {
            Some(set) => IgnoreMatcher { inner: Some(copy_set(set)) },
            None => IgnoreMatcher { inner: None },
        }
    }
}

impl View for IgnoreMatcher {
    type V = Option<Seq<Seq<char>>>;

    /// The patterns, where there are any.
    closed spec fn view(&self) -> Option<Seq<Seq<char>>> {
        match self.inner {
            Some(set) => Some(set_patterns(set)),
            None => None,
        }
    }
}

/// `result` is what the bytes of an ignore file can give.
pub open spec fn parses_to(
    bytes: Seq<u8>,
    result: Result<Option<Seq<Seq<char>>>, GitErrorView>,
) -> bool {
    if bytes.len() > 65536 {
        result == Err::<Option<Seq<Seq<char>>>, _>(
            GitErrorView::IgnoreFileTooLarge {
                path: ".ovgitignore"@,
                size: bytes.len(),
                max: 65536,
            },
        )
    } else if !valid_utf8(bytes) {
        result == Err::<Option<Seq<Seq<char>>>, _>(
            invalid("must be UTF-8: "@ + utf8_error(bytes)),
        )
    } else {
        compiles_to(decode_utf8(bytes), result)
    }
}

/// `result` is what the text of an ignore file can give. Patterns that are accepted
/// line by line can still be too much to be compiled together.
pub open spec fn compiles_to(
    text: Seq<char>,
    result: Result<Option<Seq<Seq<char>>>, GitErrorView>,
) -> bool {
    match (patterns_of(split(text, '\n')), result) {
        (Err(e), Err(r)) => r == e,
        (Err(_), Ok(_)) => false,
        (Ok(patterns), Ok(compiled)) => compiled == if patterns.len() == 0 {
            None
        } else {
            Some(patterns)
        },
        (Ok(patterns), Err(r)) => patterns.len() > 0 && exists|reason: Seq<char>|
            r == #[trigger] invalid(reason),
    }
}

/// The view of a matcher, or of the error in its place.
pub open spec fn matcher_answer(result: Result<IgnoreMatcher, GitError>) -> Result<
    Option<Seq<Seq<char>>>,
    GitErrorView,
> {
    match result {
        Ok(matcher) => Ok(matcher@),
        Err(e) => Err(e@),
    }
}

/// Whether patterns exclude a path. The ignore file itself is never excluded.
pub open spec fn ignored_by(patterns: Option<Seq<Seq<char>>>, path: Seq<char>) -> bool {
    let cleaned = without_slashes(path);
    &&& patterns is Some
    &&& cleaned.len() > 0
    &&& cleaned != ".ovgitignore"@
    &&& any_ignores(patterns->0, cleaned)
}

/// A path can be held against patterns, unless it begins with a dot and three
/// slashes.
pub open spec fn can_match(patterns: Option<Seq<Seq<char>>>, path: Seq<char>) -> bool {
    patterns is Some ==> !begins(without_slashes(path), ".///"@)
}

/// Whether a path belongs to snapshots.
pub open spec fn in_snapshots(patterns: Option<Seq<Seq<char>>>, path: Seq<char>) -> bool {
    path == ".ovgitignore"@ || (!pruned(path) && !ignored_by(patterns, path))
}

impl Default for IgnoreMatcher {
    fn default() -> (matcher: Self)
        ensures
            matcher@ is None,
    {
        IgnoreMatcher::empty()
    }
}

impl IgnoreMatcher {
    /// The patterns only exclude.
    #[verifier::type_invariant]
    closed spec fn valid(self) -> bool {
        self@ is Some ==> excluding(self@->0)
    }

    /// The matcher that excludes nothing.
    pub fn empty() -> (matcher: Self)
        ensures
            matcher@ is None,
    {
        IgnoreMatcher { inner: None }
    }

    /// Reads the bytes of an ignore file.
    pub fn parse(bytes: &[u8]) -> (result: Result<IgnoreMatcher, GitError>)
        ensures
            parses_to(bytes@, matcher_answer(result)),
    {
        if bytes.len() > OVGITIGNORE_MAX_BYTES {
            return Err(
                GitError::IgnoreFileTooLarge {
                    path: OVGITIGNORE_PATH.to_owned(),
                    size: bytes.len() as u64,
                    max: OVGITIGNORE_MAX_BYTES as u64,
                },
            );
        }
        match utf8_text(bytes) {
            Ok(text) => IgnoreMatcher::parse_text(text),
            Err(message) => Err(not_utf8(message.as_str())),
        }
    }

    /// Reads the text of an ignore file.
    pub fn parse_text(text: &str) -> (result: Result<IgnoreMatcher, GitError>)
        ensures
            compiles_to(text@, matcher_answer(result)),
    {
        let lines = split_on(text, '\n');
        let ghost all = split(text@, '\n');
        let mut builder = new_builder();
        let mut added = false;
        let mut i: usize = 0;
        assert(all.take(0) =~= Seq::<Seq<char>>::empty());
        while i < lines.len()
            invariant
                all == split(text@, '\n'),
                views(lines@) == all,
                i <= lines@.len(),
                patterns_of(all.take(i as int)) == Ok::<_, GitErrorView>(
                    builder_patterns(builder),
                ),
                added == (builder_patterns(builder).len() > 0),
                excluding(builder_patterns(builder)),
            decreases lines.len() - i,
        {
            proof {
                assert(all.take(i + 1).drop_last() =~= all.take(i as int));
                assert(all.take(i + 1).last() == lines@[i as int]@);
            }
            let number: u64 = i as u64 + 1;
            match classify_line(lines[i].as_str()) {
                IgnoreLine::Blank => {},
                IgnoreLine::Negation(line) => {
                    proof {
                        lemma_first_error(all, i + 1);
                    }
                    return Err(negated_line(number, line.as_str()));
                },
                IgnoreLine::Pattern(line) => {
                    proof {
                        crate::text::lemma_trimmed_twice(lines@[i as int]@);
                    }
                    match add_pattern(&mut builder, line.as_str()) {
                        Ok(()) => {
                            added = true;
                        },
                        Err(message) => {
                            proof {
                                lemma_first_error(all, i + 1);
                            }
                            return Err(rejected_line(number, message.as_str()));
                        },
                    }
                },
            }
            i = i + 1;
        }
        assert(all.take(i as int) =~= all);
        if !added {
            return Ok(IgnoreMatcher::empty());
        }
        match build_set(&builder) {
            Ok(set) => Ok(IgnoreMatcher { inner: Some(set) }),
            Err(message) => Err(invalid_file(message)),
        }
    }

    /// Whether the patterns exclude `rel_path`, which is relative to the account.
    /// What lies below an excluded path is excluded too.
    pub fn is_ignored(&self, rel_path: &str) -> (ignored: bool)
        requires
            can_match(self@, rel_path@),
        ensures
            ignored == ignored_by(self@, rel_path@),
            ignored ==> forall|inner: Seq<char>|
                below(without_slashes(rel_path@), #[trigger] without_slashes(inner)) ==> ignored_by(
                    self@,
                    inner,
                ),
    {
        match &self.inner {
            None => false,
            Some(set) => {
                let cleaned = trim_slashes(rel_path);
                if cleaned.as_str().is_empty() || same_text(cleaned.as_str(), OVGITIGNORE_PATH) {
                    return false;
                }
                proof {
                    crate::text::lemma_no_leading_slash(rel_path@);
                    reveal_strlit("/");
                    if begins(cleaned@, "/"@) {
                        assert(cleaned@.subrange(0, 1)[0] == '/');
                    }
                    use_type_invariant(self);
                }
                let ignored = set_ignores(set, cleaned.as_str());
                proof {
                    assert forall|inner: Seq<char>|
                        ignored && below(
                            cleaned@,
                            #[trigger] without_slashes(inner),
                        ) implies ignored_by(self@, inner) by {
                        lemma_below_is_no_ignore_file(cleaned@, without_slashes(inner));
                    }
                }
                ignored
            },
        }
    }
}

/// Whether a path belongs to snapshots, given whether the patterns exclude it.
pub fn track_decision(rel_path: &str, ignored: bool) -> (track: bool)
    ensures
        track == (rel_path@ == ".ovgitignore"@ || (!pruned(rel_path@) && !ignored)),
{
    same_text(rel_path, OVGITIGNORE_PATH) || (!prune_path(rel_path) && !ignored)
}

/// Whether a path, relative to the account, belongs to snapshots. The ignore
/// file always does; what the runtime keeps never does; and the patterns exclude
/// what they match.
/// Nor does what lies below an excluded path belong to snapshots.
pub fn should_track_path(rel_path: &str, matcher: &IgnoreMatcher) -> (track: bool)
    requires
        rel_path@ == ".ovgitignore"@ || pruned(rel_path@) || can_match(matcher@, rel_path@),
    ensures
        track == in_snapshots(matcher@, rel_path@),
        !track && !pruned(rel_path@) ==> forall|inner: Seq<char>|
            below(without_slashes(rel_path@), without_slashes(inner)) ==> !(#[trigger] in_snapshots(
                matcher@,
                inner,
            )),
{
    if same_text(rel_path, OVGITIGNORE_PATH) {
        return true;
    }
    if prune_path(rel_path) {
        return false;
    }
    let ignored = matcher.is_ignored(rel_path);
    proof {
        assert forall|inner: Seq<char>|
            ignored && below(without_slashes(rel_path@), without_slashes(inner)) implies !(
        #[trigger] in_snapshots(matcher@, inner)) by {
            assert(ignored_by(matcher@, inner));
            lemma_below_is_no_ignore_file(without_slashes(rel_path@), without_slashes(inner));
            reveal_strlit(".ovgitignore");
            lemma_no_slashes_at_the_ends(".ovgitignore"@);
        }
    }
    track_decision(rel_path, ignored)
}

proof fn lemma_below_is_no_ignore_file(path: Seq<char>, inner: Seq<char>)
    requires
        below(path, inner),
    ensures
        inner.len() > 0,
        inner != ".ovgitignore"@,
{
    reveal_strlit(".ovgitignore");
    let start = path.push('/');
    assert(inner.subrange(0, start.len() as int)[path.len() as int] == '/');
    assert(inner[path.len() as int] == '/');
}

// ---- Laws ------------------------------------------------------------------

/// The runtime does not keep the ignore file.
pub proof fn lemma_ignore_file_not_pruned()
    ensures
        !pruned(".ovgitignore"@),
{
    let path = ".ovgitignore"@;
    reveal_strlit(".ovgitignore");
    reveal_strlit("_system");
    reveal_strlit("tasks");
    reveal_strlit("temp");
    reveal_strlit("queue");
    reveal_strlit("upload");
    reveal_strlit(".path.ovlock");
    reveal_strlit(".faiss");
    reveal_strlit(".index");
    lemma_split_one(path, '/');
    let segments = split(path, '/');
    assert(segments[0] == path);
    assert(path[1] == 'o' && ".path.ovlock"@[1] == 'p');
    assert(path[path.len() - 1] == 'e' && ".faiss"@[5] == 's' && ".index"@[5] == 'x');
    if finishes(path, ".faiss"@) {
        assert(path.skip(path.len() - 6)[5] == 's');
    }
    if finishes(path, ".index"@) {
        assert(path.skip(path.len() - 6)[5] == 'x');
    }
}

/// The ignore file belongs to snapshots, whatever the patterns are.
pub proof fn law_ignore_file_is_kept(patterns: Option<Seq<Seq<char>>>)
    ensures
        in_snapshots(patterns, ".ovgitignore"@),
{
}

/// Without patterns exactly what the runtime keeps is left out.
pub proof fn law_without_patterns(path: Seq<char>)
    ensures
        in_snapshots(None, path) == !pruned(path),
{
    lemma_ignore_file_not_pruned();
}

/// No patterns bring back what the runtime keeps.
pub proof fn law_prune_wins(patterns: Option<Seq<Seq<char>>>, path: Seq<char>)
    requires
        pruned(path),
    ensures
        !in_snapshots(patterns, path),
{
    lemma_ignore_file_not_pruned();
}

/// A file whose lines are all blank or comments has no patterns.
pub proof fn law_blank_file(text: Seq<char>)
    requires
        forall|i: int|
            0 <= i < split(text, '\n').len() ==> line_kind(#[trigger] split(text, '\n')[i])
                == IgnoreLineView::Blank,
    ensures
        forall|result: Result<Option<Seq<Seq<char>>>, GitErrorView>|
            compiles_to(text, result) <==> result == Ok::<Option<Seq<Seq<char>>>, GitErrorView>(
                None,
            ),
{
    lemma_all_blank(split(text, '\n'));
}

proof fn lemma_all_blank(lines: Seq<Seq<char>>)
    requires
        forall|i: int|
            0 <= i < lines.len() ==> line_kind(#[trigger] lines[i]) == IgnoreLineView::Blank,
    ensures
        patterns_of(lines) == Ok::<Seq<Seq<char>>, GitErrorView>(Seq::empty()),
    decreases lines.len(),
{
    if lines.len() > 0 {
        lemma_all_blank(lines.drop_last());
    }
}

proof fn lemma_patterns_stay(lines: Seq<Seq<char>>, more: Seq<Seq<char>>)
    requires
        patterns_of(lines + more) is Ok,
    ensures
        patterns_of(lines) is Ok,
        patterns_of(lines)->Ok_0.is_prefix_of(patterns_of(lines + more)->Ok_0),
    decreases more.len(),
{
    if more.len() == 0 {
        assert(lines + more =~= lines);
    } else {
        assert((lines + more).drop_last() =~= lines + more.drop_last());
        lemma_patterns_stay(lines, more.drop_last());
    }
}

proof fn lemma_blank_lines(lines: Seq<Seq<char>>, more: Seq<Seq<char>>)
    requires
        forall|i: int|
            0 <= i < more.len() ==> line_kind(#[trigger] more[i]) == IgnoreLineView::Blank,
    ensures
        patterns_of(lines + more) == patterns_of(lines),
    decreases more.len(),
{
    if more.len() == 0 {
        assert(lines + more =~= lines);
    } else {
        assert((lines + more).drop_last() =~= lines + more.drop_last());
        lemma_blank_lines(lines, more.drop_last());
    }
}

/// The text of two parts with a line feed between them.
proof fn lemma_two_parts(a: Seq<u8>, b: Seq<u8>)
    ensures
        valid_utf8(a.push(0x0a) + b) && valid_utf8(a) ==> valid_utf8(b),
        valid_utf8(a) && valid_utf8(b) ==> valid_utf8(a.push(0x0a) + b) && decode_utf8(
            a.push(0x0a) + b,
        ) == decode_utf8(a).push('\n') + decode_utf8(b),
{
    let whole = a.push(0x0a) + b;
    let at = a.len() as int;
    let rest = whole.subrange(at, whole.len() as int);
    assert(rest =~= seq![0x0au8] + b);
    assert(whole.subrange(0, at) =~= a);
    assert(0x0au8 & 0x7fu8 == 0x0au8) by (bit_vector);
    assert(rest[0] == 0x0a);
    assert(rest.subrange(1, rest.len() as int) =~= b);
    assert(valid_utf8(rest) == valid_utf8(b));
    if valid_utf8(whole) {
        is_char_boundary_iff_is_leading_byte(whole, at);
        assert(is_leading_byte_width_1(whole[at]));
        valid_utf8_split(whole, at);
    }
    if valid_utf8(a) && valid_utf8(b) {
        valid_utf8_concat(a, rest);
        assert(a + rest =~= whole);
        is_char_boundary_iff_is_leading_byte(whole, at);
        assert(is_leading_byte_width_1(whole[at]));
        decode_utf8_split(whole, at);
        assert(decode_utf8(rest) =~= seq!['\n'] + decode_utf8(b));
        assert(decode_utf8(whole) =~= decode_utf8(a).push('\n') + decode_utf8(b));
    }
}

/// Lines that are added to an ignore file never take a path back: what the file
/// excluded, the longer file excludes too.
pub proof fn law_lines_only_exclude(
    file: Seq<u8>,
    added: Seq<u8>,
    short: Option<Seq<Seq<char>>>,
    long: Option<Seq<Seq<char>>>,
    path: Seq<char>,
)
    requires
        parses_to(file, Ok(short)),
        parses_to(file.push(0x0a) + added, Ok(long)),
        ignored_by(short, path),
    ensures
        ignored_by(long, path),
{
    lemma_two_parts(file, added);
    let before = split(decode_utf8(file), '\n');
    let more = split(decode_utf8(added), '\n');
    lemma_split_parts(decode_utf8(file), decode_utf8(added), '\n');
    lemma_patterns_stay(before, more);
    let patterns = patterns_of(before)->Ok_0;
    let longer = patterns_of(before + more)->Ok_0;
    let cleaned = without_slashes(path);
    let i = choose|i: int|
        0 <= i < patterns.len() && pattern_ignores(#[trigger] patterns[i], cleaned);
    assert(longer[i] == patterns[i]);
}

/// Blank lines and comments that are added to an ignore file change nothing: the
/// longer file can give exactly what the file can give.
pub proof fn law_blank_lines_add_nothing(
    file: Seq<u8>,
    added: Seq<u8>,
    result: Result<Option<Seq<Seq<char>>>, GitErrorView>,
)
    requires
        file.len() + 1 + added.len() <= 65536,
        valid_utf8(file),
        valid_utf8(added),
        forall|i: int|
            0 <= i < split(decode_utf8(added), '\n').len() ==> line_kind(
                #[trigger] split(decode_utf8(added), '\n')[i],
            ) == IgnoreLineView::Blank,
    ensures
        parses_to(file.push(0x0a) + added, result) <==> parses_to(file, result),
{
    lemma_two_parts(file, added);
    lemma_split_parts(decode_utf8(file), decode_utf8(added), '\n');
    lemma_blank_lines(split(decode_utf8(file), '\n'), split(decode_utf8(added), '\n'));
}

/// A negation anywhere in the file is an error.
pub proof fn law_negation_is_rejected(
    text: Seq<char>,
    at: int,
    result: Result<Option<Seq<Seq<char>>>, GitErrorView>,
)
    requires
        compiles_to(text, result),
        0 <= at < split(text, '\n').len(),
        line_kind(split(text, '\n')[at]) is Negation,
    ensures
        result is Err,
{
    let lines = split(text, '\n');
    assert(lines.take(at + 1).last() == lines[at]);
    lemma_first_error(lines, at + 1);
}

} // verus!
