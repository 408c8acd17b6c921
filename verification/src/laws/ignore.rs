//! What the ignore file is for.

use crate::error::{GitError, GitErrorView};
use crate::ignore::{
    line_kind, negated_line, not_utf8, pattern_ignores, patterns_of, rejected_line,
    should_track_path, IgnoreLineView, IgnoreMatcher,
};
use crate::laws::names::{kept_by_runtime, lemma_pruned};
use crate::laws::text::{
    is_blank, is_core, is_split, is_trimmed, lemma_core, lemma_decimal, lemma_one_core,
    lemma_one_split, lemma_trimmed, writes_number,
};
use crate::text::{decimal, split, trimmed, without_slashes};
use vstd::prelude::*;
use vstd::utf8::{decode_utf8, valid_utf8};

verus! {

/// `lines` are the lines of the file, and `cores` what is left of each without the
/// white space around it.
pub open spec fn are_lines(
    bytes: Seq<u8>,
    lines: Seq<Seq<char>>,
    cores: Seq<Seq<char>>,
) -> bool {
    &&& valid_utf8(bytes)
    &&& is_split(decode_utf8(bytes), '\n', lines)
    &&& cores.len() == lines.len()
    &&& forall|i: int| 0 <= i < lines.len() ==> is_trimmed(#[trigger] lines[i], cores[i])
}

/// The line is a pattern.
pub open spec fn is_pattern(core: Seq<char>) -> bool {
    core.len() > 0 && core[0] != '#' && core[0] != '!'
}

proof fn lemma_patterns(lines: Seq<Seq<char>>, cores: Seq<Seq<char>>)
    requires
        cores.len() == lines.len(),
        forall|i: int| 0 <= i < lines.len() ==> is_trimmed(#[trigger] lines[i], cores[i]),
    ensures
        patterns_of(lines) matches Ok(list) ==> list == cores.filter(|c: Seq<char>| is_pattern(c))
            && forall|i: int|
            0 <= i < cores.len() ==> !((#[trigger] cores[i]).len() > 0 && cores[i][0] == '!'),
    decreases lines.len(),
{
    reveal(Seq::filter);
    if lines.len() > 0 {
        let front = lines.drop_last();
        let rest = cores.drop_last();
        assert forall|i: int| 0 <= i < front.len() implies is_trimmed(
            #[trigger] front[i],
            rest[i],
        ) by {
            assert(front[i] == lines[i] && rest[i] == cores[i]);
        }
        lemma_patterns(front, rest);
        assert(lines.last() == lines[lines.len() - 1]);
        lemma_trimmed(lines.last());
        lemma_one_core(lines.last(), |c: char| is_blank(c), cores.last(), trimmed(lines.last()));
        assert(forall|i: int| 0 <= i < rest.len() ==> #[trigger] rest[i] == cores[i]);
        if patterns_of(lines) is Ok {
            assert forall|i: int| 0 <= i < cores.len() implies !((#[trigger] cores[i]).len() > 0
                && cores[i][0] == '!') by {
                if i < rest.len() {
                    assert(rest[i] == cores[i]);
                }
            }
        }
    }
}

proof fn lemma_line_error(lines: Seq<Seq<char>>)
    ensures
        patterns_of(lines) matches Err(e) ==> e is InvalidIgnoreFile,
    decreases lines.len(),
{
    if lines.len() > 0 {
        lemma_line_error(lines.drop_last());
    }
}

/// What a file gives. One that is read gives the patterns of its lines, in their order:
/// the lines that are neither blank nor comments, without the white space around them.
/// It holds no negation. A file of more than sixty-four kilobytes is too large, and one
/// that is not UTF-8 or cannot be used otherwise is invalid.
pub open spec fn file_gives(
    bytes: Seq<u8>,
    lines: Seq<Seq<char>>,
    cores: Seq<Seq<char>>,
    result: Result<Option<Seq<Seq<char>>>, GitErrorView>,
) -> bool {
    &&& bytes.len() > 65536 ==> result == Err::<Option<Seq<Seq<char>>>, _>(
        GitErrorView::IgnoreFileTooLarge {
            path: ".ovgitignore"@,
            size: bytes.len(),
            max: 65536,
        },
    )
    &&& bytes.len() <= 65536 ==> (result matches Err(e) ==> e is InvalidIgnoreFile)
    &&& !valid_utf8(bytes) ==> result is Err
    &&& bytes.len() <= 65536 && are_lines(bytes, lines, cores) ==> {
        &&& result matches Ok(m) ==> {
            let patterns = cores.filter(|c: Seq<char>| is_pattern(c));
            &&& m == if patterns.len() == 0 {
                None
            } else {
                Some(patterns)
            }
            &&& forall|i: int|
                0 <= i < cores.len() ==> !((#[trigger] cores[i]).len() > 0 && cores[i][0] == '!')
        }
        &&& (forall|i: int|
            0 <= i < cores.len() ==> (#[trigger] cores[i]).len() == 0 || cores[i][0] == '#')
            ==> result is Ok
    }
}

/// A file gives what it has to.
pub proof fn lemma_file_gives(
    bytes: Seq<u8>,
    lines: Seq<Seq<char>>,
    cores: Seq<Seq<char>>,
    result: Result<Option<Seq<Seq<char>>>, GitErrorView>,
)
    requires
        crate::ignore::parses_to(bytes, result),
    ensures
        file_gives(bytes, lines, cores, result),
{
    lemma_line_error(split(decode_utf8(bytes), '\n'));
    if bytes.len() <= 65536 && are_lines(bytes, lines, cores) {
        lemma_one_split(decode_utf8(bytes), '\n', lines);
        lemma_patterns(lines, cores);
        if forall|i: int|
            0 <= i < cores.len() ==> (#[trigger] cores[i]).len() == 0 || cores[i][0] == '#' {
            assert forall|i: int| 0 <= i < lines.len() implies line_kind(#[trigger] lines[i])
                == IgnoreLineView::Blank by {
                lemma_trimmed(lines[i]);
                lemma_one_core(lines[i], |c: char| is_blank(c), cores[i], trimmed(lines[i]));
            }
            crate::ignore::law_blank_file(decode_utf8(bytes));
        }
    }
}

/// An ignore file gives the patterns of its lines.
pub proof fn law_ignore_file(
    bytes: &[u8],
    result: Result<IgnoreMatcher, GitError>,
    lines: Seq<Seq<char>>,
    cores: Seq<Seq<char>>,
)
    requires
        call_ensures(IgnoreMatcher::parse, (bytes,), result),
    ensures
        file_gives(
            bytes@,
            lines,
            cores,
            match result {
                Ok(m) => Ok(m@),
                Err(e) => Err(e@),
            },
        ),
{
    lemma_file_gives(
        bytes@,
        lines,
        cores,
        match result {
            Ok(m) => Ok(m@),
            Err(e) => Err(e@),
        },
    );
}

/// The text of an ignore file gives the patterns of its lines, and cannot be read where
/// one of them is a negation.
pub proof fn law_ignore_text(
    text: &str,
    result: Result<IgnoreMatcher, GitError>,
    lines: Seq<Seq<char>>,
    cores: Seq<Seq<char>>,
)
    requires
        call_ensures(IgnoreMatcher::parse_text, (text,), result),
        is_split(text@, '\n', lines),
        cores.len() == lines.len(),
        forall|i: int| 0 <= i < lines.len() ==> is_trimmed(#[trigger] lines[i], cores[i]),
    ensures
        match result {
            Ok(m) => {
                let patterns = cores.filter(|c: Seq<char>| is_pattern(c));
                &&& m@ == if patterns.len() == 0 {
                    None
                } else {
                    Some(patterns)
                }
                &&& forall|i: int|
                    0 <= i < cores.len() ==> !((#[trigger] cores[i]).len() > 0 && cores[i][0]
                        == '!')
            },
            Err(e) => e is InvalidIgnoreFile,
        },
{
    lemma_one_split(text@, '\n', lines);
    lemma_patterns(lines, cores);
    lemma_line_error(lines);
}

/// A matcher without patterns excludes nothing, and a copy excludes the same.
pub proof fn law_matchers(empty: IgnoreMatcher, m: IgnoreMatcher, copy: IgnoreMatcher)
    requires
        call_ensures(IgnoreMatcher::empty, (), empty),
        call_ensures(IgnoreMatcher::clone, (&m,), copy),
    ensures
        empty@ is None,
        copy@ == m@,
{
}

/// The errors about a file name it, the line and what is wrong with it.
pub proof fn law_ignore_errors(
    message: &str,
    number: u64,
    line: &str,
    utf8: GitError,
    negated: GitError,
    rejected: GitError,
)
    requires
        call_ensures(not_utf8, (message,), utf8),
        call_ensures(negated_line, (number, line), negated),
        call_ensures(rejected_line, (number, message), rejected),
    ensures
        utf8@ == (GitErrorView::InvalidIgnoreFile {
            path: ".ovgitignore"@,
            reason: "must be UTF-8: "@ + message@,
        }),
        exists|digits: Seq<char>|
            #![trigger writes_number(digits, number as int)]
            writes_number(digits, number as int) && negated@ == (GitErrorView::InvalidIgnoreFile {
                path: ".ovgitignore"@,
                reason: "line "@ + digits + " uses unsupported negation: "@ + line@,
            }) && rejected@ == (GitErrorView::InvalidIgnoreFile {
                path: ".ovgitignore"@,
                reason: "line "@ + digits + " is invalid: "@ + message@,
            }),
{
    lemma_decimal(number as nat);
    assert(writes_number(decimal(number as nat), number as int));
}

/// Whether a path is excluded does not depend on slashes around it. Without them, it is
/// excluded if and only if it is not empty, is not the ignore file, and one of the
/// patterns matches it.
pub proof fn law_is_ignored(matcher: IgnoreMatcher, path: &str, ignored: bool, core: Seq<char>)
    requires
        call_ensures(IgnoreMatcher::is_ignored, (&matcher, path), ignored),
        is_core(path@, |c: char| c == '/', core),
    ensures
        ignored <==> (matcher@ matches Some(patterns) && core.len() > 0 && core != ".ovgitignore"@
            && exists|i: int|
            0 <= i < patterns.len() && pattern_ignores(#[trigger] patterns[i], core)),
{
    let slash = |c: char| c == '/';
    lemma_core(path@, slash);
    lemma_one_core(path@, slash, core, without_slashes(path@));
}

/// A path is tracked if and only if it is the ignore file itself, or is neither kept by
/// the runtime nor excluded.
pub proof fn law_should_track(matcher: IgnoreMatcher, path: &str, ignored: bool, track: bool)
    requires
        call_ensures(IgnoreMatcher::is_ignored, (&matcher, path), ignored),
        call_ensures(should_track_path, (path, &matcher), track),
    ensures
        track <==> path@ == ".ovgitignore"@ || (!kept_by_runtime(path@) && !ignored),
{
    lemma_pruned(path@);
}

/// Where every line before it is blank, a comment or an accepted pattern, a negation is
/// reported by its number and as it stands there.
pub proof fn law_first_negation(
    bytes: &[u8],
    result: Result<IgnoreMatcher, GitError>,
    lines: Seq<Seq<char>>,
    cores: Seq<Seq<char>>,
    at: int,
)
    requires
        call_ensures(IgnoreMatcher::parse, (bytes,), result),
        bytes@.len() <= 65536,
        are_lines(bytes@, lines, cores),
        0 <= at < lines.len(),
        patterns_of(lines.take(at)) is Ok,
        cores[at].len() > 0,
        cores[at][0] == '!',
    ensures
        result matches Err(GitError::InvalidIgnoreFile { path, reason }) && path@
            == ".ovgitignore"@ && reason@ == "line "@ + decimal((at + 1) as nat)
            + " uses unsupported negation: "@ + cores[at],
{
    lemma_one_split(decode_utf8(bytes@), '\n', lines);
    lemma_trimmed(lines[at]);
    lemma_one_core(lines[at], |c: char| is_blank(c), cores[at], trimmed(lines[at]));
    let upto = lines.take(at + 1);
    assert(upto.drop_last() =~= lines.take(at));
    assert(upto.last() == lines[at]);
    assert(patterns_of(upto) is Err);
    crate::ignore::lemma_first_error(lines, at + 1);
    if let Err(e) = result {
        assert(crate::ignore::matcher_answer(result) == Err::<Option<Seq<Seq<char>>>, _>(e@));
    }
}

} // verus!
