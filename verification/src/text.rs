//! Text as sequences of characters: splitting, trimming, searching, decimal
//! numerals and the byte order of strings.

use vstd::prelude::*;

verus! {

/// `String::push` appends one character and changes nothing else.
pub assume_specification[ String::push ](s: &mut String, c: char)
    ensures
        final(s)@ == old(s)@.push(c),
;

// ---- Characters and strings ------------------------------------------------

/// The characters of each string of a list.
pub open spec fn views(list: Seq<String>) -> Seq<Seq<char>> {
    list.map_values(|s: String| s@)
}

/// The characters of `s`, in order.
pub fn chars_of(s: &str) -> (chars: Vec<char>)
    ensures
        chars@ == s@,
{
    let mut chars: Vec<char> = Vec::new();
    for c in it: s.chars()
        invariant
            it.seq() == s@,
            chars@ == s@.take(it.index() as int),
    {
        chars.push(c);
    }
    assert(s@.take(s@.len() as int) == s@);
    chars
}

/// The string made of `chars[from..to]`.
pub fn text_of(chars: &[char], from: usize, to: usize) -> (text: String)
    requires
        from <= to <= chars@.len(),
    ensures
        text@ == chars@.subrange(from as int, to as int),
{
    let mut text = String::new();
    let mut i: usize = from;
    while i < to
        invariant
            from <= i <= to <= chars@.len(),
            text@ == chars@.subrange(from as int, i as int),
        decreases to - i,
    {
        text.push(chars[i]);
        i = i + 1;
        assert(chars@.subrange(from as int, i as int) == chars@.subrange(
            from as int,
            i - 1,
        ).push(chars@[i - 1]));
    }
    text
}

/// Whether two strings hold the same characters.
pub fn same_text(a: &str, b: &str) -> (same: bool)
    ensures
        same == (a@ == b@),
{
    a.to_owned() == b.to_owned()
}

/// Two texts, one after the other.
pub fn cat2(a: &str, b: &str) -> (text: String)
    ensures
        text@ == a@ + b@,
{
    a.to_owned().concat(b)
}

/// Three texts, one after the other.
pub fn cat3(a: &str, b: &str, c: &str) -> (text: String)
    ensures
        text@ == a@ + b@ + c@,
{
    cat2(a, b).concat(c)
}

/// Four texts, one after the other.
pub fn cat4(a: &str, b: &str, c: &str, d: &str) -> (text: String)
    ensures
        text@ == a@ + b@ + c@ + d@,
{
    cat3(a, b, c).concat(d)
}

/// Five texts, one after the other.
pub fn cat5(a: &str, b: &str, c: &str, d: &str, e: &str) -> (text: String)
    ensures
        text@ == a@ + b@ + c@ + d@ + e@,
{
    cat4(a, b, c, d).concat(e)
}

// ---- Searching -------------------------------------------------------------

/// `needle` stands in `hay` at position `at`.
pub open spec fn stands_at(hay: Seq<char>, needle: Seq<char>, at: int) -> bool {
    &&& 0 <= at <= hay.len() - needle.len()
    &&& hay.subrange(at, at + needle.len()) == needle
}

/// `needle` occurs somewhere in `hay`.
pub open spec fn occurs(hay: Seq<char>, needle: Seq<char>) -> bool {
    exists|at: int| stands_at(hay, needle, at)
}

/// `hay` begins with `needle`.
pub open spec fn begins(hay: Seq<char>, needle: Seq<char>) -> bool {
    stands_at(hay, needle, 0)
}

/// `hay` ends with `needle`.
pub open spec fn finishes(hay: Seq<char>, needle: Seq<char>) -> bool {
    stands_at(hay, needle, hay.len() - needle.len())
}

fn stands_here(hay: &[char], needle: &[char], at: usize) -> (found: bool)
    requires
        at <= hay@.len(),
    ensures
        found == stands_at(hay@, needle@, at as int),
{
    let total: usize = hay.len();
    if needle.len() > total - at {
        return false;
    }
    let mut i: usize = 0;
    while i < needle.len()
        invariant
            at + needle@.len() <= hay@.len() == total,
            i <= needle@.len(),
            forall|j: int| 0 <= j < i ==> hay@[at + j] == needle@[j],
        decreases needle.len() - i,
    {
        if hay[at + i] != needle[i] {
            assert(hay@.subrange(at as int, at + needle@.len())[i as int] != needle@[i as int]);
            return false;
        }
        i = i + 1;
    }
    assert(hay@.subrange(at as int, at + needle@.len()) =~= needle@);
    true
}

/// Whether `needle` occurs in `hay`.
pub fn contains_text(hay: &str, needle: &str) -> (found: bool)
    ensures
        found == occurs(hay@, needle@),
{
    let h = chars_of(hay);
    let n = chars_of(needle);
    let mut at: usize = 0;
    while at < h.len()
        invariant
            h@ == hay@,
            n@ == needle@,
            at <= h@.len(),
            forall|j: int| 0 <= j < at ==> !stands_at(hay@, needle@, j),
        decreases h.len() - at,
    {
        if stands_here(h.as_slice(), n.as_slice(), at) {
            return true;
        }
        at = at + 1;
    }
    stands_here(h.as_slice(), n.as_slice(), at)
}

/// Whether `hay` begins with `needle`.
pub fn begins_with(hay: &str, needle: &str) -> (found: bool)
    ensures
        found == begins(hay@, needle@),
{
    let h = chars_of(hay);
    let n = chars_of(needle);
    stands_here(h.as_slice(), n.as_slice(), 0)
}

/// Whether `hay` ends with `needle`.
pub fn ends_with(hay: &str, needle: &str) -> (found: bool)
    ensures
        found == finishes(hay@, needle@),
{
    let h = chars_of(hay);
    let n = chars_of(needle);
    if n.len() > h.len() {
        return false;
    }
    stands_here(h.as_slice(), n.as_slice(), h.len() - n.len())
}

/// What follows `prefix` in `s`, where `s` begins with it.
pub fn strip_prefix(s: &str, prefix: &str) -> (rest: Option<String>)
    ensures
        match rest {
            Some(r) => begins(s@, prefix@) && r@ == s@.skip(prefix@.len() as int),
            None => !begins(s@, prefix@),
        },
{
    let chars = chars_of(s);
    let p = chars_of(prefix);
    if stands_here(chars.as_slice(), p.as_slice(), 0) {
        Some(text_of(chars.as_slice(), p.len(), chars.len()))
    } else {
        None
    }
}

// ---- Trimming --------------------------------------------------------------

/// The characters with the Unicode property `White_Space`.
pub open spec fn white_space(c: char) -> bool {
    ||| 0x09 <= c as u32 <= 0x0d
    ||| c as u32 == 0x20
    ||| c as u32 == 0x85
    ||| c as u32 == 0xa0
    ||| c as u32 == 0x1680
    ||| 0x2000 <= c as u32 <= 0x200a
    ||| c as u32 == 0x2028
    ||| c as u32 == 0x2029
    ||| c as u32 == 0x202f
    ||| c as u32 == 0x205f
    ||| c as u32 == 0x3000
}

fn is_white_space(c: char) -> (yes: bool)
    ensures
        yes == white_space(c),
{
    let n: u32 = c as u32;
    (0x09 <= n && n <= 0x0d) || n == 0x20 || n == 0x85 || n == 0xa0 || n == 0x1680 || (0x2000 <= n
        && n <= 0x200a) || n == 0x2028 || n == 0x2029 || n == 0x202f || n == 0x205f || n == 0x3000
}

/// The end of the last run: `s` without the characters at its end for which
/// `drop` holds.
pub open spec fn trim_end_by(s: Seq<char>, drop: spec_fn(char) -> bool) -> Seq<char>
    decreases s.len(),
{
    if s.len() > 0 && drop(s.last()) {
        trim_end_by(s.drop_last(), drop)
    } else {
        s
    }
}

/// `s` without the characters at its start for which `drop` holds.
pub open spec fn trim_start_by(s: Seq<char>, drop: spec_fn(char) -> bool) -> Seq<char>
    decreases s.len(),
{
    if s.len() > 0 && drop(s.first()) {
        trim_start_by(s.drop_first(), drop)
    } else {
        s
    }
}

/// `s` without white space at either end.
pub open spec fn trimmed(s: Seq<char>) -> Seq<char> {
    trim_end_by(trim_start_by(s, |c: char| white_space(c)), |c: char| white_space(c))
}

/// `s` without `/` at its end.
pub open spec fn without_end_slashes(s: Seq<char>) -> Seq<char> {
    trim_end_by(s, |c: char| c == '/')
}

/// `s` without `/` at either end.
pub open spec fn without_slashes(s: Seq<char>) -> Seq<char> {
    without_end_slashes(trim_start_by(s, |c: char| c == '/'))
}

/// `s` without white space at either end.
pub fn trim(s: &str) -> (t: String)
    ensures
        t@ == trimmed(s@),
{
    let chars = chars_of(s);
    let ghost drop = |c: char| white_space(c);
    let mut from: usize = 0;
    assert(s@.skip(0) == s@);
    while from < chars.len() && is_white_space(chars[from])
        invariant
            chars@ == s@,
            drop == (|c: char| white_space(c)),
            from <= chars@.len(),
            trim_start_by(s@, drop) == trim_start_by(s@.skip(from as int), drop),
        decreases chars.len() - from,
    {
        assert(s@.skip(from as int).drop_first() == s@.skip(from + 1));
        from = from + 1;
    }
    let ghost rest = s@.skip(from as int);
    assert(trim_start_by(s@, drop) == rest);
    let mut to: usize = chars.len();
    assert(s@.subrange(from as int, to as int) == rest);
    while to > from && is_white_space(chars[to - 1])
        invariant
            chars@ == s@,
            drop == (|c: char| white_space(c)),
            from <= to <= chars@.len(),
            trim_end_by(rest, drop) == trim_end_by(s@.subrange(from as int, to as int), drop),
        decreases to,
    {
        assert(s@.subrange(from as int, to as int).drop_last() == s@.subrange(
            from as int,
            to - 1,
        ));
        to = to - 1;
    }
    text_of(chars.as_slice(), from, to)
}

/// `s` without `/` at its end.
pub fn trim_end_slashes(s: &str) -> (t: String)
    ensures
        t@ == without_end_slashes(s@),
{
    let chars = chars_of(s);
    let ghost drop = |c: char| c == '/';
    let mut to: usize = chars.len();
    assert(s@.subrange(0, to as int) == s@);
    while to > 0 && chars[to - 1] == '/'
        invariant
            chars@ == s@,
            drop == (|c: char| c == '/'),
            to <= chars@.len(),
            trim_end_by(s@, drop) == trim_end_by(s@.subrange(0, to as int), drop),
        decreases to,
    {
        assert(s@.subrange(0, to as int).drop_last() == s@.subrange(0, to - 1));
        to = to - 1;
    }
    text_of(chars.as_slice(), 0, to)
}

/// `s` without `/` at either end.
pub fn trim_slashes(s: &str) -> (t: String)
    ensures
        t@ == without_slashes(s@),
{
    let chars = chars_of(s);
    let ghost drop = |c: char| c == '/';
    let mut from: usize = 0;
    assert(s@.skip(0) == s@);
    while from < chars.len() && chars[from] == '/'
        invariant
            chars@ == s@,
            drop == (|c: char| c == '/'),
            from <= chars@.len(),
            trim_start_by(s@, drop) == trim_start_by(s@.skip(from as int), drop),
        decreases chars.len() - from,
    {
        assert(s@.skip(from as int).drop_first() == s@.skip(from + 1));
        from = from + 1;
    }
    let rest = text_of(chars.as_slice(), from, chars.len());
    assert(rest@ == s@.skip(from as int));
    trim_end_slashes(rest.as_str())
}

proof fn lemma_trim_end(s: Seq<char>, drop: spec_fn(char) -> bool)
    ensures
        trim_end_by(s, drop).len() <= s.len(),
        trim_end_by(s, drop) == s.take(trim_end_by(s, drop).len() as int),
        trim_end_by(s, drop).len() > 0 ==> !drop(trim_end_by(s, drop).last()),
        s.len() > 0 && !drop(s.first()) ==> trim_end_by(s, drop).len() > 0,
    decreases s.len(),
{
    if s.len() > 0 && drop(s.last()) {
        lemma_trim_end(s.drop_last(), drop);
        let n = trim_end_by(s, drop).len() as int;
        assert(s.drop_last().take(n) =~= s.take(n));
    } else {
        assert(s.take(s.len() as int) =~= s);
    }
}

proof fn lemma_trim_start(s: Seq<char>, drop: spec_fn(char) -> bool)
    ensures
        trim_start_by(s, drop).len() > 0 ==> !drop(trim_start_by(s, drop).first()),
    decreases s.len(),
{
    if s.len() > 0 && drop(s.first()) {
        lemma_trim_start(s.drop_first(), drop);
    }
}

/// Trimming a second time changes nothing.
pub proof fn lemma_trimmed_twice(s: Seq<char>)
    ensures
        trimmed(trimmed(s)) == trimmed(s),
{
    let drop = |c: char| white_space(c);
    let front = trim_start_by(s, drop);
    lemma_trim_start(s, drop);
    lemma_trim_end(front, drop);
    let t = trimmed(s);
    if t.len() > 0 {
        assert(t[0] == front[0]);
        assert(trim_start_by(t, drop) == t);
    }
}

/// What is left of a text without its slashes at either end does not begin with
/// one.
pub proof fn lemma_no_leading_slash(s: Seq<char>)
    ensures
        without_slashes(s).len() > 0 ==> without_slashes(s)[0] != '/',
{
    let drop = |c: char| c == '/';
    let front = trim_start_by(s, drop);
    lemma_trim_start(s, drop);
    lemma_trim_end(front, drop);
    if without_slashes(s).len() > 0 {
        assert(without_slashes(s)[0] == front[0]);
    }
}

/// A text without slashes at its ends stays as it is without them.
pub proof fn lemma_no_slashes_at_the_ends(s: Seq<char>)
    requires
        s.len() > 0,
        s.first() != '/',
        s.last() != '/',
    ensures
        without_slashes(s) == s,
{
}

// ---- Splitting -------------------------------------------------------------

/// The pieces of `s` between the occurrences of `sep`: one more than there are
/// occurrences.
pub open spec fn split(s: Seq<char>, sep: char) -> Seq<Seq<char>>
    decreases s.len(),
{
    if s.len() == 0 {
        seq![Seq::empty()]
    } else {
        let before = split(s.drop_last(), sep);
        if s.last() == sep {
            before.push(Seq::empty())
        } else {
            before.update(before.len() - 1, before.last().push(s.last()))
        }
    }
}

/// The pieces with `sep` between each two.
pub open spec fn join(pieces: Seq<Seq<char>>, sep: char) -> Seq<char>
    decreases pieces.len(),
{
    if pieces.len() == 0 {
        Seq::empty()
    } else if pieces.len() == 1 {
        pieces[0]
    } else {
        join(pieces.drop_last(), sep).push(sep) + pieces.last()
    }
}

/// There is always at least one piece.
pub proof fn lemma_split_len(s: Seq<char>, sep: char)
    ensures
        split(s, sep).len() >= 1,
    decreases s.len(),
{
    if s.len() > 0 {
        lemma_split_len(s.drop_last(), sep);
    }
}

/// Two texts with the separator between them have the pieces of both.
pub proof fn lemma_split_parts(a: Seq<char>, b: Seq<char>, sep: char)
    ensures
        split(a.push(sep) + b, sep) == split(a, sep) + split(b, sep),
    decreases b.len(),
{
    let whole = a.push(sep) + b;
    if b.len() == 0 {
        assert(whole =~= a.push(sep));
        assert(whole.drop_last() =~= a);
    } else {
        let front = b.drop_last();
        assert(whole.drop_last() =~= a.push(sep) + front);
        lemma_split_parts(a, front, sep);
        lemma_split_len(front, sep);
        assert(split(whole, sep) =~= split(a, sep) + split(b, sep));
    }
}

/// A text without the separator is one piece.
pub proof fn lemma_split_one(s: Seq<char>, sep: char)
    requires
        !s.contains(sep),
    ensures
        split(s, sep) == seq![s],
    decreases s.len(),
{
    if s.len() > 0 {
        let front = s.drop_last();
        assert(s.last() == s[s.len() - 1]);
        assert(!front.contains(sep)) by {
            if front.contains(sep) {
                let i = choose|i: int| 0 <= i < front.len() && front[i] == sep;
                assert(s[i] == sep);
            }
        }
        lemma_split_one(front, sep);
        assert(front.push(s.last()) =~= s);
        assert(split(s, sep) =~= seq![s]);
    } else {
        assert(s =~= Seq::<char>::empty());
    }
}

/// No piece holds the separator.
pub proof fn lemma_split_free(s: Seq<char>, sep: char)
    ensures
        forall|i: int| 0 <= i < split(s, sep).len() ==> !(#[trigger] split(s, sep)[i]).contains(sep),
    decreases s.len(),
{
    if s.len() > 0 {
        let before = split(s.drop_last(), sep);
        lemma_split_free(s.drop_last(), sep);
        lemma_split_len(s.drop_last(), sep);
        assert forall|i: int| 0 <= i < split(s, sep).len() implies !(#[trigger] split(
            s,
            sep,
        )[i]).contains(sep) by {
            if s.last() != sep && i == before.len() - 1 {
                let piece = split(s, sep)[i];
                assert(piece == before.last().push(s.last()));
                if piece.contains(sep) {
                    let k = choose|k: int| 0 <= k < piece.len() && piece[k] == sep;
                    assert(k < before.last().len());
                    assert(before.last().contains(sep));
                }
            } else if i < before.len() {
                assert(split(s, sep)[i] == before[i]);
            }
        }
    }
}

/// Joining the pieces gives the text back.
pub proof fn lemma_join_split(s: Seq<char>, sep: char)
    ensures
        join(split(s, sep), sep) == s,
    decreases s.len(),
{
    if s.len() > 0 {
        let before = split(s.drop_last(), sep);
        lemma_join_split(s.drop_last(), sep);
        lemma_split_len(s.drop_last(), sep);
        if s.last() == sep {
            assert(before.push(Seq::empty()).drop_last() == before);
            assert(join(split(s, sep), sep) =~= s);
        } else {
            let after = split(s, sep);
            assert(after.drop_last() == before.drop_last());
            if before.len() > 1 {
                assert(join(before, sep) == join(before.drop_last(), sep).push(sep)
                    + before.last());
                assert(join(after, sep) == join(before.drop_last(), sep).push(sep)
                    + before.last().push(s.last()));
            }
            assert(join(after, sep) =~= join(before, sep).push(s.last()));
            assert(s.drop_last().push(s.last()) =~= s);
        }
    }
}

/// No text of the list holds `sep`.
pub open spec fn free_of(pieces: Seq<Seq<char>>, sep: char) -> bool {
    forall|i: int| 0 <= i < pieces.len() ==> !(#[trigger] pieces[i]).contains(sep)
}

proof fn lemma_split_push(front: Seq<char>, sep: char, piece: Seq<char>)
    requires
        !piece.contains(sep),
    ensures
        split(front.push(sep) + piece, sep) == split(front, sep).push(piece),
    decreases piece.len(),
{
    let whole = front.push(sep) + piece;
    if piece.len() == 0 {
        assert(whole =~= front.push(sep));
        assert(whole.drop_last() =~= front);
        assert(piece =~= Seq::<char>::empty());
    } else {
        let shorter = piece.drop_last();
        assert(!shorter.contains(sep)) by {
            if shorter.contains(sep) {
                let k = choose|k: int| 0 <= k < shorter.len() && shorter[k] == sep;
                assert(piece[k] == sep);
            }
        }
        lemma_split_push(front, sep, shorter);
        assert(whole.drop_last() =~= front.push(sep) + shorter);
        assert(whole.last() == piece.last());
        assert(piece.contains(piece.last()));
        let before = split(front, sep).push(shorter);
        assert(shorter.push(piece.last()) =~= piece);
        assert(before.update(before.len() - 1, piece) =~= split(front, sep).push(piece));
    }
}

proof fn lemma_split_single(piece: Seq<char>, sep: char)
    requires
        !piece.contains(sep),
    ensures
        split(piece, sep) == seq![piece],
    decreases piece.len(),
{
    if piece.len() == 0 {
        assert(piece =~= Seq::<char>::empty());
    } else {
        let shorter = piece.drop_last();
        assert(!shorter.contains(sep)) by {
            if shorter.contains(sep) {
                let k = choose|k: int| 0 <= k < shorter.len() && shorter[k] == sep;
                assert(piece[k] == sep);
            }
        }
        lemma_split_single(shorter, sep);
        assert(piece.contains(piece.last()));
        assert(shorter.push(piece.last()) =~= piece);
        assert(seq![shorter].update(0, piece) =~= seq![piece]);
    }
}

/// Splitting what was joined gives the pieces back.
pub proof fn lemma_split_join(pieces: Seq<Seq<char>>, sep: char)
    requires
        pieces.len() > 0,
        free_of(pieces, sep),
    ensures
        split(join(pieces, sep), sep) == pieces,
    decreases pieces.len(),
{
    if pieces.len() == 1 {
        lemma_split_single(pieces[0], sep);
        assert(pieces =~= seq![pieces[0]]);
    } else {
        let front = pieces.drop_last();
        assert forall|i: int| 0 <= i < front.len() implies !(#[trigger] front[i]).contains(sep) by {
            assert(front[i] == pieces[i]);
        }
        lemma_split_join(front, sep);
        lemma_split_push(join(front, sep), sep, pieces.last());
        assert(front.push(pieces.last()) =~= pieces);
    }
}

/// The pieces of `s` between the occurrences of `sep`.
pub fn split_on(s: &str, sep: char) -> (pieces: Vec<String>)
    ensures
        views(pieces@) == split(s@, sep),
{
    let mut pieces: Vec<String> = Vec::new();
    let mut piece = String::new();
    assert(s@.take(0) == Seq::<char>::empty());
    assert(views(pieces@).push(piece@) =~= split(s@.take(0), sep));
    for c in it: s.chars()
        invariant
            it.seq() == s@,
            views(pieces@).push(piece@) == split(s@.take(it.index() as int), sep),
    {
        let ghost i = it.index() as int;
        assert(s@.take(i + 1).drop_last() == s@.take(i));
        assert(s@.take(i + 1).last() == c);
        let ghost before = views(pieces@).push(piece@);
        if c == sep {
            let mut done = String::new();
            std::mem::swap(&mut done, &mut piece);
            pieces.push(done);
            assert(views(pieces@) =~= before);
        } else {
            piece.push(c);
            assert(views(pieces@).push(piece@) =~= before.update(
                before.len() - 1,
                before.last().push(c),
            ));
        }
    }
    assert(s@.take(s@.len() as int) == s@);
    let ghost before = views(pieces@);
    let ghost last = piece@;
    pieces.push(piece);
    assert(views(pieces@) =~= before.push(last));
    pieces
}

/// The pieces with `sep` between each two.
pub open spec fn join_with(pieces: Seq<Seq<char>>, sep: Seq<char>) -> Seq<char>
    decreases pieces.len(),
{
    if pieces.len() == 0 {
        Seq::empty()
    } else if pieces.len() == 1 {
        pieces[0]
    } else {
        join_with(pieces.drop_last(), sep) + sep + pieces.last()
    }
}

/// The texts with `sep` between each two.
pub fn join_texts(pieces: &Vec<String>, sep: &str) -> (joined: String)
    ensures
        joined@ == join_with(views(pieces@), sep@),
{
    let mut joined = String::new();
    let mut i: usize = 0;
    let ghost all = views(pieces@);
    assert(all.take(0) =~= Seq::<Seq<char>>::empty());
    while i < pieces.len()
        invariant
            i <= pieces@.len(),
            all == views(pieces@),
            joined@ == join_with(all.take(i as int), sep@),
        decreases pieces.len() - i,
    {
        let ghost after = all.take(i + 1);
        assert(after.drop_last() =~= all.take(i as int));
        assert(after.last() == pieces@[i as int]@);
        if i > 0 {
            joined.append(sep);
        }
        joined.append(pieces[i].as_str());
        assert(joined@ =~= join_with(after, sep@));
        i = i + 1;
    }
    assert(all.take(i as int) =~= all);
    joined
}

// ---- Case --------------------------------------------------------------------

/// The character with an upper-case ASCII letter made lower-case.
pub open spec fn ascii_lower(c: char) -> char {
    if 'A' <= c <= 'Z' {
        (c as u32 + 32) as u32 as char
    } else {
        c
    }
}

/// The text with every upper-case ASCII letter made lower-case.
pub open spec fn lowered(s: Seq<char>) -> Seq<char> {
    s.map_values(|c: char| ascii_lower(c))
}

/// `s` with every upper-case ASCII letter made lower-case.
pub fn to_ascii_lowercase(s: &str) -> (t: String)
    ensures
        t@ == lowered(s@),
{
    let chars = chars_of(s);
    let mut t = String::new();
    let mut i: usize = 0;
    while i < chars.len()
        invariant
            chars@ == s@,
            i <= chars@.len(),
            t@ == lowered(s@.take(i as int)),
        decreases chars.len() - i,
    {
        let c = chars[i];
        let l: char = if 'A' <= c && c <= 'Z' {
            (c as u8 + 32u8) as char
        } else {
            c
        };
        assert(l == ascii_lower(c));
        t.push(l);
        i = i + 1;
        assert(lowered(s@.take(i as int)) =~= lowered(s@.take(i - 1)).push(l));
    }
    assert(s@.take(i as int) =~= s@);
    t
}

// ---- Decimal numerals ------------------------------------------------------

/// The digit `d` as a character.
pub open spec fn digit(d: nat) -> char {
    (0x30 + d) as u32 as char
}

/// `n` in decimal, without leading zeros.
pub open spec fn decimal(n: nat) -> Seq<char>
    decreases n,
{
    if n < 10 {
        seq![digit(n)]
    } else {
        decimal(n / 10).push(digit(n % 10))
    }
}

/// `n` in decimal.
pub fn decimal_text(n: u64) -> (text: String)
    ensures
        text@ == decimal(n as nat),
    decreases n,
{
    if n < 10 {
        let mut text = String::new();
        text.push((0x30u8 + n as u8) as char);
        assert(text@ =~= seq![digit(n as nat)]);
        text
    } else {
        let mut text = decimal_text(n / 10);
        text.push((0x30u8 + (n % 10) as u8) as char);
        text
    }
}

} // verus!
