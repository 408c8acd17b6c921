//! What the operations on texts are for.

use crate::order::text_before;
use crate::text::{
    begins_with, contains_text, decimal_text, ends_with, join_texts, split_on, strip_prefix,
    to_ascii_lowercase, trim, trim_end_slashes, trim_slashes,
};
use vstd::prelude::*;
use vstd::utf8::encode_utf8;

verus! {

/// The part of a text from `at` on, as long as `part`, is `part`.
pub open spec fn holds_at(text: Seq<char>, part: Seq<char>, at: int) -> bool {
    &&& 0 <= at
    &&& at + part.len() <= text.len()
    &&& forall|i: int| 0 <= i < part.len() ==> text[at + i] == #[trigger] part[i]
}

pub proof fn lemma_holds_at(text: Seq<char>, part: Seq<char>, at: int)
    ensures
        holds_at(text, part, at) <==> crate::text::stands_at(text, part, at),
{
    if crate::text::stands_at(text, part, at) {
        assert forall|i: int| 0 <= i < part.len() implies text[at + i] == #[trigger] part[i] by {
            assert(text.subrange(at, at + part.len())[i] == part[i]);
        }
    }
    if holds_at(text, part, at) {
        assert(text.subrange(at, at + part.len()) =~= part);
    }
}

/// A text begins with another where its first characters are those of the other.
pub proof fn law_begins_with(text: &str, part: &str, found: bool)
    requires
        call_ensures(begins_with, (text, part), found),
    ensures
        found <==> holds_at(text@, part@, 0),
{
    lemma_holds_at(text@, part@, 0);
}

/// A text ends with another where its last characters are those of the other.
pub proof fn law_ends_with(text: &str, part: &str, found: bool)
    requires
        call_ensures(ends_with, (text, part), found),
    ensures
        found <==> holds_at(text@, part@, text@.len() - part@.len()),
{
    lemma_holds_at(text@, part@, text@.len() - part@.len());
}

/// A text contains another where the characters of the other stand in it somewhere.
pub proof fn law_contains_text(text: &str, part: &str, found: bool)
    requires
        call_ensures(contains_text, (text, part), found),
    ensures
        found <==> exists|at: int| holds_at(text@, part@, at),
{
    assert forall|at: int|
        holds_at(text@, part@, at) <==> #[trigger] crate::text::stands_at(text@, part@, at) by {
        lemma_holds_at(text@, part@, at);
    }
    if crate::text::occurs(text@, part@) {
        let at = choose|at: int| crate::text::stands_at(text@, part@, at);
        assert(holds_at(text@, part@, at));
    }
    if exists|at: int| holds_at(text@, part@, at) {
        let at = choose|at: int| holds_at(text@, part@, at);
        assert(crate::text::stands_at(text@, part@, at));
    }
}

/// What is left without a prefix is what has to be put behind the prefix to have the
/// text again; there is nothing where the text does not begin with it.
pub proof fn law_strip_prefix(text: &str, prefix: &str, rest: Option<String>)
    requires
        call_ensures(strip_prefix, (text, prefix), rest),
    ensures
        match rest {
            Some(r) => text@ == prefix@ + r@,
            None => forall|r: Seq<char>| text@ != #[trigger] (prefix@ + r),
        },
{
    match rest {
        Some(r) => {
            assert(text@ =~= text@.subrange(0, prefix@.len() as int) + r@);
        },
        None => {
            assert forall|r: Seq<char>| text@ != #[trigger] (prefix@ + r) by {
                if text@ == prefix@ + r {
                    assert(text@.subrange(0, prefix@.len() as int) =~= prefix@);
                }
            }
        },
    }
}

/// White space, as Unicode has it.
pub open spec fn is_blank(c: char) -> bool {
    let n = c as u32;
    ||| n == 0x09 || n == 0x0a || n == 0x0b || n == 0x0c || n == 0x0d || n == 0x20
    ||| n == 0x85 || n == 0xa0 || n == 0x1680 || (0x2000 <= n && n <= 0x200a)
    ||| n == 0x2028 || n == 0x2029 || n == 0x202f || n == 0x205f || n == 0x3000
}

/// Every character of the text is of the kind.
pub open spec fn all_are(text: Seq<char>, kind: spec_fn(char) -> bool) -> bool {
    forall|i: int| 0 <= i < text.len() ==> kind(#[trigger] text[i])
}

/// `core` is what is left of a text once all characters of a kind are taken off at
/// both ends.
pub open spec fn is_core(text: Seq<char>, kind: spec_fn(char) -> bool, core: Seq<char>) -> bool {
    exists|front: Seq<char>, back: Seq<char>|
        {
            &&& text == #[trigger] (front + core + back)
            &&& all_are(front, kind)
            &&& all_are(back, kind)
            &&& core.len() > 0 ==> !kind(core[0]) && !kind(core[core.len() - 1])
        }
}

pub proof fn lemma_cut_end(s: Seq<char>, kind: spec_fn(char) -> bool) -> (back: Seq<char>)
    ensures
        s == crate::text::trim_end_by(s, kind) + back,
        all_are(back, kind),
        crate::text::trim_end_by(s, kind).len() > 0 ==> !kind(
            crate::text::trim_end_by(s, kind).last(),
        ),
    decreases s.len(),
{
    if s.len() > 0 && kind(s.last()) {
        let before = lemma_cut_end(s.drop_last(), kind);
        let back = before.push(s.last());
        assert(s =~= s.drop_last().push(s.last()));
        assert(s =~= crate::text::trim_end_by(s, kind) + back);
        back
    } else {
        assert(s =~= s + Seq::<char>::empty());
        Seq::empty()
    }
}

proof fn lemma_cut_start(s: Seq<char>, kind: spec_fn(char) -> bool) -> (front: Seq<char>)
    ensures
        s == front + crate::text::trim_start_by(s, kind),
        all_are(front, kind),
        crate::text::trim_start_by(s, kind).len() > 0 ==> !kind(
            crate::text::trim_start_by(s, kind).first(),
        ),
    decreases s.len(),
{
    if s.len() > 0 && kind(s.first()) {
        let behind = lemma_cut_start(s.drop_first(), kind);
        let front = seq![s.first()] + behind;
        assert(s =~= seq![s.first()] + s.drop_first());
        assert(s =~= front + crate::text::trim_start_by(s, kind));
        assert forall|i: int| 0 <= i < front.len() implies kind(#[trigger] front[i]) by {
            if i > 0 {
                assert(front[i] == behind[i - 1]);
            }
        }
        front
    } else {
        assert(s =~= Seq::<char>::empty() + s);
        Seq::empty()
    }
}

pub proof fn lemma_core(s: Seq<char>, kind: spec_fn(char) -> bool)
    ensures
        is_core(s, kind, crate::text::trim_end_by(crate::text::trim_start_by(s, kind), kind)),
{
    let rest = crate::text::trim_start_by(s, kind);
    let core = crate::text::trim_end_by(rest, kind);
    let front = lemma_cut_start(s, kind);
    let back = lemma_cut_end(rest, kind);
    assert(s =~= front + core + back);
    if core.len() > 0 {
        assert(core[0] == rest[0]);
    }
}

/// `core` is what is left of a text without the white space around it.
pub open spec fn is_trimmed(text: Seq<char>, core: Seq<char>) -> bool {
    is_core(text, |c: char| is_blank(c), core)
}

/// Trimming takes off the white space at both ends, all of it and nothing else.
pub proof fn law_trim(text: &str, trimmed: String)
    requires
        call_ensures(trim, (text,), trimmed),
    ensures
        is_trimmed(text@, trimmed@),
{
    lemma_trimmed(text@);
}

/// What is left of a text without white space around it.
pub proof fn lemma_trimmed(text: Seq<char>)
    ensures
        is_trimmed(text, crate::text::trimmed(text)),
{
    let kind = |c: char| is_blank(c);
    let other = |c: char| crate::text::white_space(c);
    assert forall|c: char| kind(c) == #[trigger] other(c) by {}
    assert(kind =~= other);
    lemma_core(text, kind);
}

/// Slashes are taken off at both ends, all of them and nothing else.
pub proof fn law_trim_slashes(text: &str, rest: String)
    requires
        call_ensures(trim_slashes, (text,), rest),
    ensures
        is_core(text@, |c: char| c == '/', rest@),
{
    lemma_core(text@, |c: char| c == '/');
}

/// Slashes are taken off at the end, all of them and nothing else.
pub proof fn law_trim_end_slashes(text: &str, rest: String)
    requires
        call_ensures(trim_end_slashes, (text,), rest),
    ensures
        rest@.len() > 0 ==> rest@[rest@.len() - 1] != '/',
        exists|back: Seq<char>| text@ == #[trigger] (rest@ + back) && all_are(back, |c: char| c == '/'),
{
    let back = lemma_cut_end(text@, |c: char| c == '/');
    assert(text@ == rest@ + back);
}

/// A text is its pieces with the separator between each two, and no piece holds the
/// separator.
pub open spec fn is_split(text: Seq<char>, sep: char, pieces: Seq<Seq<char>>) -> bool
    decreases pieces.len(),
{
    &&& pieces.len() > 0
    &&& !pieces.last().contains(sep)
    &&& if pieces.len() == 1 {
        text == pieces[0]
    } else {
        let cut = text.len() - pieces.last().len() - 1;
        &&& cut >= 0
        &&& text.skip(cut) == seq![sep] + pieces.last()
        &&& is_split(text.take(cut), sep, pieces.drop_last())
    }
}

/// The pieces of a text are what they have to be.
pub proof fn lemma_split_is_split(text: Seq<char>, sep: char)
    ensures
        is_split(text, sep, crate::text::split(text, sep)),
{
    let pieces = crate::text::split(text, sep);
    crate::text::lemma_split_len(text, sep);
    crate::text::lemma_split_free(text, sep);
    crate::text::lemma_join_split(text, sep);
    lemma_joined_is_split(pieces, sep);
}

proof fn lemma_joined_is_split(pieces: Seq<Seq<char>>, sep: char)
    requires
        pieces.len() > 0,
        forall|i: int| 0 <= i < pieces.len() ==> !(#[trigger] pieces[i]).contains(sep),
    ensures
        is_split(crate::text::join(pieces, sep), sep, pieces),
    decreases pieces.len(),
{
    assert(pieces.last() == pieces[pieces.len() - 1]);
    if pieces.len() > 1 {
        let front = pieces.drop_last();
        assert forall|i: int| 0 <= i < front.len() implies !(#[trigger] front[i]).contains(sep) by {
            assert(front[i] == pieces[i]);
        }
        lemma_joined_is_split(front, sep);
        let text = crate::text::join(pieces, sep);
        let cut = crate::text::join(front, sep).len() as int;
        assert(text.skip(cut) =~= seq![sep] + pieces.last());
        assert(text.take(cut) =~= crate::text::join(front, sep));
    }
}

/// Splitting gives the pieces between the separators.
pub proof fn law_split_on(text: &str, sep: char, pieces: Vec<String>)
    requires
        call_ensures(split_on, (text, sep), pieces),
    ensures
        is_split(text@, sep, pieces@.map_values(|s: String| s@)),
{
    lemma_split_is_split(text@, sep);
    assert(pieces@.map_values(|s: String| s@) == crate::text::views(pieces@));
}

/// No texts join to nothing and one to itself; and two lists of them, to what the one
/// and the other join to with the separator between.
pub proof fn law_join_texts(
    a: Vec<String>,
    b: Vec<String>,
    both: Vec<String>,
    sep: &str,
    x: String,
    y: String,
    z: String,
)
    requires
        call_ensures(join_texts, (&a, sep), x),
        call_ensures(join_texts, (&b, sep), y),
        call_ensures(join_texts, (&both, sep), z),
        both@ == a@ + b@,
    ensures
        a@.len() == 0 ==> x@.len() == 0,
        a@.len() == 1 ==> x@ == a@[0]@,
        a@.len() > 0 && b@.len() > 0 ==> z@ == x@ + sep@ + y@,
{
    let p = crate::text::views(a@);
    let q = crate::text::views(b@);
    assert(crate::text::views(both@) =~= p + q);
    if a@.len() > 0 && b@.len() > 0 {
        lemma_join_two(p, q, sep@);
    }
}

proof fn lemma_join_two(p: Seq<Seq<char>>, q: Seq<Seq<char>>, sep: Seq<char>)
    requires
        p.len() > 0,
        q.len() > 0,
    ensures
        crate::text::join_with(p + q, sep) == crate::text::join_with(p, sep) + sep
            + crate::text::join_with(q, sep),
    decreases q.len(),
{
    assert((p + q).drop_last() =~= p + q.drop_last());
    if q.len() == 1 {
        assert((p + q).drop_last() =~= p);
    } else {
        lemma_join_two(p, q.drop_last(), sep);
    }
    assert(crate::text::join_with(p + q, sep) =~= crate::text::join_with(p, sep) + sep
        + crate::text::join_with(q, sep));
}

/// Lower case changes the letters from A to Z, each to the one thirty-two on, and
/// no other character.
pub proof fn law_to_ascii_lowercase(text: &str, lower: String)
    requires
        call_ensures(to_ascii_lowercase, (text,), lower),
    ensures
        lower@.len() == text@.len(),
        forall|i: int|
            0 <= i < text@.len() ==> (#[trigger] lower@[i]) as int == if 0x41 <= text@[i] as int
                <= 0x5a {
                text@[i] as int + 32
            } else {
                text@[i] as int
            },
{
}

/// The number that decimal digits write.
pub open spec fn read_decimal(digits: Seq<char>) -> int
    decreases digits.len(),
{
    if digits.len() == 0 {
        0
    } else {
        10 * read_decimal(digits.drop_last()) + (digits.last() as int - 0x30)
    }
}

/// A number is written by digits that write it, the first of which is no zero unless
/// it is the only one.
pub open spec fn writes_number(digits: Seq<char>, n: int) -> bool {
    &&& digits.len() > 0
    &&& all_are(digits, |c: char| 0x30 <= c as u32 && c as u32 <= 0x39)
    &&& digits[0] == '0' ==> digits.len() == 1
    &&& read_decimal(digits) == n
}

/// Decimal numerals are what they have to be.
pub proof fn lemma_decimal(n: nat)
    ensures
        writes_number(crate::text::decimal(n), n as int),
        n > 0 ==> crate::text::decimal(n)[0] != '0',
    decreases n,
{
    let digits = crate::text::decimal(n);
    if n < 10 {
        assert(digits.drop_last() =~= Seq::<char>::empty());
        assert(read_decimal(digits.drop_last()) == 0);
        assert(digits.last() as int == 0x30 + n);
    } else {
        lemma_decimal(n / 10);
        let front = crate::text::decimal(n / 10);
        assert(digits.drop_last() =~= front);
        assert(digits[0] == front[0]);
        assert(digits.last() as int == 0x30 + n % 10);
    }
}

/// A number is written in decimal.
pub proof fn law_decimal_text(n: u64, digits: String)
    requires
        call_ensures(decimal_text, (n,), digits),
    ensures
        writes_number(digits@, n as int),
{
    lemma_decimal(n as nat);
}

/// One text comes before another where it is a beginning of it, or at the first byte
/// at which they differ has the smaller one.
pub open spec fn comes_before(a: Seq<char>, b: Seq<char>) -> bool {
    let x = encode_utf8(a);
    let y = encode_utf8(b);
    exists|n: int|
        {
            &&& 0 <= n <= x.len()
            &&& n < y.len()
            &&& #[trigger] x.take(n) == y.take(n)
            &&& n < x.len() ==> x[n] < y[n]
        }
}

proof fn lemma_bytes_before(x: Seq<u8>, y: Seq<u8>)
    ensures
        crate::order::bytes_lt(x, y) <==> exists|n: int|
            {
                &&& 0 <= n <= x.len()
                &&& n < y.len()
                &&& #[trigger] x.take(n) == y.take(n)
                &&& n < x.len() ==> x[n] < y[n]
            },
    decreases x.len(),
{
    if x.len() == 0 || y.len() == 0 || x[0] != y[0] {
        if crate::order::bytes_lt(x, y) {
            assert(x.take(0) =~= y.take(0));
        }
        if exists|n: int|
            0 <= n <= x.len() && n < y.len() && #[trigger] x.take(n) == y.take(n) && (n < x.len()
                ==> x[n] < y[n]) {
            let n = choose|n: int|
                0 <= n <= x.len() && n < y.len() && #[trigger] x.take(n) == y.take(n) && (n
                    < x.len() ==> x[n] < y[n]);
            if n > 0 {
                assert(x.take(n)[0] == y.take(n)[0]);
            }
        }
    } else {
        let p = x.drop_first();
        let q = y.drop_first();
        lemma_bytes_before(p, q);
        if crate::order::bytes_lt(p, q) {
            let n = choose|n: int|
                0 <= n <= p.len() && n < q.len() && #[trigger] p.take(n) == q.take(n) && (n
                    < p.len() ==> p[n] < q[n]);
            assert forall|i: int| 0 <= i < n + 1 implies x[i] == y[i] by {
                if i > 0 {
                    assert(p.take(n)[i - 1] == q.take(n)[i - 1]);
                }
            }
            assert(x.take(n + 1) =~= y.take(n + 1));
        }
        if exists|n: int|
            0 <= n <= x.len() && n < y.len() && #[trigger] x.take(n) == y.take(n) && (n < x.len()
                ==> x[n] < y[n]) {
            let n = choose|n: int|
                0 <= n <= x.len() && n < y.len() && #[trigger] x.take(n) == y.take(n) && (n
                    < x.len() ==> x[n] < y[n]);
            assert(n > 0);
            assert forall|i: int| 0 <= i < n - 1 implies p[i] == q[i] by {
                assert(x.take(n)[i + 1] == y.take(n)[i + 1]);
            }
            assert(p.take(n - 1) =~= q.take(n - 1));
        }
    }
}

/// The order of texts is what it has to be.
pub proof fn lemma_text_order(a: Seq<char>, b: Seq<char>)
    ensures
        crate::order::text_lt(a, b) <==> comes_before(a, b),
{
    lemma_bytes_before(encode_utf8(a), encode_utf8(b));
}

/// Texts are ordered by their bytes.
pub proof fn law_text_before(a: &str, b: &str, before: bool)
    requires
        call_ensures(text_before, (a, b), before),
    ensures
        before <==> comes_before(a@, b@),
{
    lemma_text_order(a@, b@);
}

proof fn lemma_front(
    text: Seq<char>,
    kind: spec_fn(char) -> bool,
    f: Seq<char>,
    a: Seq<char>,
    k: Seq<char>,
    i: int,
)
    requires
        text == f + a + k,
        all_are(f, kind),
        all_are(k, kind),
        0 <= i < text.len(),
    ensures
        i < f.len() ==> kind(text[i]),
        i >= f.len() + a.len() ==> kind(text[i]),
        f.len() <= i < f.len() + a.len() ==> text[i] == a[i - f.len()],
{
    if i < f.len() {
        assert(text[i] == f[i]);
    } else if i >= f.len() + a.len() {
        assert(text[i] == k[i - (f.len() + a.len())]);
    }
}

/// Only one text is left once all characters of a kind are taken off at both ends.
pub proof fn lemma_one_core(
    text: Seq<char>,
    kind: spec_fn(char) -> bool,
    a: Seq<char>,
    b: Seq<char>,
)
    requires
        is_core(text, kind, a),
        is_core(text, kind, b),
    ensures
        a == b,
{
    let (f, k) = choose|f: Seq<char>, k: Seq<char>|
        text == #[trigger] (f + a + k) && all_are(f, kind) && all_are(k, kind);
    let (g, l) = choose|g: Seq<char>, l: Seq<char>|
        text == #[trigger] (g + b + l) && all_are(g, kind) && all_are(l, kind);
    let x = f.len() as int;
    let y = g.len() as int;
    let p = x + a.len();
    let q = y + b.len();
    if a.len() > 0 {
        lemma_front(text, kind, f, a, k, x);
        lemma_front(text, kind, g, b, l, x);
        lemma_front(text, kind, f, a, k, p - 1);
        lemma_front(text, kind, g, b, l, p - 1);
    }
    if b.len() > 0 {
        lemma_front(text, kind, f, a, k, y);
        lemma_front(text, kind, g, b, l, y);
        lemma_front(text, kind, f, a, k, q - 1);
        lemma_front(text, kind, g, b, l, q - 1);
    }
    if a.len() > 0 && b.len() > 0 {
        assert(x == y && p == q);
        assert(a =~= text.subrange(x, p));
        assert(b =~= text.subrange(y, q));
    } else {
        assert(a =~= b);
    }
}

/// A text has only one list of pieces.
pub proof fn lemma_one_split(text: Seq<char>, sep: char, pieces: Seq<Seq<char>>)
    requires
        is_split(text, sep, pieces),
    ensures
        pieces == crate::text::split(text, sep),
{
    lemma_split_joins(text, sep, pieces);
    crate::text::lemma_split_join(pieces, sep);
}

proof fn lemma_split_joins(text: Seq<char>, sep: char, pieces: Seq<Seq<char>>)
    requires
        is_split(text, sep, pieces),
    ensures
        text == crate::text::join(pieces, sep),
        crate::text::free_of(pieces, sep),
    decreases pieces.len(),
{
    assert(pieces.last() == pieces[pieces.len() - 1]);
    if pieces.len() > 1 {
        let cut = text.len() - pieces.last().len() - 1;
        let front = pieces.drop_last();
        lemma_split_joins(text.take(cut), sep, front);
        assert(text =~= text.take(cut) + text.skip(cut));
        assert(text =~= crate::text::join(pieces, sep));
        assert forall|i: int| 0 <= i < pieces.len() implies !(#[trigger] pieces[i]).contains(sep) by {
            if i < front.len() {
                assert(front[i] == pieces[i]);
            }
        }
    }
}

} // verus!
