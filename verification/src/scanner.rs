//! Splitting source text into tokens, as far as finding names needs it.

use vstd::prelude::*;

verus! {

/// What a token is.
#[derive(Debug, PartialEq, Eq, Clone, Copy, Structural)]
pub enum Kind {
    Ident,
    Str,
    Char,
    Comment,
    Space,
    ColonColon,
    /// Another byte. A number counts as its digit zero.
    Punct(u8),
}

/// A token: what it is, and the positions of its first byte and of the byte
/// behind it.
#[derive(Debug, PartialEq, Eq, Clone, Copy, Structural)]
pub struct Tok {
    pub kind: Kind,
    pub start: usize,
    pub end: usize,
}

/// Bytes that run together.
#[derive(Debug, PartialEq, Eq, Clone, Copy, Structural)]
pub enum Class {
    /// All but the end of a line
    Line,
    /// White space
    Space,
    /// What names and numbers go on with
    Word,
}

/// A letter.
pub open spec fn is_letter(c: u8) -> bool {
    65 <= c <= 90 || 97 <= c <= 122
}

/// A decimal digit.
pub open spec fn is_digit(c: u8) -> bool {
    48 <= c <= 57
}

/// White space: space, tab, line feed, form feed or carriage return.
pub open spec fn is_space(c: u8) -> bool {
    c == 32 || c == 9 || c == 10 || c == 12 || c == 13
}

/// Whether a byte is of a class.
pub open spec fn in_class(c: u8, class: Class) -> bool {
    match class {
        Class::Line => c != 10,
        Class::Space => is_space(c),
        Class::Word => is_letter(c) || is_digit(c) || c == 95,
    }
}

/// Where the bytes of a class that start at `i` end.
pub open spec fn run_end(b: Seq<u8>, i: int, class: Class) -> int
    decreases b.len() + 4 - i,
{
    if 0 <= i < b.len() && in_class(b[i], class) {
        run_end(b, i + 1, class)
    } else {
        i
    }
}

/// Where the quoted text that `i` is inside of ends: at the next `quote`, or
/// behind the end. A backslash hides the byte after it.
pub open spec fn quoted_end(b: Seq<u8>, i: int, quote: u8) -> int
    decreases b.len() + 4 - i,
{
    if 0 <= i < b.len() && b[i] != quote {
        quoted_end(
            b,
            if b[i] == 92 {
                i + 2
            } else {
                i + 1
            },
            quote,
        )
    } else {
        i
    }
}

/// Quoted text does not end before it starts, and at most one byte behind the
/// end.
pub proof fn lemma_quoted_end(b: Seq<u8>, i: int, quote: u8)
    requires
        0 <= i <= b.len() + 1,
    ensures
        i <= quoted_end(b, i, quote) <= b.len() + 1,
    decreases b.len() + 4 - i,
{
    if i < b.len() && b[i] != quote {
        lemma_quoted_end(
            b,
            if b[i] == 92 {
                i + 2
            } else {
                i + 1
            },
            quote,
        );
    }
}

/// Where the code that `i` is inside of ends, `depth` braces deep: just behind the
/// last brace, or behind the end. Braces in strings do not count.
pub open spec fn braces_end(b: Seq<u8>, i: int, depth: int) -> int
    decreases b.len() + 4 - i,
{
    if 0 <= i < b.len() && depth > 0 {
        if b[i] == 123 {
            braces_end(b, i + 1, depth + 1)
        } else if b[i] == 125 {
            braces_end(b, i + 1, depth - 1)
        } else if b[i] == 34 {
            proof {
                lemma_quoted_end(b, i + 1, 34);
            }
            braces_end(b, quoted_end(b, i + 1, 34) + 1, depth)
        } else {
            braces_end(b, i + 1, depth)
        }
    } else {
        i
    }
}

/// Code does not end before it starts, and at most two bytes behind the end.
pub proof fn lemma_braces_end(b: Seq<u8>, i: int, depth: int)
    requires
        0 <= i <= b.len() + 2,
    ensures
        i <= braces_end(b, i, depth) <= b.len() + 2,
    decreases b.len() + 4 - i,
{
    if i < b.len() && depth > 0 {
        if b[i] == 123 {
            lemma_braces_end(b, i + 1, depth + 1);
        } else if b[i] == 125 {
            lemma_braces_end(b, i + 1, depth - 1);
        } else if b[i] == 34 {
            lemma_quoted_end(b, i + 1, 34);
            lemma_braces_end(b, quoted_end(b, i + 1, 34) + 1, depth);
        } else {
            lemma_braces_end(b, i + 1, depth);
        }
    }
}

/// Where the interpolation `${` at `start` ends: just behind its `}`, or behind
/// the end.
pub open spec fn interpolation(b: Seq<u8>, start: int) -> int {
    braces_end(b, start + 2, 1)
}

/// Whether an interpolation starts at `i`.
pub open spec fn interpolates(b: Seq<u8>, i: int) -> bool {
    0 <= i && i + 1 < b.len() && b[i] == 36 && b[i + 1] == 123
}

/// Where the string that `i` is inside of ends: at its closing quote, or behind
/// the end. Quotes in interpolations do not count.
pub open spec fn string_end(b: Seq<u8>, i: int) -> int
    decreases b.len() + 4 - i,
{
    if 0 <= i < b.len() && b[i] != 34 {
        if b[i] == 92 {
            string_end(b, i + 2)
        } else if interpolates(b, i) {
            proof {
                lemma_braces_end(b, i + 2, 1);
            }
            string_end(b, interpolation(b, i))
        } else {
            string_end(b, i + 1)
        }
    } else {
        i
    }
}

/// A string does not end before it starts, and at most two bytes behind the end.
pub proof fn lemma_string_end(b: Seq<u8>, i: int)
    requires
        0 <= i <= b.len() + 2,
    ensures
        i <= string_end(b, i) <= b.len() + 2,
    decreases b.len() + 4 - i,
{
    if i < b.len() && b[i] != 34 {
        if b[i] == 92 {
            lemma_string_end(b, i + 2);
        } else if interpolates(b, i) {
            lemma_braces_end(b, i + 2, 1);
            lemma_string_end(b, interpolation(b, i));
        } else {
            lemma_string_end(b, i + 1);
        }
    }
}

/// A run does not end before it starts, nor behind the end.
pub proof fn lemma_run_end(b: Seq<u8>, i: int, class: Class)
    requires
        0 <= i <= b.len(),
    ensures
        i <= run_end(b, i, class) <= b.len(),
        i < b.len() && in_class(b[i], class) ==> i < run_end(b, i, class),
    decreases b.len() + 4 - i,
{
    if i < b.len() && in_class(b[i], class) {
        lemma_run_end(b, i + 1, class);
    }
}

/// What the token at `i` is, and where it ends.
pub open spec fn token(b: Seq<u8>, i: int) -> (Kind, int) {
    let c = b[i];
    if c == 47 && i + 1 < b.len() && b[i + 1] == 47 {
        (Kind::Comment, run_end(b, i, Class::Line))
    } else if is_space(c) {
        (Kind::Space, run_end(b, i, Class::Space))
    } else if is_letter(c) || c == 95 {
        (Kind::Ident, run_end(b, i, Class::Word))
    } else if is_digit(c) {
        (Kind::Punct(48), run_end(b, i, Class::Word))
    } else if c == 34 {
        (Kind::Str, string_end(b, i + 1) + 1)
    } else if c == 39 {
        (Kind::Char, quoted_end(b, i + 1, 39) + 1)
    } else if c == 58 && i + 1 < b.len() && b[i + 1] == 58 {
        (Kind::ColonColon, i + 2)
    } else {
        (Kind::Punct(c), i + 1)
    }
}

/// A token has at least one byte.
pub proof fn lemma_token(b: Seq<u8>, i: int)
    requires
        0 <= i < b.len(),
    ensures
        i < token(b, i).1 <= b.len() + 3,
{
    lemma_run_end(b, i, Class::Line);
    lemma_run_end(b, i, Class::Space);
    lemma_run_end(b, i, Class::Word);
    lemma_string_end(b, i + 1);
    lemma_quoted_end(b, i + 1, 39);
}

/// The tokens from position `i` on.
pub open spec fn scanned(b: Seq<u8>, i: int) -> Seq<Tok>
    decreases b.len() + 4 - i,
{
    if 0 <= i < b.len() {
        proof {
            lemma_token(b, i);
        }
        seq![token_at(b, i)] + scanned(b, token(b, i).1)
    } else {
        Seq::empty()
    }
}

/// The token at `i`.
pub open spec fn token_at(b: Seq<u8>, i: int) -> Tok {
    let (kind, end) = token(b, i);
    Tok {
        kind,
        start: i as usize,
        end: (if end < b.len() {
            end
        } else {
            b.len() as int
        }) as usize,
    }
}

/// A token that is more than a gap.
pub open spec fn counts(t: Tok) -> bool {
    !(t.kind is Space) && !(t.kind is Comment)
}

/// The positions, among the first `n` tokens, of those that are more than gaps.
pub open spec fn kept(toks: Seq<Tok>, n: int) -> Seq<usize>
    decreases n,
{
    if n <= 0 {
        Seq::empty()
    } else if counts(toks[n - 1]) {
        kept(toks, n - 1).push((n - 1) as usize)
    } else {
        kept(toks, n - 1)
    }
}

/// The positions that `kept` gives are positions of tokens.
pub proof fn lemma_kept(toks: Seq<Tok>, n: int)
    requires
        0 <= n <= toks.len(),
        toks.len() <= usize::MAX,
    ensures
        kept(toks, n).len() <= n,
        forall|j: int|
            0 <= j < kept(toks, n).len() ==> #[trigger] kept(toks, n)[j] < n && counts(
                toks[kept(toks, n)[j] as int],
            ),
    decreases n,
{
    if n > 0 {
        lemma_kept(toks, n - 1);
    }
}

/// Token `k` starts where token `k - 1` ended, the first one at `from`, and the
/// last one ends at `to`.
pub open spec fn tiles(toks: Seq<Tok>, from: int, to: int) -> bool {
    &&& toks.len() == 0 ==> from == to
    &&& toks.len() > 0 ==> toks[0].start == from && toks.last().end == to
    &&& forall|k: int| 0 <= k < toks.len() ==> (#[trigger] toks[k]).start < toks[k].end
    &&& forall|k: int|
        0 < k < toks.len() ==> (#[trigger] toks[k]).start == toks[k - 1].end
}

/// The tokens of a text follow each other without gaps and without overlap, from
/// its start to its end, and none is empty.
pub proof fn lemma_scan_tiles(b: Seq<u8>)
    requires
        b.len() <= usize::MAX,
    ensures
        tiles(scanned(b, 0), 0, b.len() as int),
{
    lemma_tiles_from(b, 0);
}

/// The tokens from `i` on follow each other without gaps, from `i` to the end.
proof fn lemma_tiles_from(b: Seq<u8>, i: int)
    requires
        b.len() <= usize::MAX,
        0 <= i <= b.len(),
    ensures
        tiles(scanned(b, i), i, b.len() as int),
    decreases b.len() + 4 - i,
{
    if i < b.len() {
        lemma_token(b, i);
        let end = token(b, i).1;
        let first = token_at(b, i);
        let all = scanned(b, i);
        if end < b.len() {
            lemma_tiles_from(b, end);
            let rest = scanned(b, end);
            assert(all == seq![first] + rest);
            assert forall|k: int| 0 <= k < all.len() implies (#[trigger] all[k]).start
                < all[k].end by {
                if k > 0 {
                    assert(all[k] == rest[k - 1]);
                }
            }
            assert forall|k: int| 0 < k < all.len() implies (#[trigger] all[k]).start == all[k
                - 1].end by {
                assert(all[k] == rest[k - 1]);
                if k > 1 {
                    assert(all[k - 1] == rest[k - 2]);
                }
            }
            assert(rest.len() > 0);
            assert(all.last() == rest.last());
        } else {
            assert(scanned(b, end) =~= Seq::empty());
            assert(all =~= seq![first]);
        }
    }
}

/// Tokens lie inside the text.
pub proof fn lemma_scan_bounds(b: Seq<u8>, i: int)
    requires
        b.len() <= usize::MAX,
        0 <= i,
    ensures
        forall|k: int|
            0 <= k < scanned(b, i).len() ==> (#[trigger] scanned(b, i)[k]).start <= scanned(
                b,
                i,
            )[k].end <= b.len(),
    decreases b.len() + 4 - i,
{
    if i < b.len() {
        lemma_token(b, i);
        let end = token(b, i).1;
        lemma_scan_bounds(b, end);
        let all = scanned(b, i);
        assert forall|k: int| 0 <= k < all.len() implies (#[trigger] all[k]).start <= all[k].end
            <= b.len() by {
            if k > 0 {
                assert(all[k] == scanned(b, end)[k - 1]);
            }
        }
    }
}

/// Whether a byte is a letter.
fn letter(c: u8) -> (r: bool)
    ensures
        r == is_letter(c),
{
    (65 <= c && c <= 90) || (97 <= c && c <= 122)
}

/// Whether a byte is a decimal digit.
fn digit(c: u8) -> (r: bool)
    ensures
        r == is_digit(c),
{
    48 <= c && c <= 57
}

/// Whether a byte is white space.
fn space(c: u8) -> (r: bool)
    ensures
        r == is_space(c),
{
    c == 32 || c == 9 || c == 10 || c == 12 || c == 13
}

/// Whether a byte is of a class.
fn is_of(c: u8, class: Class) -> (r: bool)
    ensures
        r == in_class(c, class),
{
    match class {
        Class::Line => c != 10,
        Class::Space => space(c),
        Class::Word => letter(c) || digit(c) || c == 95,
    }
}

/// Where a run ends.
fn end_of_run(b: &[u8], start: usize, class: Class) -> (r: usize)
    requires
        start <= b@.len(),
    ensures
        r == run_end(b@, start as int, class),
        start <= r <= b@.len(),
{
    let mut i: usize = start;
    while i < b.len() && is_of(b[i], class)
        invariant
            start <= i <= b@.len(),
            run_end(b@, start as int, class) == run_end(b@, i as int, class),
        decreases b@.len() - i,
    {
        i += 1;
    }
    i
}

/// Where quoted text ends.
fn end_of_quoted(b: &[u8], start: usize, quote: u8) -> (r: usize)
    requires
        start <= b@.len() + 1,
        b@.len() <= usize::MAX - 3,
    ensures
        r == quoted_end(b@, start as int, quote),
        start <= r <= b@.len() + 1,
{
    let mut i: usize = start;
    while i < b.len() && b[i] != quote
        invariant
            start <= i <= b@.len() + 1,
            b@.len() <= usize::MAX - 3,
            quoted_end(b@, start as int, quote) == quoted_end(b@, i as int, quote),
        decreases b@.len() + 2 - i,
    {
        if b[i] == 92 {
            i += 1;
        }
        i += 1;
    }
    i
}

/// Where the interpolation at `start` ends.
pub(crate) fn interpolation_end(b: &[u8], start: usize) -> (r: usize)
    requires
        start + 2 <= b@.len(),
        b@.len() <= usize::MAX - 3,
    ensures
        r == interpolation(b@, start as int),
        start + 2 <= r <= b@.len() + 2,
{
    let mut i: usize = start + 2;
    let mut depth: usize = 1;
    while i < b.len() && depth > 0
        invariant
            start + 2 <= i <= b@.len() + 2,
            depth <= i,
            b@.len() <= usize::MAX - 3,
            interpolation(b@, start as int) == braces_end(b@, i as int, depth as int),
        decreases b@.len() + 3 - i,
    {
        let c: u8 = b[i];
        if c == 123 {
            depth += 1;
        } else if c == 125 {
            depth -= 1;
        } else if c == 34 {
            i = end_of_quoted(b, i + 1, 34);
        }
        i += 1;
    }
    i
}

/// Where a string ends.
fn end_of_string(b: &[u8], start: usize) -> (r: usize)
    requires
        start <= b@.len(),
        b@.len() <= usize::MAX - 3,
    ensures
        r == string_end(b@, start as int),
        start <= r <= b@.len() + 2,
{
    let mut i: usize = start;
    while i < b.len() && b[i] != 34
        invariant
            start <= i <= b@.len() + 2,
            b@.len() <= usize::MAX - 3,
            string_end(b@, start as int) == string_end(b@, i as int),
        decreases b@.len() + 3 - i,
    {
        if b[i] == 92 {
            i += 2;
        } else if b[i] == 36 && i + 1 < b.len() && b[i + 1] == 123 {
            i = interpolation_end(b, i);
        } else {
            i += 1;
        }
    }
    i
}

/// What the token at `i` is, and where it ends.
fn token_from(b: &[u8], i: usize) -> (r: (Kind, usize))
    requires
        i < b@.len(),
        b@.len() <= usize::MAX - 3,
    ensures
        r.0 == token(b@, i as int).0,
        r.1 == token(b@, i as int).1,
        i < r.1 <= b@.len() + 3,
{
    proof {
        lemma_token(b@, i as int);
    }
    let c: u8 = b[i];
    if c == 47 && i + 1 < b.len() && b[i + 1] == 47 {
        (Kind::Comment, end_of_run(b, i, Class::Line))
    } else if space(c) {
        (Kind::Space, end_of_run(b, i, Class::Space))
    } else if letter(c) || c == 95 {
        (Kind::Ident, end_of_run(b, i, Class::Word))
    } else if digit(c) {
        (Kind::Punct(48), end_of_run(b, i, Class::Word))
    } else if c == 34 {
        (Kind::Str, end_of_string(b, i + 1) + 1)
    } else if c == 39 {
        (Kind::Char, end_of_quoted(b, i + 1, 39) + 1)
    } else if c == 58 && i + 1 < b.len() && b[i + 1] == 58 {
        (Kind::ColonColon, i + 2)
    } else {
        (Kind::Punct(c), i + 1)
    }
}

/// The tokens of a text.
pub(crate) fn scan(b: &[u8]) -> (r: Vec<Tok>)
    requires
        b@.len() <= usize::MAX - 3,
    ensures
        r@ == scanned(b@, 0),
{
    let mut toks: Vec<Tok> = Vec::new();
    let mut i: usize = 0;
    assert(toks@ + scanned(b@, 0) =~= scanned(b@, 0));
    while i < b.len()
        invariant
            i <= b@.len() + 3,
            b@.len() <= usize::MAX - 3,
            toks@ + scanned(b@, i as int) == scanned(b@, 0),
        decreases b@.len() + 3 - i,
    {
        let (kind, next) = token_from(b, i);
        let end: usize = if next < b.len() {
            next
        } else {
            b.len()
        };
        let ghost before = toks@;
        toks.push(Tok { kind, start: i, end });
        assert(toks@ + scanned(b@, next as int) =~= before + (seq![token_at(b@, i as int)]
            + scanned(b@, next as int)));
        i = next;
    }
    assert(toks@ + scanned(b@, i as int) =~= toks@);
    toks
}

/// The positions of the tokens that are more than gaps.
pub(crate) fn significant(toks: &Vec<Tok>) -> (r: Vec<usize>)
    ensures
        r@ == kept(toks@, toks@.len() as int),
{
    let mut sig: Vec<usize> = Vec::new();
    let mut i: usize = 0;
    while i < toks.len()
        invariant
            i <= toks@.len(),
            sig@ == kept(toks@, i as int),
        decreases toks@.len() - i,
    {
        match toks[i].kind {
            Kind::Space => {},
            Kind::Comment => {},
            _ => {
                sig.push(i);
            },
        }
        i += 1;
    }
    sig
}

} // verus!
