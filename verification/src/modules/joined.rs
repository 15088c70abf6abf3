//! The items of a text that is made of two.

use vstd::prelude::*;
use vstd::utf8::*;
use crate::modules;
use crate::modules::ascii::significant;
use crate::modules::Declared;
use crate::scanner;
use crate::scanner::{Class, Kind, Tok};

verus! {

/// A semicolon or a closing brace.
pub open spec fn ends(kind: Kind) -> bool {
    kind == Kind::Punct(59) || kind == Kind::Punct(125)
}

/// How many braces are open behind the first `n` significant tokens.
pub open spec fn nesting(toks: Seq<Tok>, sig: Seq<usize>, n: int) -> int
    decreases n,
{
    if n <= 0 {
        0
    } else {
        nesting(toks, sig, n - 1) + match toks[sig[n - 1] as int].kind {
            Kind::Punct(123) => 1int,
            Kind::Punct(125) => -1int,
            _ => 0int,
        }
    }
}

/// Whether a text is complete: its last declaration ends, with a semicolon or a closing
/// brace, every brace that opens closes, and no comment goes on behind the end.
pub open spec fn is_complete(x: Seq<u8>) -> bool {
    let toks = scanner::scanned(x, 0);
    let sig = significant(x);
    &&& toks.len() > 0 ==> toks.last().kind is Space || ends(toks.last().kind)
    &&& sig.len() > 0 ==> ends(toks[sig.last() as int].kind)
    &&& nesting(toks, sig, sig.len() as int) == 0
}

/// What two texts declare.
pub open spec fn both(d: Declared, e: Declared) -> Declared {
    Declared { items: d.items.union(e.items), public: d.public.union(e.public) }
}

// ---------------------------------------------------------------------------
// The scanner behind another text

/// Runs behind a text are where they are without it.
proof fn lemma_run_shifts(x: Seq<u8>, y: Seq<u8>, j: int, class: Class)
    requires
        0 <= j,
    ensures
        scanner::run_end(x + y, x.len() + j, class) == x.len() + scanner::run_end(y, j, class),
    decreases y.len() + 4 - j,
{
    if j < y.len() {
        assert((x + y)[x.len() + j] == y[j]);
        if scanner::in_class(y[j], class) {
            lemma_run_shifts(x, y, j + 1, class);
        }
    }
}

/// Quoted text behind a text is where it is without it.
proof fn lemma_quoted_shifts(x: Seq<u8>, y: Seq<u8>, j: int, quote: u8)
    requires
        0 <= j,
    ensures
        scanner::quoted_end(x + y, x.len() + j, quote) == x.len() + scanner::quoted_end(
            y,
            j,
            quote,
        ),
    decreases y.len() + 4 - j,
{
    if j < y.len() {
        assert((x + y)[x.len() + j] == y[j]);
        if y[j] != quote {
            if y[j] == 92 {
                lemma_quoted_shifts(x, y, j + 2, quote);
            } else {
                lemma_quoted_shifts(x, y, j + 1, quote);
            }
        }
    }
}

/// Code behind a text is where it is without it.
proof fn lemma_braces_shift(x: Seq<u8>, y: Seq<u8>, j: int, depth: int)
    requires
        0 <= j,
    ensures
        scanner::braces_end(x + y, x.len() + j, depth) == x.len() + scanner::braces_end(
            y,
            j,
            depth,
        ),
    decreases y.len() + 4 - j,
{
    if j < y.len() && depth > 0 {
        assert((x + y)[x.len() + j] == y[j]);
        if y[j] == 123 {
            lemma_braces_shift(x, y, j + 1, depth + 1);
        } else if y[j] == 125 {
            lemma_braces_shift(x, y, j + 1, depth - 1);
        } else if y[j] == 34 {
            lemma_quoted_shifts(x, y, j + 1, 34);
            scanner::lemma_quoted_end(y, j + 1, 34);
            lemma_braces_shift(x, y, scanner::quoted_end(y, j + 1, 34) + 1, depth);
        } else {
            lemma_braces_shift(x, y, j + 1, depth);
        }
    }
}

/// A string behind a text is where it is without it.
proof fn lemma_string_shifts(x: Seq<u8>, y: Seq<u8>, j: int)
    requires
        0 <= j,
    ensures
        scanner::string_end(x + y, x.len() + j) == x.len() + scanner::string_end(y, j),
    decreases y.len() + 4 - j,
{
    if j < y.len() {
        assert((x + y)[x.len() + j] == y[j]);
        if y[j] != 34 {
            if y[j] == 92 {
                lemma_string_shifts(x, y, j + 2);
            } else {
                if j + 1 < y.len() {
                    assert((x + y)[x.len() + j + 1] == y[j + 1]);
                }
                assert(scanner::interpolates(x + y, x.len() + j) == scanner::interpolates(y, j));
                if scanner::interpolates(y, j) {
                    lemma_braces_shift(x, y, j + 2, 1);
                    scanner::lemma_braces_end(y, j + 2, 1);
                    lemma_string_shifts(x, y, scanner::interpolation(y, j));
                } else {
                    lemma_string_shifts(x, y, j + 1);
                }
            }
        }
    }
}

/// A token behind a text is what it is without it.
proof fn lemma_token_shifts(x: Seq<u8>, y: Seq<u8>, j: int)
    requires
        0 <= j < y.len(),
    ensures
        scanner::token(x + y, x.len() + j).0 == scanner::token(y, j).0,
        scanner::token(x + y, x.len() + j).1 == x.len() + scanner::token(y, j).1,
{
    assert((x + y)[x.len() + j] == y[j]);
    if j + 1 < y.len() {
        assert((x + y)[x.len() + j + 1] == y[j + 1]);
    }
    lemma_run_shifts(x, y, j, Class::Line);
    lemma_run_shifts(x, y, j, Class::Space);
    lemma_run_shifts(x, y, j, Class::Word);
    lemma_string_shifts(x, y, j + 1);
    lemma_quoted_shifts(x, y, j + 1, 39);
}

// ---------------------------------------------------------------------------
// The scanner before another text

/// A run that ends in a text ends there if more text follows.
proof fn lemma_run_stays(x: Seq<u8>, y: Seq<u8>, i: int, class: Class)
    requires
        0 <= i,
        scanner::run_end(x, i, class) < x.len(),
    ensures
        scanner::run_end(x + y, i, class) == scanner::run_end(x, i, class),
    decreases x.len() + 4 - i,
{
    if i < x.len() {
        assert((x + y)[i] == x[i]);
        if scanner::in_class(x[i], class) {
            lemma_run_stays(x, y, i + 1, class);
        }
    }
}

/// Quoted text that ends in a text ends there if more text follows.
proof fn lemma_quoted_stays(x: Seq<u8>, y: Seq<u8>, i: int, quote: u8)
    requires
        0 <= i,
        scanner::quoted_end(x, i, quote) < x.len(),
    ensures
        scanner::quoted_end(x + y, i, quote) == scanner::quoted_end(x, i, quote),
    decreases x.len() + 4 - i,
{
    if i < x.len() {
        assert((x + y)[i] == x[i]);
        if x[i] != quote {
            if x[i] == 92 {
                lemma_quoted_stays(x, y, i + 2, quote);
            } else {
                lemma_quoted_stays(x, y, i + 1, quote);
            }
        }
    }
}

/// Code that ends in a text ends there if more text follows.
proof fn lemma_braces_stay(x: Seq<u8>, y: Seq<u8>, i: int, depth: int)
    requires
        0 <= i,
        scanner::braces_end(x, i, depth) < x.len(),
    ensures
        scanner::braces_end(x + y, i, depth) == scanner::braces_end(x, i, depth),
    decreases x.len() + 4 - i,
{
    if i < x.len() && depth > 0 {
        assert((x + y)[i] == x[i]);
        if x[i] == 123 {
            lemma_braces_stay(x, y, i + 1, depth + 1);
        } else if x[i] == 125 {
            lemma_braces_stay(x, y, i + 1, depth - 1);
        } else if x[i] == 34 {
            let q = scanner::quoted_end(x, i + 1, 34);
            scanner::lemma_quoted_end(x, i + 1, 34);
            scanner::lemma_braces_end(x, q + 1, depth);
            lemma_quoted_stays(x, y, i + 1, 34);
            lemma_braces_stay(x, y, q + 1, depth);
        } else {
            lemma_braces_stay(x, y, i + 1, depth);
        }
    }
}

/// A string that ends in a text ends there if more text follows.
proof fn lemma_string_stays(x: Seq<u8>, y: Seq<u8>, i: int)
    requires
        0 <= i,
        scanner::string_end(x, i) < x.len(),
    ensures
        scanner::string_end(x + y, i) == scanner::string_end(x, i),
    decreases x.len() + 4 - i,
{
    if i < x.len() {
        assert((x + y)[i] == x[i]);
        if x[i] != 34 {
            if x[i] == 92 {
                lemma_string_stays(x, y, i + 2);
            } else {
                if i + 1 < x.len() {
                    assert((x + y)[i + 1] == x[i + 1]);
                }
                if scanner::interpolates(x, i) {
                    let e = scanner::interpolation(x, i);
                    scanner::lemma_braces_end(x, i + 2, 1);
                    scanner::lemma_string_end(x, e);
                    lemma_braces_stay(x, y, i + 2, 1);
                    lemma_string_stays(x, y, e);
                } else {
                    lemma_string_stays(x, y, i + 1);
                }
            }
        }
    }
}

/// A token that ends before the end of a text, or ends a declaration, is the same if
/// more text follows.
proof fn lemma_token_stays(x: Seq<u8>, y: Seq<u8>, i: int)
    requires
        0 <= i < x.len(),
        scanner::token(x, i).1 < x.len() || ends(scanner::token(x, i).0),
    ensures
        scanner::token(x + y, i) == scanner::token(x, i),
{
    assert((x + y)[i] == x[i]);
    scanner::lemma_token(x, i);
    if !ends(scanner::token(x, i).0) {
        assert((x + y)[i + 1] == x[i + 1]);
        match scanner::token(x, i).0 {
            Kind::Comment => lemma_run_stays(x, y, i, Class::Line),
            Kind::Space => lemma_run_stays(x, y, i, Class::Space),
            Kind::Ident => lemma_run_stays(x, y, i, Class::Word),
            Kind::Str => lemma_string_stays(x, y, i + 1),
            Kind::Char => lemma_quoted_stays(x, y, i + 1, 39),
            _ => {
                if scanner::is_digit(x[i]) {
                    lemma_run_stays(x, y, i, Class::Word);
                }
            },
        }
    }
}

// ---------------------------------------------------------------------------
// Significant tokens

/// The significant tokens from position `i` on.
spec fn tokens(b: Seq<u8>, i: int) -> Seq<Tok>
    decreases b.len() + 4 - i,
{
    if 0 <= i < b.len() {
        proof {
            scanner::lemma_token(b, i);
        }
        let rest = tokens(b, scanner::token(b, i).1);
        if scanner::counts(scanner::token_at(b, i)) {
            seq![scanner::token_at(b, i)] + rest
        } else {
            rest
        }
    } else {
        Seq::empty()
    }
}

/// The tokens at positions.
spec fn picked(toks: Seq<Tok>, sig: Seq<usize>) -> Seq<Tok> {
    Seq::new(sig.len(), |j: int| toks[sig[j] as int])
}

/// The significant ones of tokens, with one more before them.
proof fn lemma_picked(t: Tok, rest: Seq<Tok>, n: int)
    requires
        0 <= n <= rest.len(),
        rest.len() < usize::MAX,
    ensures
        ({
            let toks = seq![t] + rest;
            picked(toks, scanner::kept(toks, n + 1)) == (if scanner::counts(t) {
                seq![t]
            } else {
                Seq::empty()
            }) + picked(rest, scanner::kept(rest, n))
        }),
    decreases n,
{
    let toks = seq![t] + rest;
    assert(toks[0] == t);
    let first = if scanner::counts(t) {
        seq![t]
    } else {
        Seq::empty()
    };
    if n == 0 {
        assert(scanner::kept(toks, 0) =~= Seq::empty());
        assert(picked(toks, scanner::kept(toks, 1)) =~= first + picked(
            rest,
            scanner::kept(rest, 0),
        ));
    } else {
        lemma_picked(t, rest, n - 1);
        assert(toks[n] == rest[n - 1]);
        let a = picked(toks, scanner::kept(toks, n));
        let b = picked(rest, scanner::kept(rest, n - 1));
        if scanner::counts(rest[n - 1]) {
            assert(picked(toks, scanner::kept(toks, n + 1)) =~= a.push(rest[n - 1]));
            assert(picked(rest, scanner::kept(rest, n)) =~= b.push(rest[n - 1]));
            assert(first + b.push(rest[n - 1]) =~= (first + b).push(rest[n - 1]));
        }
    }
}

/// The significant tokens of a text are those that are kept.
proof fn lemma_tokens(b: Seq<u8>, i: int)
    requires
        b.len() < usize::MAX,
        0 <= i,
    ensures
        ({
            let toks = scanner::scanned(b, i);
            picked(toks, scanner::kept(toks, toks.len() as int)) == tokens(b, i)
        }),
        i <= b.len() ==> scanner::scanned(b, i).len() <= b.len() - i,
        i > b.len() ==> scanner::scanned(b, i).len() == 0,
    decreases b.len() + 4 - i,
{
    let toks = scanner::scanned(b, i);
    if i < b.len() {
        scanner::lemma_token(b, i);
        let end = scanner::token(b, i).1;
        lemma_tokens(b, end);
        let rest = scanner::scanned(b, end);
        assert(toks == seq![scanner::token_at(b, i)] + rest);
        lemma_picked(scanner::token_at(b, i), rest, rest.len() as int);
        assert(Seq::<Tok>::empty() + tokens(b, end) =~= tokens(b, end));
    } else {
        assert(picked(toks, scanner::kept(toks, toks.len() as int)) =~= Seq::empty());
    }
}

/// Tokens that stand `n` bytes further on.
spec fn shifted(ts: Seq<Tok>, n: int) -> Seq<Tok> {
    Seq::new(
        ts.len(),
        |j: int|
            Tok {
                kind: ts[j].kind,
                start: (ts[j].start + n) as usize,
                end: (ts[j].end + n) as usize,
            },
    )
}

/// The tokens behind a text are those without it, further on.
proof fn lemma_tokens_shift(x: Seq<u8>, y: Seq<u8>, j: int)
    requires
        (x + y).len() <= usize::MAX,
        0 <= j,
    ensures
        tokens(x + y, x.len() + j) == shifted(tokens(y, j), x.len() as int),
    decreases y.len() + 4 - j,
{
    if j < y.len() {
        lemma_token_shifts(x, y, j);
        scanner::lemma_token(y, j);
        let end = scanner::token(y, j).1;
        lemma_tokens_shift(x, y, end);
        let t = scanner::token_at(y, j);
        assert(shifted(tokens(y, j), x.len() as int) =~= tokens(x + y, x.len() + j));
    } else {
        assert(shifted(tokens(y, j), x.len() as int) =~= tokens(x + y, x.len() + j));
    }
}

/// White space at the start of a text adds no significant token.
proof fn lemma_leading_space(y: Seq<u8>)
    ensures
        tokens(y, scanner::run_end(y, 0, Class::Space)) == tokens(y, 0),
{
    if y.len() > 0 && scanner::is_space(y[0]) {
        assert(scanner::token(y, 0) == (Kind::Space, scanner::run_end(y, 0, Class::Space)));
    }
}

/// A run that goes to the end of a text goes on in the text behind it.
proof fn lemma_run_goes_on(x: Seq<u8>, y: Seq<u8>, i: int, class: Class)
    requires
        0 <= i <= x.len(),
        scanner::run_end(x, i, class) >= x.len(),
    ensures
        scanner::run_end(x + y, i, class) == x.len() + scanner::run_end(y, 0, class),
    decreases x.len() - i,
{
    if i < x.len() {
        assert((x + y)[i] == x[i]);
        lemma_run_goes_on(x, y, i + 1, class);
    } else {
        lemma_run_shifts(x, y, 0, class);
    }
}

/// The significant tokens of two texts in a row, if the first one ends cleanly, from
/// position `i` of the first one on.
proof fn lemma_tokens_join(x: Seq<u8>, y: Seq<u8>, i: int)
    requires
        (x + y).len() <= usize::MAX,
        0 <= i <= x.len(),
        ({
            let toks = scanner::scanned(x, i);
            toks.len() > 0 ==> toks.last().kind is Space || ends(toks.last().kind)
        }),
    ensures
        tokens(x + y, i) == tokens(x, i) + shifted(tokens(y, 0), x.len() as int),
    decreases x.len() - i,
{
    let more = shifted(tokens(y, 0), x.len() as int);
    if i == x.len() {
        lemma_tokens_shift(x, y, 0);
        assert(tokens(x, i) =~= Seq::empty());
        assert(Seq::<Tok>::empty() + more =~= more);
    } else {
        scanner::lemma_token(x, i);
        let end = scanner::token(x, i).1;
        let toks = scanner::scanned(x, i);
        let rest = scanner::scanned(x, end);
        assert(toks == seq![scanner::token_at(x, i)] + rest);
        if end < x.len() {
            scanner::lemma_token(x, end);
            assert(rest.len() > 0);
            assert(rest.last() == toks.last());
            lemma_token_stays(x, y, i);
            lemma_tokens_join(x, y, end);
            assert(tokens(x + y, i) =~= tokens(x, i) + more);
        } else {
            assert(rest =~= Seq::empty());
            assert(toks.last() == scanner::token_at(x, i));
            if ends(scanner::token(x, i).0) {
                lemma_token_stays(x, y, i);
                lemma_tokens_join(x, y, end);
                assert(tokens(x + y, i) =~= tokens(x, i) + more);
            } else {
                assert((x + y)[i] == x[i]);
                lemma_run_goes_on(x, y, i, Class::Space);
                let r = scanner::run_end(y, 0, Class::Space);
                scanner::lemma_run_end(y, 0, Class::Space);
                lemma_tokens_shift(x, y, r);
                lemma_leading_space(y);
                assert(tokens(x, i) =~= Seq::empty());
                assert(Seq::<Tok>::empty() + more =~= more);
            }
        }
    }
}

// ---------------------------------------------------------------------------
// Words

/// A position of a text is between characters if it is so when more text follows.
proof fn lemma_boundary_left(x: Seq<u8>, y: Seq<u8>, i: int)
    requires
        valid_utf8(x),
        valid_utf8(y),
        valid_utf8(x + y),
        0 <= i <= x.len(),
    ensures
        is_char_boundary(x + y, i) == is_char_boundary(x, i),
{
    is_char_boundary_start_end_of_seq(x);
    is_char_boundary_start_end_of_seq(x + y);
    if i < x.len() {
        is_char_boundary_iff_not_is_continuation_byte(x, i);
        is_char_boundary_iff_not_is_continuation_byte(x + y, i);
        assert((x + y)[i] == x[i]);
    } else if y.len() > 0 {
        is_char_boundary_start_end_of_seq(y);
        is_char_boundary_iff_not_is_continuation_byte(y, 0);
        is_char_boundary_iff_not_is_continuation_byte(x + y, i);
        assert((x + y)[i] == y[0]);
    }
}

/// A position of a text is between characters if it is so behind another text.
proof fn lemma_boundary_right(x: Seq<u8>, y: Seq<u8>, j: int)
    requires
        valid_utf8(x),
        valid_utf8(y),
        valid_utf8(x + y),
        0 <= j <= y.len(),
    ensures
        is_char_boundary(x + y, x.len() + j) == is_char_boundary(y, j),
{
    is_char_boundary_start_end_of_seq(y);
    is_char_boundary_start_end_of_seq(x + y);
    if j < y.len() {
        is_char_boundary_iff_not_is_continuation_byte(y, j);
        is_char_boundary_iff_not_is_continuation_byte(x + y, x.len() + j);
        assert((x + y)[x.len() + j] == y[j]);
    }
}

/// The words of a text are the same if more text follows.
proof fn lemma_word_left(x: Seq<u8>, y: Seq<u8>, t: Tok)
    requires
        valid_utf8(x),
        valid_utf8(y),
        valid_utf8(x + y),
        t.start <= t.end <= x.len(),
    ensures
        modules::word(x + y, t) == modules::word(x, t),
{
    reveal(modules::cut);
    lemma_boundary_left(x, y, t.start as int);
    lemma_boundary_left(x, y, t.end as int);
    assert((x + y).subrange(t.start as int, t.end as int) =~= x.subrange(
        t.start as int,
        t.end as int,
    ));
}

/// The words of a text are the same behind another text.
proof fn lemma_word_right(x: Seq<u8>, y: Seq<u8>, t: Tok, u: Tok)
    requires
        valid_utf8(x),
        valid_utf8(y),
        valid_utf8(x + y),
        t.start <= t.end <= y.len(),
        u.start == t.start + x.len(),
        u.end == t.end + x.len(),
    ensures
        modules::word(x + y, u) == modules::word(y, t),
{
    reveal(modules::cut);
    lemma_boundary_right(x, y, t.start as int);
    lemma_boundary_right(x, y, t.end as int);
    assert((x + y).subrange(u.start as int, u.end as int) =~= y.subrange(
        t.start as int,
        t.end as int,
    ));
}

/// What ends a declaration is a word that is neither `pub` nor a qualifier.
proof fn lemma_end_word(x: Seq<u8>, t: Tok)
    requires
        valid_utf8(x),
        t.start < x.len(),
        t.end == t.start + 1,
        x[t.start as int] < 128,
    ensures
        modules::word(x, t) matches Some(w) && !modules::qualifies(w) && w != "pub"@,
{
    reveal(modules::cut);
    let i = t.start as int;
    let c = x[i];
    assert(c < 128 ==> !is_continuation_byte(c));
    is_char_boundary_iff_not_is_continuation_byte(x, i);
    valid_utf8_split(x, i);
    let u = x.subrange(i, x.len() as int);
    assert(u[0] == c);
    assert(c < 128 ==> is_leading_byte_width_1(c));
    assert(length_of_first_scalar(u) == 1);
    is_char_boundary_start_end_of_seq(x);
    if i + 1 < x.len() {
        let v = pop_first_scalar(u);
        assert(valid_utf8(v));
        assert(v.len() > 0);
        is_char_boundary_start_end_of_seq(v);
        is_char_boundary_iff_not_is_continuation_byte(v, 0);
        assert(v[0] == x[i + 1]);
        is_char_boundary_iff_not_is_continuation_byte(x, i + 1);
    }
    let s = x.subrange(i, i + 1);
    assert(s[0] == c);
    assert(modules::ascii::is_ascii(s));
    modules::ascii::lemma_ascii(s);
    reveal_strlit("pub");
    reveal_strlit("extern");
    reveal_strlit("varargs");
    assert(decode_utf8(s).len() == 1);
    assert("pub"@.len() == 3 && "extern"@.len() == 6 && "varargs"@.len() == 7);
}

// ---------------------------------------------------------------------------
// Items

/// Two texts in a row, with their tokens.
spec fn in_a_row(x: Seq<u8>, y: Seq<u8>) -> bool {
    let toks = scanner::scanned(x + y, 0);
    let sig = significant(x + y);
    let a = picked(scanner::scanned(x, 0), significant(x));
    let b = picked(scanner::scanned(y, 0), significant(y));
    &&& valid_utf8(x)
    &&& valid_utf8(y)
    &&& valid_utf8(x + y)
    &&& modules::fits(x + y)
    &&& is_complete(x)
    &&& picked(toks, sig) == a + shifted(b, x.len() as int)
    &&& modules::ascii::in_line(x, scanner::scanned(x, 0), significant(x))
    &&& modules::ascii::in_line(y, scanner::scanned(y, 0), significant(y))
}

/// Significant token `k` of the first text.
proof fn lemma_left(x: Seq<u8>, y: Seq<u8>, k: int)
    requires
        in_a_row(x, y),
        0 <= k < significant(x).len(),
    ensures
        ({
            let t = scanner::scanned(x, 0)[significant(x)[k] as int];
            &&& k < significant(x + y).len()
            &&& scanner::scanned(x + y, 0)[significant(x + y)[k] as int] == t
            &&& modules::word(x + y, t) == modules::word(x, t)
        }),
{
    let toks = scanner::scanned(x + y, 0);
    let sig = significant(x + y);
    let a = picked(scanner::scanned(x, 0), significant(x));
    let b = shifted(picked(scanner::scanned(y, 0), significant(y)), x.len() as int);
    assert(picked(toks, sig).len() == sig.len());
    assert(picked(toks, sig)[k] == (a + b)[k]);
    assert(significant(x)[k] < scanner::scanned(x, 0).len());
    lemma_word_left(x, y, scanner::scanned(x, 0)[significant(x)[k] as int]);
}

/// Significant token `k` of the second text.
proof fn lemma_right(x: Seq<u8>, y: Seq<u8>, k: int)
    requires
        in_a_row(x, y),
        0 <= k < significant(y).len(),
    ensures
        ({
            let t = scanner::scanned(y, 0)[significant(y)[k] as int];
            let n = significant(x).len() + k;
            let u = scanner::scanned(x + y, 0)[significant(x + y)[n] as int];
            &&& n < significant(x + y).len()
            &&& u.kind == t.kind
            &&& modules::word(x + y, u) == modules::word(y, t)
        }),
{
    let toks = scanner::scanned(x + y, 0);
    let sig = significant(x + y);
    let a = picked(scanner::scanned(x, 0), significant(x));
    let b = shifted(picked(scanner::scanned(y, 0), significant(y)), x.len() as int);
    let n = significant(x).len() + k;
    assert(picked(toks, sig).len() == sig.len());
    assert(picked(toks, sig)[n] == (a + b)[n]);
    assert((a + b)[n] == b[k]);
    assert(significant(y)[k] < scanner::scanned(y, 0).len());
    let t = scanner::scanned(y, 0)[significant(y)[k] as int];
    lemma_word_right(x, y, t, toks[sig[n] as int]);
}

/// There are as many significant tokens as in both texts.
proof fn lemma_count(x: Seq<u8>, y: Seq<u8>)
    requires
        in_a_row(x, y),
    ensures
        significant(x + y).len() == significant(x).len() + significant(y).len(),
{
    let toks = scanner::scanned(x + y, 0);
    assert(picked(toks, significant(x + y)).len() == significant(x + y).len());
}

/// Whether a declaration of the first text is public does not change.
proof fn lemma_public_left(x: Seq<u8>, y: Seq<u8>, j: int)
    requires
        in_a_row(x, y),
        j <= significant(x).len(),
    ensures
        modules::is_public(x + y, scanner::scanned(x + y, 0), significant(x + y), j)
            == modules::is_public(x, scanner::scanned(x, 0), significant(x), j),
    decreases j,
{
    if j > 0 {
        lemma_left(x, y, j - 1);
        lemma_public_left(x, y, j - 1);
    }
}

/// Whether a declaration of the second text is public does not change.
proof fn lemma_public_right(x: Seq<u8>, y: Seq<u8>, j: int)
    requires
        in_a_row(x, y),
        0 <= j <= significant(y).len(),
    ensures
        modules::is_public(
            x + y,
            scanner::scanned(x + y, 0),
            significant(x + y),
            significant(x).len() + j,
        ) == modules::is_public(y, scanner::scanned(y, 0), significant(y), j),
    decreases j,
{
    if j > 0 {
        lemma_right(x, y, j - 1);
        lemma_public_right(x, y, j - 1);
    } else if significant(x).len() > 0 {
        let k = significant(x).len() - 1;
        lemma_left(x, y, k);
        let toks = scanner::scanned(x, 0);
        let t = toks[significant(x)[k] as int];
        assert(significant(x)[k] < toks.len());
        lemma_token_found(x, 0, significant(x)[k] as int);
        lemma_end_word(x, t);
    }
}

/// A token of a text that ends a declaration is one byte of it.
proof fn lemma_token_found(b: Seq<u8>, i: int, k: int)
    requires
        b.len() <= usize::MAX,
        0 <= i,
        0 <= k < scanner::scanned(b, i).len(),
    ensures
        ({
            let t = scanner::scanned(b, i)[k];
            ends(t.kind) ==> t.start < b.len() && t.end == t.start + 1 && b[t.start as int] < 128
        }),
    decreases b.len() + 4 - i,
{
    if i < b.len() {
        scanner::lemma_token(b, i);
        let end = scanner::token(b, i).1;
        let toks = scanner::scanned(b, i);
        assert(toks == seq![scanner::token_at(b, i)] + scanner::scanned(b, end));
        if k > 0 {
            assert(toks[k] == scanner::scanned(b, end)[k - 1]);
            lemma_token_found(b, end, k - 1);
        } else {
            assert(toks[0] == scanner::token_at(b, i));
        }
    }
}

/// The items from significant token `k` of the first text on: those that it declares,
/// and what the second text adds to them.
proof fn lemma_items_left(x: Seq<u8>, y: Seq<u8>, k: int, d: Declared)
    requires
        in_a_row(x, y),
        0 <= k <= significant(x).len(),
    ensures
        ({
            let toks = scanner::scanned(x, 0);
            let sig = significant(x);
            let depth = nesting(toks, sig, k);
            let all = scanner::scanned(x + y, 0);
            modules::declared(x + y, all, significant(x + y), k, depth, d) == match modules::declared(
                x,
                toks,
                sig,
                k,
                depth,
                d,
            ) {
                Some(e) => modules::declared(
                    x + y,
                    all,
                    significant(x + y),
                    sig.len() as int,
                    0,
                    e,
                ),
                None => None,
            }
        }),
    decreases significant(x).len() - k,
{
    let toks = scanner::scanned(x, 0);
    let sig = significant(x);
    if k < sig.len() {
        lemma_count(x, y);
        lemma_left(x, y, k);
        let t = toks[sig[k] as int];
        let depth = nesting(toks, sig, k);
        if t.kind is Ident && depth == 0 {
            if k + 1 < sig.len() {
                lemma_left(x, y, k + 1);
            } else {
                assert(sig.last() == sig[k]);
            }
            lemma_public_left(x, y, k);
            let z = modules::declaration(
                x + y,
                scanner::scanned(x + y, 0),
                significant(x + y),
                k,
                d,
            );
            assert(z == modules::declaration(x, toks, sig, k, d));
            if let Some(e) = z {
                lemma_items_left(x, y, k + 1, e);
            }
        } else {
            lemma_items_left(x, y, k + 1, d);
        }
    }
}

/// The items from significant token `k` of the second text on, together with those of
/// the first one.
proof fn lemma_items_right(
    x: Seq<u8>,
    y: Seq<u8>,
    k: int,
    depth: int,
    d: Declared,
    e: Declared,
)
    requires
        in_a_row(x, y),
        0 <= k <= significant(y).len(),
    ensures
        modules::declared(
            x + y,
            scanner::scanned(x + y, 0),
            significant(x + y),
            significant(x).len() + k,
            depth,
            both(d, e),
        ) == match modules::declared(
            y,
            scanner::scanned(y, 0),
            significant(y),
            k,
            depth,
            e,
        ) {
            Some(e) => Some(both(d, e)),
            None => None,
        },
    decreases significant(y).len() - k,
{
    let toks = scanner::scanned(y, 0);
    let sig = significant(y);
    lemma_count(x, y);
    if k < sig.len() {
        lemma_right(x, y, k);
        let t = toks[sig[k] as int];
        let n = significant(x).len() + k;
        if t.kind == Kind::Punct(123) {
            lemma_items_right(x, y, k + 1, depth + 1, d, e);
        } else if t.kind == Kind::Punct(125) {
            lemma_items_right(x, y, k + 1, depth - 1, d, e);
        } else if t.kind is Ident && depth == 0 {
            if k + 1 < sig.len() {
                lemma_right(x, y, k + 1);
            }
            lemma_public_right(x, y, k);
            let z = modules::declaration(
                x + y,
                scanner::scanned(x + y, 0),
                significant(x + y),
                n as int,
                both(d, e),
            );
            match modules::declaration(y, toks, sig, k, e) {
                Some(f) => {
                    assert(z is Some);
                    assert(z->0.items =~= both(d, f).items);
                    assert(z->0.public =~= both(d, f).public);
                    lemma_items_right(x, y, k + 1, depth, d, f);
                },
                None => {
                    assert(z is None);
                },
            }
        } else {
            lemma_items_right(x, y, k + 1, depth, d, e);
        }
    }
}

/// Two texts in a row, of which the first is complete, declare what both declare.
pub proof fn lemma_items_of_both(x: Seq<u8>, y: Seq<u8>)
    requires
        valid_utf8(x),
        valid_utf8(y),
        modules::fits(x + y),
        is_complete(x),
    ensures
        modules::items_of(x + y) == match (modules::items_of(x), modules::items_of(y)) {
            (Some(d), Some(e)) => Some(both(d, e)),
            _ => None,
        },
{
    reveal(modules::items_of);
    valid_utf8_concat(x, y);
    lemma_tokens(x, 0);
    lemma_tokens(y, 0);
    lemma_tokens(x + y, 0);
    lemma_tokens_join(x, y, 0);
    modules::ascii::lemma_in_line(x);
    modules::ascii::lemma_in_line(y);
    assert(in_a_row(x, y));
    let none = Declared { items: Set::empty(), public: Set::empty() };
    lemma_items_left(x, y, 0, none);
    if let Some(d) = modules::items_of(x) {
        lemma_items_right(x, y, 0, 0, d, none);
        assert(both(d, none).items =~= d.items);
        assert(both(d, none).public =~= d.public);
    }
}

} // verus!
