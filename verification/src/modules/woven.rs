//! Text in which a prefix is put before some of the letters, and what the scanner
//! makes of it: the same tokens, further on.

use vstd::prelude::*;
use crate::modules;
use crate::modules::ascii::{is_identifier, significant};
use crate::scanner;
use crate::scanner::{Class, Tok};

verus! {

/// Where byte `i` of a text is, with the `n` bytes before it if it is marked, once
/// `n` bytes are put before every marked byte.
pub open spec fn place(marks: Seq<bool>, n: int, i: int) -> int
    decreases i,
{
    if i <= 0 {
        0
    } else {
        place(marks, n, i - 1) + 1 + if i - 1 < marks.len() && marks[i - 1] {
            n
        } else {
            0
        }
    }
}

/// Whether byte `i` is at its place, with the prefix before it if it is marked.
pub open spec fn placed(b: Seq<u8>, marks: Seq<bool>, prefix: Seq<u8>, r: Seq<u8>, i: int) -> bool {
    let at = place(marks, prefix.len() as int, i);
    if marks[i] {
        &&& r[at + prefix.len()] == b[i]
        &&& forall|j: int| 0 <= j < prefix.len() ==> r[at + j] == #[trigger] prefix[j]
    } else {
        r[at] == b[i]
    }
}

/// Whether `r` is `b` with a prefix before every marked byte.
pub open spec fn woven(b: Seq<u8>, marks: Seq<bool>, prefix: Seq<u8>, r: Seq<u8>) -> bool {
    &&& marks.len() == b.len()
    &&& r.len() == place(marks, prefix.len() as int, b.len() as int)
    &&& forall|i: int| 0 <= i < b.len() ==> #[trigger] placed(b, marks, prefix, r, i)
}

/// Whether only letters and underscores are marked.
pub open spec fn on_letters(b: Seq<u8>, marks: Seq<bool>) -> bool {
    &&& marks.len() == b.len()
    &&& forall|i: int|
        0 <= i < b.len() && #[trigger] marks[i] ==> scanner::is_letter(b[i]) || b[i] == 95
}

/// Marks of which none is set.
pub open spec fn no_marks(n: int) -> Seq<bool> {
    Seq::new(n as nat, |i: int| false)
}

// ---------------------------------------------------------------------------
// Places

/// Places go up.
pub proof fn lemma_place(marks: Seq<bool>, n: int, i: int, j: int)
    requires
        0 <= n,
        0 <= i <= j,
    ensures
        0 <= place(marks, n, i) <= place(marks, n, j),
        place(marks, n, j) - place(marks, n, i) >= j - i,
    decreases j,
{
    if i < j {
        lemma_place(marks, n, i, j - 1);
    } else if i > 0 {
        lemma_place(marks, n, i - 1, i - 1);
    }
}

/// Places in marks behind others.
proof fn lemma_place_behind(a: Seq<bool>, c: Seq<bool>, n: int, j: int)
    requires
        0 <= j,
    ensures
        place(a + c, n, a.len() + j) == place(a, n, a.len() as int) + place(c, n, j),
    decreases j,
{
    if j > 0 {
        lemma_place_behind(a, c, n, j - 1);
        if j - 1 < c.len() {
            assert((a + c)[a.len() + j - 1] == c[j - 1]);
        }
    } else {
        lemma_place_before(a, c, n, a.len() as int);
    }
}

/// Places in marks before others.
proof fn lemma_place_before(a: Seq<bool>, c: Seq<bool>, n: int, i: int)
    requires
        i <= a.len(),
    ensures
        place(a + c, n, i) == place(a, n, i),
    decreases i,
{
    if i > 0 {
        lemma_place_before(a, c, n, i - 1);
        assert((a + c)[i - 1] == a[i - 1]);
    }
}

/// Places in a part of marks.
pub proof fn lemma_place_part(marks: Seq<bool>, n: int, x: int, y: int, j: int)
    requires
        0 <= x <= y <= marks.len(),
        0 <= j <= y - x,
    ensures
        place(marks.subrange(x, y), n, j) == place(marks, n, x + j) - place(marks, n, x),
    decreases j,
{
    if j > 0 {
        lemma_place_part(marks, n, x, y, j - 1);
        assert(marks.subrange(x, y)[j - 1] == marks[x + j - 1]);
    }
}

// ---------------------------------------------------------------------------
// Weaving

/// Two texts with prefixes in a row are the texts in a row with prefixes.
pub proof fn lemma_woven_join(
    b: Seq<u8>,
    marks: Seq<bool>,
    r: Seq<u8>,
    c: Seq<u8>,
    more: Seq<bool>,
    s: Seq<u8>,
    prefix: Seq<u8>,
)
    requires
        woven(b, marks, prefix, r),
        woven(c, more, prefix, s),
    ensures
        woven(b + c, marks + more, prefix, r + s),
        on_letters(b, marks) && on_letters(c, more) ==> on_letters(b + c, marks + more),
{
    let n = prefix.len() as int;
    let all = marks + more;
    lemma_place_behind(marks, more, n, c.len() as int);
    assert forall|i: int| 0 <= i < (b + c).len() implies #[trigger] placed(
        b + c,
        all,
        prefix,
        r + s,
        i,
    ) by {
        if i < b.len() {
            assert(placed(b, marks, prefix, r, i));
            lemma_place_before(marks, more, n, i);
            lemma_place(marks, n, i + 1, b.len() as int);
            lemma_place(marks, n, i, i);
            assert(all[i] == marks[i]);
            assert((b + c)[i] == b[i]);
        } else {
            let j = i - b.len();
            assert(placed(c, more, prefix, s, j));
            lemma_place_behind(marks, more, n, j);
            lemma_place(more, n, j, j);
            lemma_place(more, n, j + 1, c.len() as int);
            assert(all[i] == more[j]);
            assert((b + c)[i] == c[j]);
        }
    }
    if on_letters(b, marks) && on_letters(c, more) {
        assert forall|i: int| 0 <= i < (b + c).len() && #[trigger] all[i] implies scanner::is_letter(
            (b + c)[i],
        ) || (b + c)[i] == 95 by {
            if i < b.len() {
                assert(marks[i]);
            } else {
                assert(more[i - b.len()]);
            }
        }
    }
}

/// A part of a text with prefixes.
pub proof fn lemma_woven_part(
    b: Seq<u8>,
    marks: Seq<bool>,
    r: Seq<u8>,
    prefix: Seq<u8>,
    x: int,
    y: int,
)
    requires
        woven(b, marks, prefix, r),
        0 <= x <= y <= b.len(),
    ensures
        0 <= place(marks, prefix.len() as int, x) <= place(marks, prefix.len() as int, y)
            <= r.len(),
        woven(
            b.subrange(x, y),
            marks.subrange(x, y),
            prefix,
            r.subrange(
                place(marks, prefix.len() as int, x),
                place(marks, prefix.len() as int, y),
            ),
        ),
        on_letters(b, marks) ==> on_letters(b.subrange(x, y), marks.subrange(x, y)),
{
    let n = prefix.len() as int;
    lemma_place(marks, n, x, y);
    lemma_place(marks, n, y, b.len() as int);
    let part = b.subrange(x, y);
    let some = marks.subrange(x, y);
    let s = r.subrange(place(marks, n, x), place(marks, n, y));
    lemma_place_part(marks, n, x, y, y - x);
    assert forall|i: int| 0 <= i < part.len() implies #[trigger] placed(
        part,
        some,
        prefix,
        s,
        i,
    ) by {
        assert(placed(b, marks, prefix, r, x + i));
        lemma_place_part(marks, n, x, y, i);
        lemma_place(marks, n, x, x + i);
        lemma_place(marks, n, x + i + 1, y);
        assert(some[i] == marks[x + i]);
        assert(part[i] == b[x + i]);
    }
    if on_letters(b, marks) {
        assert forall|i: int| 0 <= i < part.len() && #[trigger] some[i] implies scanner::is_letter(
            part[i],
        ) || part[i] == 95 by {
            assert(marks[x + i]);
        }
    }
}

/// Places where nothing is marked, or only the first byte.
proof fn lemma_place_plain(marks: Seq<bool>, n: int, i: int)
    requires
        0 <= i,
        forall|j: int| 0 < j < marks.len() ==> !#[trigger] marks[j],
    ensures
        place(marks, n, i) == i + if i > 0 && marks.len() > 0 && marks[0] {
            n
        } else {
            0
        },
    decreases i,
{
    if i > 0 {
        lemma_place_plain(marks, n, i - 1);
    }
}

/// A text without marks stays as it is.
pub proof fn lemma_woven_plain(b: Seq<u8>, prefix: Seq<u8>)
    ensures
        woven(b, no_marks(b.len() as int), prefix, b),
        on_letters(b, no_marks(b.len() as int)),
{
    let marks = no_marks(b.len() as int);
    lemma_place_plain(marks, prefix.len() as int, b.len() as int);
    assert forall|i: int| 0 <= i < b.len() implies #[trigger] placed(
        b,
        marks,
        prefix,
        b,
        i,
    ) by {
        lemma_place_plain(marks, prefix.len() as int, i);
    }
}

/// A text without marks is the same with prefixes.
pub proof fn lemma_plain(b: Seq<u8>, marks: Seq<bool>, prefix: Seq<u8>, r: Seq<u8>)
    requires
        woven(b, marks, prefix, r),
        forall|j: int| 0 <= j < marks.len() ==> !#[trigger] marks[j],
    ensures
        r == b,
{
    lemma_place_plain(marks, prefix.len() as int, b.len() as int);
    assert forall|i: int| 0 <= i < b.len() implies r[i] == b[i] by {
        assert(placed(b, marks, prefix, r, i));
        lemma_place_plain(marks, prefix.len() as int, i);
    }
    assert(r =~= b);
}

/// The marks of a word whose first byte is marked.
pub open spec fn first_marked(n: int) -> Seq<bool> {
    Seq::new(n as nat, |i: int| i == 0)
}

/// A word with a prefix before its first byte.
pub proof fn lemma_woven_word(b: Seq<u8>, prefix: Seq<u8>)
    requires
        b.len() > 0,
        scanner::is_letter(b[0]) || b[0] == 95,
    ensures
        woven(b, first_marked(b.len() as int), prefix, prefix + b),
        on_letters(b, first_marked(b.len() as int)),
{
    let marks = first_marked(b.len() as int);
    let r = prefix + b;
    lemma_place_plain(marks, prefix.len() as int, b.len() as int);
    assert forall|i: int| 0 <= i < b.len() implies #[trigger] placed(
        b,
        marks,
        prefix,
        r,
        i,
    ) by {
        lemma_place_plain(marks, prefix.len() as int, i);
        if i == 0 {
            assert(r[prefix.len() as int] == b[0]);
        } else {
            assert(r[i + prefix.len()] == b[i]);
        }
    }
}

/// A text of which only the first byte is marked has the prefix before it.
pub proof fn lemma_word(b: Seq<u8>, marks: Seq<bool>, prefix: Seq<u8>, r: Seq<u8>)
    requires
        woven(b, marks, prefix, r),
        b.len() > 0,
        marks[0],
        forall|j: int| 0 < j < marks.len() ==> !#[trigger] marks[j],
    ensures
        r == prefix + b,
{
    let n = prefix.len() as int;
    lemma_place_plain(marks, n, b.len() as int);
    assert(placed(b, marks, prefix, r, 0));
    assert forall|i: int| 0 <= i < r.len() implies r[i] == (prefix + b)[i] by {
        if i < n {
            assert(r[0 + i] == prefix[i]);
        } else {
            assert(placed(b, marks, prefix, r, i - n));
            lemma_place_plain(marks, n, i - n);
        }
    }
    assert(r =~= prefix + b);
}

// ---------------------------------------------------------------------------
// Scanning

/// Whether `r` is `b` with an identifier before some of its letters.
pub open spec fn spun(b: Seq<u8>, marks: Seq<bool>, prefix: Seq<u8>, r: Seq<u8>) -> bool {
    woven(b, marks, prefix, r) && on_letters(b, marks) && is_identifier(prefix)
}

/// Bytes of words from `p` to `q`.
pub open spec fn wordy(r: Seq<u8>, p: int, q: int) -> bool {
    &&& 0 <= p <= q <= r.len()
    &&& forall|x: int| p <= x < q ==> scanner::in_class(#[trigger] r[x], Class::Word)
}

/// Byte `i` and the prefix before it.
pub proof fn lemma_at(b: Seq<u8>, marks: Seq<bool>, prefix: Seq<u8>, r: Seq<u8>, i: int)
    requires
        spun(b, marks, prefix, r),
        0 <= i < b.len(),
    ensures
        ({
            let n = prefix.len() as int;
            let p = place(marks, n, i);
            let q = place(marks, n, i + 1);
            &&& 0 <= p < q <= r.len()
            &&& !marks[i] ==> q == p + 1 && r[p] == b[i]
            &&& marks[i] ==> q == p + 1 + n && wordy(r, p, q) && scanner::in_class(
                b[i],
                Class::Word,
            ) && (scanner::is_letter(b[i]) || b[i] == 95) && (scanner::is_letter(r[p]) || r[p]
                == 95)
        }),
{
    let n = prefix.len() as int;
    lemma_place(marks, n, 0, i);
    lemma_place(marks, n, i + 1, b.len() as int);
    assert(placed(b, marks, prefix, r, i));
    let p = place(marks, n, i);
    if marks[i] {
        assert forall|x: int| p <= x < p + 1 + n implies scanner::in_class(
            #[trigger] r[x],
            Class::Word,
        ) by {
            if x < p + n {
                assert(r[p + (x - p)] == prefix[x - p]);
                assert(scanner::in_class(prefix[x - p], Class::Word));
            }
        }
        assert(r[p + 0] == prefix[0]);
    }
}

/// The places behind the end.
pub proof fn lemma_behind(b: Seq<u8>, marks: Seq<bool>, prefix: Seq<u8>, r: Seq<u8>, i: int)
    requires
        woven(b, marks, prefix, r),
        i >= b.len(),
    ensures
        place(marks, prefix.len() as int, i) == r.len() + (i - b.len()),
    decreases i,
{
    if i > b.len() {
        lemma_behind(b, marks, prefix, r, i - 1);
    }
}

/// A run goes on over bytes of its class.
proof fn lemma_run_over(r: Seq<u8>, p: int, q: int, class: Class)
    requires
        0 <= p <= q <= r.len(),
        forall|x: int| p <= x < q ==> scanner::in_class(#[trigger] r[x], class),
    ensures
        scanner::run_end(r, p, class) == scanner::run_end(r, q, class),
    decreases q - p,
{
    if p < q {
        assert(scanner::in_class(r[p], class));
        lemma_run_over(r, p + 1, q, class);
    }
}

/// Runs end at the same places.
proof fn lemma_runs(
    b: Seq<u8>,
    marks: Seq<bool>,
    prefix: Seq<u8>,
    r: Seq<u8>,
    i: int,
    class: Class,
)
    requires
        spun(b, marks, prefix, r),
        0 <= i <= b.len(),
    ensures
        scanner::run_end(r, place(marks, prefix.len() as int, i), class) == place(
            marks,
            prefix.len() as int,
            scanner::run_end(b, i, class),
        ),
    decreases b.len() - i,
{
    let n = prefix.len() as int;
    let p = place(marks, n, i);
    if i < b.len() {
        lemma_at(b, marks, prefix, r, i);
        let q = place(marks, n, i + 1);
        if scanner::in_class(b[i], class) {
            assert forall|x: int| p <= x < q implies scanner::in_class(
                #[trigger] r[x],
                class,
            ) by {
                if marks[i] {
                    assert(scanner::in_class(r[x], Class::Word));
                }
            }
            lemma_run_over(r, p, q, class);
            lemma_runs(b, marks, prefix, r, i + 1, class);
        }
    } else {
        lemma_behind(b, marks, prefix, r, i);
    }
}

/// Quoted text goes on over bytes of words.
proof fn lemma_quoted_over(r: Seq<u8>, p: int, q: int, quote: u8)
    requires
        wordy(r, p, q),
        quote == 34 || quote == 39,
    ensures
        scanner::quoted_end(r, p, quote) == scanner::quoted_end(r, q, quote),
    decreases q - p,
{
    if p < q {
        assert(scanner::in_class(r[p], Class::Word));
        lemma_quoted_over(r, p + 1, q, quote);
    }
}

/// Bytes of words lie between the byte behind a backslash and the one after it.
proof fn lemma_hidden(b: Seq<u8>, marks: Seq<bool>, prefix: Seq<u8>, r: Seq<u8>, i: int)
    requires
        spun(b, marks, prefix, r),
        0 <= i < b.len(),
        !marks[i],
    ensures
        ({
            let n = prefix.len() as int;
            let p = place(marks, n, i) + 2;
            let q = place(marks, n, i + 2);
            p == q || wordy(r, p, q)
        }),
{
    lemma_at(b, marks, prefix, r, i);
    if i + 1 < b.len() {
        lemma_at(b, marks, prefix, r, i + 1);
    }
}

/// Quoted text ends at the same places.
proof fn lemma_quotes(
    b: Seq<u8>,
    marks: Seq<bool>,
    prefix: Seq<u8>,
    r: Seq<u8>,
    i: int,
    quote: u8,
)
    requires
        spun(b, marks, prefix, r),
        0 <= i,
        quote == 34 || quote == 39,
    ensures
        scanner::quoted_end(r, place(marks, prefix.len() as int, i), quote) == place(
            marks,
            prefix.len() as int,
            scanner::quoted_end(b, i, quote),
        ),
    decreases b.len() + 4 - i,
{
    let n = prefix.len() as int;
    let p = place(marks, n, i);
    if i < b.len() {
        lemma_at(b, marks, prefix, r, i);
        if marks[i] {
            lemma_quoted_over(r, p, place(marks, n, i + 1), quote);
            lemma_quotes(b, marks, prefix, r, i + 1, quote);
        } else if b[i] == 92 {
            lemma_hidden(b, marks, prefix, r, i);
            let q = place(marks, n, i + 2);
            if p + 2 != q {
                lemma_quoted_over(r, p + 2, q, quote);
            }
            lemma_quotes(b, marks, prefix, r, i + 2, quote);
        } else if b[i] != quote {
            lemma_quotes(b, marks, prefix, r, i + 1, quote);
        }
    } else {
        lemma_behind(b, marks, prefix, r, i);
    }
}

/// Code goes on over bytes of words.
proof fn lemma_braces_over(r: Seq<u8>, p: int, q: int, depth: int)
    requires
        wordy(r, p, q),
        depth > 0,
    ensures
        scanner::braces_end(r, p, depth) == scanner::braces_end(r, q, depth),
    decreases q - p,
{
    if p < q {
        assert(scanner::in_class(r[p], Class::Word));
        lemma_braces_over(r, p + 1, q, depth);
    }
}

/// Code ends at the same places.
pub proof fn lemma_code(
    b: Seq<u8>,
    marks: Seq<bool>,
    prefix: Seq<u8>,
    r: Seq<u8>,
    i: int,
    depth: int,
)
    requires
        spun(b, marks, prefix, r),
        0 <= i,
    ensures
        scanner::braces_end(r, place(marks, prefix.len() as int, i), depth) == place(
            marks,
            prefix.len() as int,
            scanner::braces_end(b, i, depth),
        ),
    decreases b.len() + 4 - i,
{
    let n = prefix.len() as int;
    let p = place(marks, n, i);
    if i < b.len() {
        lemma_at(b, marks, prefix, r, i);
        if depth > 0 {
            if marks[i] {
                lemma_braces_over(r, p, place(marks, n, i + 1), depth);
                lemma_code(b, marks, prefix, r, i + 1, depth);
            } else if b[i] == 123 {
                lemma_code(b, marks, prefix, r, i + 1, depth + 1);
            } else if b[i] == 125 {
                lemma_code(b, marks, prefix, r, i + 1, depth - 1);
            } else if b[i] == 34 {
                let q = scanner::quoted_end(b, i + 1, 34);
                scanner::lemma_quoted_end(b, i + 1, 34);
                lemma_quotes(b, marks, prefix, r, i + 1, 34);
                lemma_quote_found(b, i + 1, 34);
                if q < b.len() {
                    assert(!marks[q]);
                }
                lemma_code(b, marks, prefix, r, q + 1, depth);
            } else {
                lemma_code(b, marks, prefix, r, i + 1, depth);
            }
        }
    } else {
        lemma_behind(b, marks, prefix, r, i);
    }
}

/// Quoted text ends at a quote, or behind the end.
proof fn lemma_quote_found(b: Seq<u8>, i: int, quote: u8)
    requires
        0 <= i,
    ensures
        ({
            let q = scanner::quoted_end(b, i, quote);
            q < b.len() ==> b[q] == quote
        }),
    decreases b.len() + 4 - i,
{
    if i < b.len() && b[i] != quote {
        if b[i] == 92 {
            lemma_quote_found(b, i + 2, quote);
        } else {
            lemma_quote_found(b, i + 1, quote);
        }
    }
}

/// Interpolations start at the same places.
pub proof fn lemma_interpolates(
    b: Seq<u8>,
    marks: Seq<bool>,
    prefix: Seq<u8>,
    r: Seq<u8>,
    i: int,
)
    requires
        spun(b, marks, prefix, r),
        0 <= i < b.len(),
        !marks[i],
    ensures
        scanner::interpolates(r, place(marks, prefix.len() as int, i)) == scanner::interpolates(
            b,
            i,
        ),
        scanner::interpolates(b, i) ==> place(marks, prefix.len() as int, i + 2) == place(
            marks,
            prefix.len() as int,
            i,
        ) + 2,
        r[place(marks, prefix.len() as int, i)] == b[i],
        place(marks, prefix.len() as int, i) < r.len(),
{
    lemma_at(b, marks, prefix, r, i);
    if i + 1 < b.len() {
        lemma_at(b, marks, prefix, r, i + 1);
        if marks[i + 1] {
            assert(scanner::in_class(r[place(marks, prefix.len() as int, i + 1)], Class::Word));
        }
    } else {
        lemma_behind(b, marks, prefix, r, i + 1);
    }
}

/// Strings go on over bytes of words.
proof fn lemma_string_over(r: Seq<u8>, p: int, q: int)
    requires
        wordy(r, p, q),
    ensures
        scanner::string_end(r, p) == scanner::string_end(r, q),
    decreases q - p,
{
    if p < q {
        assert(scanner::in_class(r[p], Class::Word));
        lemma_string_over(r, p + 1, q);
    }
}

/// Strings end at the same places.
proof fn lemma_strings(b: Seq<u8>, marks: Seq<bool>, prefix: Seq<u8>, r: Seq<u8>, i: int)
    requires
        spun(b, marks, prefix, r),
        0 <= i,
    ensures
        scanner::string_end(r, place(marks, prefix.len() as int, i)) == place(
            marks,
            prefix.len() as int,
            scanner::string_end(b, i),
        ),
    decreases b.len() + 4 - i,
{
    let n = prefix.len() as int;
    let p = place(marks, n, i);
    if i < b.len() {
        lemma_at(b, marks, prefix, r, i);
        if marks[i] {
            lemma_string_over(r, p, place(marks, n, i + 1));
            lemma_strings(b, marks, prefix, r, i + 1);
        } else if b[i] == 92 {
            lemma_hidden(b, marks, prefix, r, i);
            let q = place(marks, n, i + 2);
            if p + 2 != q {
                lemma_string_over(r, p + 2, q);
            }
            lemma_strings(b, marks, prefix, r, i + 2);
        } else if b[i] != 34 {
            lemma_interpolates(b, marks, prefix, r, i);
            if scanner::interpolates(b, i) {
                scanner::lemma_braces_end(b, i + 2, 1);
                lemma_code(b, marks, prefix, r, i + 2, 1);
                lemma_strings(b, marks, prefix, r, scanner::interpolation(b, i));
            } else {
                lemma_strings(b, marks, prefix, r, i + 1);
            }
        }
    } else {
        lemma_behind(b, marks, prefix, r, i);
    }
}

/// Strings end at a quote, or behind the end.
proof fn lemma_string_found(b: Seq<u8>, i: int)
    requires
        0 <= i,
    ensures
        ({
            let q = scanner::string_end(b, i);
            q < b.len() ==> b[q] == 34
        }),
    decreases b.len() + 4 - i,
{
    if i < b.len() && b[i] != 34 {
        if b[i] == 92 {
            lemma_string_found(b, i + 2);
        } else if scanner::interpolates(b, i) {
            scanner::lemma_braces_end(b, i + 2, 1);
            lemma_string_found(b, scanner::interpolation(b, i));
        } else {
            lemma_string_found(b, i + 1);
        }
    }
}

/// Tokens are the same, and end at the same places.
proof fn lemma_token(b: Seq<u8>, marks: Seq<bool>, prefix: Seq<u8>, r: Seq<u8>, i: int)
    requires
        spun(b, marks, prefix, r),
        0 <= i < b.len(),
    ensures
        scanner::token(r, place(marks, prefix.len() as int, i)) == (
            scanner::token(b, i).0,
            place(marks, prefix.len() as int, scanner::token(b, i).1),
        ),
{
    let n = prefix.len() as int;
    let p = place(marks, n, i);
    lemma_at(b, marks, prefix, r, i);
    if i + 1 < b.len() {
        lemma_at(b, marks, prefix, r, i + 1);
        if marks[i + 1] {
            assert(scanner::in_class(r[place(marks, n, i + 1)], Class::Word));
        }
    } else {
        lemma_behind(b, marks, prefix, r, i + 1);
    }
    lemma_runs(b, marks, prefix, r, i, Class::Line);
    lemma_runs(b, marks, prefix, r, i, Class::Space);
    lemma_runs(b, marks, prefix, r, i, Class::Word);
    if !marks[i] {
        lemma_strings(b, marks, prefix, r, i + 1);
        lemma_string_found(b, i + 1);
        scanner::lemma_string_end(b, i + 1);
        let s = scanner::string_end(b, i + 1);
        if s < b.len() {
            lemma_at(b, marks, prefix, r, s);
        }
        lemma_quotes(b, marks, prefix, r, i + 1, 39);
        lemma_quote_found(b, i + 1, 39);
        scanner::lemma_quoted_end(b, i + 1, 39);
        let q = scanner::quoted_end(b, i + 1, 39);
        if q < b.len() {
            lemma_at(b, marks, prefix, r, q);
        }
    }
}

/// Tokens at their places.
pub open spec fn moved(ts: Seq<Tok>, marks: Seq<bool>, n: int) -> Seq<Tok> {
    Seq::new(
        ts.len(),
        |k: int|
            Tok {
                kind: ts[k].kind,
                start: place(marks, n, ts[k].start as int) as usize,
                end: place(marks, n, ts[k].end as int) as usize,
            },
    )
}

/// The tokens of a text with prefixes are those of the text, at their places.
pub proof fn lemma_scanned(b: Seq<u8>, marks: Seq<bool>, prefix: Seq<u8>, r: Seq<u8>, i: int)
    requires
        spun(b, marks, prefix, r),
        b.len() <= usize::MAX,
        r.len() <= usize::MAX,
        0 <= i,
    ensures
        scanner::scanned(r, place(marks, prefix.len() as int, i)) == moved(
            scanner::scanned(b, i),
            marks,
            prefix.len() as int,
        ),
    decreases b.len() + 4 - i,
{
    let n = prefix.len() as int;
    let p = place(marks, n, i);
    if i < b.len() {
        scanner::lemma_token(b, i);
        lemma_token(b, marks, prefix, r, i);
        lemma_at(b, marks, prefix, r, i);
        let end = scanner::token(b, i).1;
        lemma_scanned(b, marks, prefix, r, end);
        if end < b.len() {
            lemma_place(marks, n, end, b.len() as int);
        } else {
            lemma_behind(b, marks, prefix, r, end);
            lemma_behind(b, marks, prefix, r, b.len() as int);
        }
        let t = scanner::token_at(b, i);
        let rest = scanner::scanned(b, end);
        assert(scanner::scanned(b, i) == seq![t] + rest);
        assert(scanner::token_at(r, p) == (Tok {
            kind: t.kind,
            start: place(marks, n, t.start as int) as usize,
            end: place(marks, n, t.end as int) as usize,
        }));
        assert(scanner::scanned(r, p) == seq![scanner::token_at(r, p)] + scanner::scanned(
            r,
            place(marks, n, end),
        ));
        assert(moved(seq![t] + rest, marks, n) =~= seq![scanner::token_at(r, p)] + moved(
            rest,
            marks,
            n,
        ));
    } else {
        lemma_behind(b, marks, prefix, r, i);
        assert(scanner::scanned(r, p) =~= moved(scanner::scanned(b, i), marks, n));
    }
}

/// The significant ones are the same.
proof fn lemma_kept(ts: Seq<Tok>, marks: Seq<bool>, n: int, k: int)
    requires
        k <= ts.len(),
    ensures
        scanner::kept(moved(ts, marks, n), k) == scanner::kept(ts, k),
    decreases k,
{
    if k > 0 {
        lemma_kept(ts, marks, n, k - 1);
    }
}

/// The tokens of a text with prefixes, and which of them are significant.
pub proof fn lemma_tokens(b: Seq<u8>, marks: Seq<bool>, prefix: Seq<u8>, r: Seq<u8>)
    requires
        spun(b, marks, prefix, r),
        modules::fits(b),
        modules::fits(r),
    ensures
        scanner::scanned(r, 0) == moved(scanner::scanned(b, 0), marks, prefix.len() as int),
        significant(r) == significant(b),
{
    lemma_scanned(b, marks, prefix, r, 0);
    let toks = scanner::scanned(b, 0);
    lemma_kept(toks, marks, prefix.len() as int, toks.len() as int);
}

} // verus!
