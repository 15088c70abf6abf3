//! Rewriting a module that was rewritten before.

use vstd::prelude::*;
use vstd::utf8::*;
use crate::modules;
use crate::modules::ascii;
use crate::modules::ascii::{
    chars, in_line, is_ascii, is_closed, is_identifier, significant, string_is_closed,
};
use crate::modules::woven;
use crate::modules::woven::{first_marked, no_marks, on_letters, place, spun, woven};
use crate::modules::{Info, Outcome, Progress, Turn};
use crate::scanner;
use crate::scanner::{Kind, Tok};

verus! {

/// Whether the new names of a module's items, which start with `prefix`, are no items,
/// and the words on which renaming depends are none either.
pub open spec fn renames_once(m: Info, prefix: Seq<u8>) -> bool {
    &&& is_identifier(prefix)
    &&& prefix.last() == 95
    &&& m.prefix == chars(prefix)
    &&& forall|i: Seq<char>| #[trigger] m.items.contains(i) ==> !m.items.contains(m.prefix + i)
    &&& !m.items.contains("func"@)
    &&& !m.items.contains("enum"@)
}

// ---------------------------------------------------------------------------
// Which names are renamed

/// How deep in braces significant token `k` is, and in which bodies of enums.
spec fn context(b: Seq<u8>, toks: Seq<Tok>, sig: Seq<usize>, k: int) -> Progress
    decreases k,
{
    if k <= 0 {
        Progress { out: Seq::empty(), last: 0, depth: 0, pending: false, enums: Seq::empty() }
    } else {
        let p = context(b, toks, sig, k - 1);
        match toks[sig[k - 1] as int].kind {
            Kind::Punct(c) => if c == 123 {
                modules::opened(p)
            } else if c == 125 {
                modules::closed(p)
            } else {
                p
            },
            Kind::Ident => Progress {
                pending: p.pending || (text(b, toks, sig, k - 1) == "enum"@ && p.depth == 0),
                ..p
            },
            _ => p,
        }
    }
}

/// The text of significant token `k`, or nothing before the first one.
spec fn text(b: Seq<u8>, toks: Seq<Tok>, sig: Seq<usize>, k: int) -> Seq<char> {
    if k < 0 {
        Seq::empty()
    } else {
        let t = toks[sig[k] as int];
        chars(b.subrange(t.start as int, t.end as int))
    }
}

/// Whether two states are at the same place.
spec fn same_place(p: Progress, q: Progress) -> bool {
    p.depth == q.depth && p.pending == q.pending && p.enums == q.enums
}

/// Whether significant token `k` is renamed.
spec fn own_at(b: Seq<u8>, toks: Seq<Tok>, sig: Seq<usize>, k: int, m: Info) -> bool {
    modules::is_own(
        toks,
        sig,
        k,
        text(b, toks, sig, k),
        text(b, toks, sig, k - 1),
        context(b, toks, sig, k),
        m,
    )
}

/// Whether nothing is marked.
spec fn blank(marks: Seq<bool>) -> bool {
    forall|j: int| 0 <= j < marks.len() ==> !#[trigger] marks[j]
}

/// Whether nothing is marked before `n`.
spec fn blank_to(marks: Seq<bool>, n: int) -> bool {
    forall|j: int| 0 <= j < n && j < marks.len() ==> !#[trigger] marks[j]
}

/// Whether the first byte of every name that is renamed is marked, and nothing else in
/// significant tokens.
spec fn marks_ok(b: Seq<u8>, marks: Seq<bool>, m: Info) -> bool
    decreases b.len(), 2int, 0int,
{
    let toks = scanner::scanned(b, 0);
    let sig = significant(b);
    &&& marks.len() == b.len()
    &&& forall|k: int|
        #![trigger sig[k]]
        0 <= k < sig.len() ==> token_ok(
            b,
            k,
            marks.subrange(toks[sig[k] as int].start as int, toks[sig[k] as int].end as int),
            m,
        )
}

/// The same for the marks of significant token `k`.
spec fn token_ok(b: Seq<u8>, k: int, marks: Seq<bool>, m: Info) -> bool
    decreases b.len(), 1int, 0int,
{
    let toks = scanner::scanned(b, 0);
    let sig = significant(b);
    let t = toks[sig[k] as int];
    match t.kind {
        Kind::Ident => {
            &&& marks.len() > 0
            &&& marks[0] == own_at(b, toks, sig, k, m)
            &&& forall|j: int| 0 < j < marks.len() ==> !#[trigger] marks[j]
        },
        Kind::Str => if t.start <= t.end <= b.len() && modules::has_interpolation(
            b.subrange(t.start as int, t.end as int),
            0,
        ) {
            string_ok(b.subrange(t.start as int, t.end as int), 0, marks, m)
        } else {
            blank(marks)
        },
        _ => blank(marks),
    }
}

/// The same for the marks of a string from position `i` on.
spec fn string_ok(s: Seq<u8>, i: int, marks: Seq<bool>, m: Info) -> bool
    decreases s.len(), 0int, s.len() + 4 - i,
{
    if i < 0 || i >= s.len() {
        true
    } else if s[i] == 92 {
        &&& !marks[i]
        &&& i + 1 < s.len() ==> !marks[i + 1]
        &&& string_ok(s, i + 2, marks, m)
    } else if scanner::interpolates(s, i) {
        proof {
            scanner::lemma_braces_end(s, i + 2, 1);
        }
        let end = scanner::interpolation(s, i);
        &&& !marks[i]
        &&& !marks[i + 1]
        &&& i + 3 <= end <= s.len() ==> !marks[end - 1] && marks_ok(
            s.subrange(i + 2, end - 1),
            marks.subrange(i + 2, end - 1),
            m,
        )
        &&& string_ok(s, end, marks, m)
    } else {
        &&& !marks[i]
        &&& string_ok(s, i + 1, marks, m)
    }
}

/// The marks of a string from `i` on are all that counts there.
proof fn lemma_string_marks(s: Seq<u8>, i: int, a: Seq<bool>, c: Seq<bool>, m: Info)
    requires
        string_ok(s, i, a, m),
        a.len() == s.len(),
        c.len() == s.len(),
        forall|j: int| i <= j < s.len() ==> #[trigger] a[j] == c[j],
    ensures
        string_ok(s, i, c, m),
    decreases s.len() + 4 - i,
{
    if i < 0 || i >= s.len() {
    } else if s[i] == 92 {
        assert(a[i] == c[i]);
        if i + 1 < s.len() {
            assert(a[i + 1] == c[i + 1]);
        }
        lemma_string_marks(s, i + 2, a, c, m);
    } else if scanner::interpolates(s, i) {
        scanner::lemma_braces_end(s, i + 2, 1);
        let end = scanner::interpolation(s, i);
        assert(a[i] == c[i]);
        assert(a[i + 1] == c[i + 1]);
        if i + 3 <= end <= s.len() {
            assert(a[end - 1] == c[end - 1]);
            assert(a.subrange(i + 2, end - 1) =~= c.subrange(i + 2, end - 1));
        }
        lemma_string_marks(s, end, a, c, m);
    } else {
        assert(a[i] == c[i]);
        lemma_string_marks(s, i + 1, a, c, m);
    }
}

/// A text is the same up to where nothing is marked.
proof fn lemma_blank_to(b: Seq<u8>, marks: Seq<bool>, prefix: Seq<u8>, r: Seq<u8>, y: int)
    requires
        woven(b, marks, prefix, r),
        blank_to(marks, y),
        0 <= y <= b.len(),
    ensures
        place(marks, prefix.len() as int, y) == y,
        y <= r.len(),
        r.subrange(0, y) == b.subrange(0, y),
{
    woven::lemma_woven_part(b, marks, r, prefix, 0, y);
    let some = marks.subrange(0, y);
    assert forall|j: int| 0 <= j < some.len() implies !#[trigger] some[j] by {
        assert(!marks[j]);
    }
    woven::lemma_plain(
        b.subrange(0, y),
        some,
        prefix,
        r.subrange(0, place(marks, prefix.len() as int, y)),
    );
}

/// Marks in a part of a text, with those of the rest behind it.
spec fn spliced_marks(x: int, part: Seq<bool>, marks: Seq<bool>, y: int) -> Seq<bool> {
    no_marks(x) + part + marks.subrange(y, marks.len() as int)
}

/// The text with prefixes in a part, and in the rest behind it.
spec fn spliced(b: Seq<u8>, x: int, part: Seq<u8>, r: Seq<u8>, y: int) -> Seq<u8> {
    b.subrange(0, x) + part + r.subrange(y, r.len() as int)
}

/// Prefixes are put into a part of a text that has none up to the end of that part.
proof fn lemma_splice(
    b: Seq<u8>,
    marks: Seq<bool>,
    prefix: Seq<u8>,
    r: Seq<u8>,
    x: int,
    y: int,
    some: Seq<bool>,
    part: Seq<u8>,
)
    requires
        woven(b, marks, prefix, r),
        on_letters(b, marks),
        is_ascii(b),
        is_ascii(r),
        blank_to(marks, y),
        0 <= x <= y <= b.len(),
        woven(b.subrange(x, y), some, prefix, part),
        on_letters(b.subrange(x, y), some),
        is_ascii(part),
    ensures
        ({
            let after = spliced_marks(x, some, marks, y);
            &&& after.len() == b.len()
            &&& woven(b, after, prefix, spliced(b, x, part, r, y))
            &&& on_letters(b, after)
            &&& is_ascii(spliced(b, x, part, r, y))
            &&& blank_to(after, x)
            &&& after.subrange(x, y) == some
            &&& forall|j: int| y <= j < b.len() ==> #[trigger] after[j] == marks[j]
        }),
        y <= r.len(),
{
    let len = b.len() as int;
    let after = spliced_marks(x, some, marks, y);
    lemma_blank_to(b, marks, prefix, r, y);
    woven::lemma_woven_part(b, marks, r, prefix, y, len);
    woven::lemma_woven_plain(b.subrange(0, x), prefix);
    woven::lemma_woven_join(
        b.subrange(0, x),
        no_marks(x),
        b.subrange(0, x),
        b.subrange(x, y),
        some,
        part,
        prefix,
    );
    woven::lemma_woven_join(
        b.subrange(0, x) + b.subrange(x, y),
        no_marks(x) + some,
        b.subrange(0, x) + part,
        b.subrange(y, len),
        marks.subrange(y, len),
        r.subrange(y, r.len() as int),
        prefix,
    );
    assert(b.subrange(0, x) + b.subrange(x, y) + b.subrange(y, len) =~= b);
    let s = spliced(b, x, part, r, y);
    assert forall|i: int| 0 <= i < s.len() implies #[trigger] s[i] < 128 by {
        if i < x {
            assert(s[i] == b[i]);
        } else if i < x + part.len() {
            assert(s[i] == part[i - x]);
        } else {
            assert(s[i] == r[y + i - x - part.len()]);
        }
    }
    assert forall|j: int| 0 <= j < x && j < after.len() implies !#[trigger] after[j] by {
        assert(after[j] == no_marks(x)[j]);
    }
    assert(after.subrange(x, y) =~= some);
    assert forall|j: int| y <= j < b.len() implies #[trigger] after[j] == marks[j] by {
        assert(after[j] == marks.subrange(y, len)[j - y]);
    }
}

/// The text behind a position, once prefixes are put into a part behind it.
proof fn lemma_spliced_text(
    b: Seq<u8>,
    last: int,
    x: int,
    part: Seq<u8>,
    r: Seq<u8>,
    y: int,
    out: Seq<char>,
)
    requires
        0 <= last <= x <= y <= b.len(),
        y <= r.len(),
    ensures
        out + chars(spliced(b, x, part, r, y).subrange(last, spliced(b, x, part, r, y).len() as int))
            == out + chars(b.subrange(last, x)) + chars(part) + chars(
            r.subrange(y, r.len() as int),
        ),
{
    let s = spliced(b, x, part, r, y);
    assert(s.subrange(last, s.len() as int) =~= b.subrange(last, x) + part + r.subrange(
        y,
        r.len() as int,
    ));
    assert(out + chars(s.subrange(last, s.len() as int)) =~= out + chars(b.subrange(last, x))
        + chars(part) + chars(r.subrange(y, r.len() as int)));
}

// ---------------------------------------------------------------------------
// The first time

/// A name starts with a letter or an underscore.
proof fn lemma_name_start(b: Seq<u8>, i: int, k: int)
    requires
        b.len() <= usize::MAX,
        0 <= i,
        0 <= k < scanner::scanned(b, i).len(),
        scanner::scanned(b, i)[k].kind is Ident,
    ensures
        ({
            let t = scanner::scanned(b, i)[k];
            t.start < b.len() && (scanner::is_letter(b[t.start as int]) || b[t.start as int] == 95)
        }),
    decreases b.len() + 4 - i,
{
    if i < b.len() {
        scanner::lemma_token(b, i);
        let end = scanner::token(b, i).1;
        let toks = scanner::scanned(b, i);
        assert(toks == seq![scanner::token_at(b, i)] + scanner::scanned(b, end));
        if k > 0 {
            assert(toks[k] == scanner::scanned(b, end)[k - 1]);
            lemma_name_start(b, end, k - 1);
        } else {
            assert(toks[0] == scanner::token_at(b, i));
        }
    }
}

/// A string starts with a quote.
proof fn lemma_string_start(b: Seq<u8>, i: int, k: int)
    requires
        b.len() <= usize::MAX,
        0 <= i,
        0 <= k < scanner::scanned(b, i).len(),
        scanner::scanned(b, i)[k].kind is Str,
    ensures
        ({
            let t = scanner::scanned(b, i)[k];
            t.start < b.len() && b[t.start as int] == 34
        }),
    decreases b.len() + 4 - i,
{
    if i < b.len() {
        scanner::lemma_token(b, i);
        let end = scanner::token(b, i).1;
        let toks = scanner::scanned(b, i);
        assert(toks == seq![scanner::token_at(b, i)] + scanner::scanned(b, end));
        if k > 0 {
            assert(toks[k] == scanner::scanned(b, end)[k - 1]);
            lemma_string_start(b, end, k - 1);
        } else {
            assert(toks[0] == scanner::token_at(b, i));
        }
    }
}

/// What significant token `k`, which is a name, comes to without imports.
proof fn lemma_name_turn(b: Seq<u8>, k: int, p: Progress, m: Info)
    requires
        is_ascii(b),
        modules::fits(b),
        0 <= k < significant(b).len(),
        scanner::scanned(b, 0)[significant(b)[k] as int].kind is Ident,
        0 <= p.last <= scanner::scanned(b, 0)[significant(b)[k] as int].start,
        same_place(p, context(b, scanner::scanned(b, 0), significant(b), k)),
    ensures
        ({
            let toks = scanner::scanned(b, 0);
            let sig = significant(b);
            let t = toks[sig[k] as int];
            let w = text(b, toks, sig, k);
            let q = Progress { pending: p.pending || (w == "enum"@ && p.depth == 0), ..p };
            &&& same_place(q, context(b, toks, sig, k + 1))
            &&& modules::name_turn(b, toks, sig, k, p, Some(m), Map::empty()) == Some(
                Turn::Next(
                    if own_at(b, toks, sig, k, m) {
                        Progress {
                            out: p.out + chars(b.subrange(p.last, t.start as int)) + (m.prefix + w),
                            last: t.end as int,
                            ..q
                        }
                    } else {
                        q
                    },
                    k + 1,
                ),
            )
        }),
{
    reveal(modules::name_turn);
    let toks = scanner::scanned(b, 0);
    let sig = significant(b);
    ascii::lemma_in_line(b);
    ascii::lemma_word(b, toks, sig, k);
    if k > 0 {
        ascii::lemma_word(b, toks, sig, k - 1);
    }
    assert(sig[k] < toks.len());
    ascii::lemma_cut(b, p.last, toks[sig[k] as int].start as int);
}

/// Where significant token `k` can start: behind the one before it.
spec fn from(toks: Seq<Tok>, sig: Seq<usize>, k: int) -> int {
    if k <= 0 {
        0
    } else {
        toks[sig[k - 1] as int].end as int
    }
}

/// The names that rewriting a text renames, and the new text.
proof fn lemma_weave(b: Seq<u8>, m: Info, prefix: Seq<u8>) -> (w: (Seq<bool>, Seq<u8>))
    requires
        is_ascii(b),
        modules::fits(b),
        is_closed(b),
        renames_once(m, prefix),
    ensures
        marks_ok(b, w.0, m),
        woven(b, w.0, prefix, w.1),
        on_letters(b, w.0),
        is_ascii(w.1),
        modules::rewritten(b, Some(m), Map::empty()) == Some(Outcome::Done(chars(w.1))),
    decreases b.len(), 3int, 0int,
{
    ascii::lemma_in_line(b);
    let p = Progress { out: Seq::empty(), last: 0, depth: 0, pending: false, enums: Seq::empty() };
    let w = lemma_weave_from(b, 0, p, m, prefix);
    assert(Seq::<char>::empty() + chars(w.1.subrange(0, w.1.len() as int)) =~= chars(w.1));
    w
}

/// The same from significant token `k` on: nothing before it is marked.
proof fn lemma_weave_from(b: Seq<u8>, k: int, p: Progress, m: Info, prefix: Seq<u8>) -> (w: (
    Seq<bool>,
    Seq<u8>,
))
    requires
        is_ascii(b),
        modules::fits(b),
        is_closed(b),
        renames_once(m, prefix),
        in_line(b, scanner::scanned(b, 0), significant(b)),
        0 <= k <= significant(b).len(),
        same_place(p, context(b, scanner::scanned(b, 0), significant(b), k)),
        0 <= p.last <= from(scanner::scanned(b, 0), significant(b), k),
    ensures
        ({
            let toks = scanner::scanned(b, 0);
            let sig = significant(b);
            &&& woven(b, w.0, prefix, w.1)
            &&& on_letters(b, w.0)
            &&& is_ascii(w.1)
            &&& blank_to(w.0, from(toks, sig, k))
            &&& p.last <= w.1.len()
            &&& forall|j: int|
                #![trigger sig[j]]
                k <= j < sig.len() ==> token_ok(
                    b,
                    j,
                    w.0.subrange(toks[sig[j] as int].start as int, toks[sig[j] as int].end as int),
                    m,
                )
            &&& modules::rewritten_from(b, toks, sig, k, p, Some(m), Map::empty()) == Some(
                Outcome::Done(p.out + chars(w.1.subrange(p.last, w.1.len() as int))),
            )
        }),
    decreases b.len(), 2int, significant(b).len() - k,
{
    let toks = scanner::scanned(b, 0);
    let sig = significant(b);
    let len = b.len() as int;
    if k > 0 {
        assert(sig[k - 1] < toks.len());
    }
    if k >= sig.len() {
        woven::lemma_woven_plain(b, prefix);
        ascii::lemma_cut(b, p.last, len);
        (no_marks(len), b)
    } else {
        let t = toks[sig[k] as int];
        let x = t.start as int;
        let y = t.end as int;
        assert(sig[k] < toks.len() && x < y <= len);
        if k > 0 {
            assert(toks[sig[k - 1] as int].end <= toks[sig[k] as int].start);
        }
        assert(from(toks, sig, k) <= x);
        ascii::lemma_word(b, toks, sig, k);
        ascii::lemma_cut(b, p.last, x);
        match t.kind {
            Kind::Punct(c) => {
                let q = if c == 123 {
                    modules::opened(p)
                } else if c == 125 {
                    modules::closed(p)
                } else {
                    p
                };
                let w = lemma_weave_from(b, k + 1, q, m, prefix);
                lemma_unmarked(b, k, w.0, m);
                w
            },
            Kind::Str => {
                let s = b.subrange(x, y);
                if modules::has_interpolation(s, 0) {
                    assert(string_is_closed(s, 0));
                    let v = lemma_weave_string(s, 0, 0, Seq::empty(), m, prefix);
                    assert(Seq::<char>::empty() + chars(v.1.subrange(0, v.1.len() as int)) =~= chars(
                        v.1,
                    ));
                    let before = chars(b.subrange(p.last, x));
                    let q = Progress { out: p.out + before + chars(v.1), last: y, ..p };
                    let w = lemma_weave_from(b, k + 1, q, m, prefix);
                    lemma_splice(b, w.0, prefix, w.1, x, y, v.0, v.1);
                    lemma_spliced_text(b, p.last, x, v.1, w.1, y, p.out);
                    let r = (spliced_marks(x, v.0, w.0, y), spliced(b, x, v.1, w.1, y));
                    lemma_spliced_ok(b, k, w.0, r.0, m);
                    r
                } else {
                    let w = lemma_weave_from(b, k + 1, p, m, prefix);
                    lemma_unmarked(b, k, w.0, m);
                    w
                }
            },
            Kind::Ident => {
                lemma_name_turn(b, k, p, m);
                let word = text(b, toks, sig, k);
                let q = Progress { pending: p.pending || (word == "enum"@ && p.depth == 0), ..p };
                if own_at(b, toks, sig, k, m) {
                    let before = chars(b.subrange(p.last, x));
                    let q = Progress {
                        out: p.out + before + (m.prefix + word),
                        last: y,
                        ..q
                    };
                    let s = b.subrange(x, y);
                    lemma_name_start(b, 0, sig[k] as int);
                    assert(s[0] == b[x]);
                    woven::lemma_woven_word(s, prefix);
                    let part = prefix + s;
                    assert(chars(part) =~= m.prefix + word);
                    lemma_prefixed_ascii(prefix, s);
                    let w = lemma_weave_from(b, k + 1, q, m, prefix);
                    lemma_splice(b, w.0, prefix, w.1, x, y, first_marked(y - x), part);
                    lemma_spliced_text(b, p.last, x, part, w.1, y, p.out);
                    let r = (
                        spliced_marks(x, first_marked(y - x), w.0, y),
                        spliced(b, x, part, w.1, y),
                    );
                    lemma_spliced_ok(b, k, w.0, r.0, m);
                    r
                } else {
                    let w = lemma_weave_from(b, k + 1, q, m, prefix);
                    lemma_unmarked(b, k, w.0, m);
                    w
                }
            },
            _ => {
                let w = lemma_weave_from(b, k + 1, p, m, prefix);
                lemma_unmarked(b, k, w.0, m);
                w
            },
        }
    }
}

/// A word with a prefix is ASCII text.
proof fn lemma_prefixed_ascii(prefix: Seq<u8>, s: Seq<u8>)
    requires
        is_identifier(prefix),
        is_ascii(s),
    ensures
        is_ascii(prefix + s),
{
    let r = prefix + s;
    assert forall|i: int| 0 <= i < r.len() implies #[trigger] r[i] < 128 by {
        if i < prefix.len() {
            assert(scanner::in_class(prefix[i], scanner::Class::Word));
        } else {
            assert(s[i - prefix.len()] < 128);
        }
    }
}

/// A token that is not renamed and in which nothing is marked.
proof fn lemma_unmarked(b: Seq<u8>, k: int, marks: Seq<bool>, m: Info)
    requires
        in_line(b, scanner::scanned(b, 0), significant(b)),
        0 <= k < significant(b).len(),
        marks.len() == b.len(),
        blank_to(marks, from(scanner::scanned(b, 0), significant(b), k + 1)),
        scanner::scanned(b, 0)[significant(b)[k] as int].kind is Ident ==> !own_at(
            b,
            scanner::scanned(b, 0),
            significant(b),
            k,
            m,
        ),
        ({
            let t = scanner::scanned(b, 0)[significant(b)[k] as int];
            t.kind is Str ==> !modules::has_interpolation(
                b.subrange(t.start as int, t.end as int),
                0,
            )
        }),
    ensures
        ({
            let t = scanner::scanned(b, 0)[significant(b)[k] as int];
            token_ok(b, k, marks.subrange(t.start as int, t.end as int), m)
        }),
        blank_to(marks, from(scanner::scanned(b, 0), significant(b), k)),
{
    let toks = scanner::scanned(b, 0);
    let sig = significant(b);
    let t = toks[sig[k] as int];
    assert(sig[k] < toks.len());
    let some = marks.subrange(t.start as int, t.end as int);
    assert forall|j: int| 0 <= j < some.len() implies !#[trigger] some[j] by {
        assert(!marks[t.start + j]);
    }
    if k > 0 {
        assert(sig[k - 1] < toks.len());
        assert(toks[sig[k - 1] as int].end <= toks[sig[k] as int].start);
    }
}

/// The tokens behind the one that prefixes were put into are marked as before.
proof fn lemma_spliced_ok(b: Seq<u8>, k: int, marks: Seq<bool>, after: Seq<bool>, m: Info)
    requires
        in_line(b, scanner::scanned(b, 0), significant(b)),
        0 <= k < significant(b).len(),
        marks.len() == b.len(),
        after.len() == b.len(),
        ({
            let toks = scanner::scanned(b, 0);
            let sig = significant(b);
            let t = toks[sig[k] as int];
            &&& token_ok(b, k, after.subrange(t.start as int, t.end as int), m)
            &&& blank_to(after, t.start as int)
            &&& forall|j: int| t.end <= j < b.len() ==> #[trigger] after[j] == marks[j]
            &&& forall|j: int|
                #![trigger sig[j]]
                k < j < sig.len() ==> token_ok(
                    b,
                    j,
                    marks.subrange(toks[sig[j] as int].start as int, toks[sig[j] as int].end as int),
                    m,
                )
        }),
    ensures
        ({
            let toks = scanner::scanned(b, 0);
            let sig = significant(b);
            &&& forall|j: int|
                #![trigger sig[j]]
                k <= j < sig.len() ==> token_ok(
                    b,
                    j,
                    after.subrange(toks[sig[j] as int].start as int, toks[sig[j] as int].end as int),
                    m,
                )
            &&& blank_to(after, from(toks, sig, k))
        }),
{
    let toks = scanner::scanned(b, 0);
    let sig = significant(b);
    assert forall|j: int|
        #![trigger sig[j]]
        k <= j < sig.len() implies token_ok(
        b,
        j,
        after.subrange(toks[sig[j] as int].start as int, toks[sig[j] as int].end as int),
        m,
    ) by {
        if j > k {
            let t = toks[sig[j] as int];
            assert(toks[sig[k] as int].end <= toks[sig[j] as int].start);
            assert(after.subrange(t.start as int, t.end as int) =~= marks.subrange(
                t.start as int,
                t.end as int,
            ));
        }
    }
    if k > 0 {
        assert(sig[k - 1] < toks.len());
        assert(toks[sig[k - 1] as int].end <= toks[sig[k] as int].start);
    }
}

/// The names that rewriting a string from position `i` on renames, and the new string.
proof fn lemma_weave_string(
    s: Seq<u8>,
    i: int,
    last: int,
    out: Seq<char>,
    m: Info,
    prefix: Seq<u8>,
) -> (w: (Seq<bool>, Seq<u8>))
    requires
        is_ascii(s),
        modules::fits(s),
        string_is_closed(s, i),
        renames_once(m, prefix),
        0 <= last <= s.len(),
        last <= i,
    ensures
        woven(s, w.0, prefix, w.1),
        on_letters(s, w.0),
        is_ascii(w.1),
        blank_to(w.0, i),
        last <= w.1.len(),
        string_ok(s, i, w.0, m),
        modules::string_from(s, i, last, out, Some(m), Map::empty()) == Some(
            Outcome::Done(out + chars(w.1.subrange(last, w.1.len() as int))),
        ),
    decreases s.len(), 1int, s.len() + 4 - i,
{
    let len = s.len() as int;
    if i >= len {
        woven::lemma_woven_plain(s, prefix);
        ascii::lemma_cut(s, last, len);
        (no_marks(len), s)
    } else if s[i] == 92 {
        lemma_weave_string(s, i + 2, last, out, m, prefix)
    } else if scanner::interpolates(s, i) {
        scanner::lemma_braces_end(s, i + 2, 1);
        let end = scanner::interpolation(s, i);
        let x = i + 2;
        let y = end - 1;
        let code = s.subrange(x, y);
        ascii::lemma_cut(s, x, y);
        ascii::lemma_cut(s, last, x);
        let v = lemma_weave(code, m, prefix);
        let before = chars(s.subrange(last, x));
        let w = lemma_weave_string(s, end, y, out + before + chars(v.1), m, prefix);
        lemma_splice(s, w.0, prefix, w.1, x, y, v.0, v.1);
        lemma_spliced_text(s, last, x, v.1, w.1, y, out);
        let marks = spliced_marks(x, v.0, w.0, y);
        assert(!marks[i] && !marks[i + 1]);
        assert(marks[y] == w.0[y]);
        lemma_string_marks(s, end, w.0, marks, m);
        (marks, spliced(s, x, v.1, w.1, y))
    } else {
        lemma_weave_string(s, i + 1, last, out, m, prefix)
    }
}

// ---------------------------------------------------------------------------
// The second time

/// The words on which renaming depends hold no underscore.
proof fn lemma_plain_words(w: Seq<char>, m: Info, prefix: Seq<u8>)
    requires
        renames_once(m, prefix),
    ensures
        m.prefix + w != "enum"@,
        m.prefix + w != "func"@,
        !modules::declares(m.prefix + w),
{
    let n = prefix.len() - 1;
    assert((m.prefix + w)[n] == prefix[n] as char);
    assert((m.prefix + w)[n] == '_');
    reveal_strlit("func");
    reveal_strlit("struct");
    reveal_strlit("enum");
    reveal_strlit("interface");
    reveal_strlit("type");
    reveal_strlit("const");
    assert("func"@.len() == 4 && "struct"@.len() == 6 && "enum"@.len() == 4);
    assert("interface"@.len() == 9 && "type"@.len() == 4 && "const"@.len() == 5);
    assert(forall|j: int| 0 <= j < 4 ==> "func"@[j] != '_');
    assert(forall|j: int| 0 <= j < 6 ==> "struct"@[j] != '_');
    assert(forall|j: int| 0 <= j < 4 ==> "enum"@[j] != '_');
    assert(forall|j: int| 0 <= j < 9 ==> "interface"@[j] != '_');
    assert(forall|j: int| 0 <= j < 4 ==> "type"@[j] != '_');
    assert(forall|j: int| 0 <= j < 5 ==> "const"@[j] != '_');
}

/// A text that starts with a quote is none of the words on which renaming depends.
proof fn lemma_quoted_word(s: Seq<u8>)
    requires
        s.len() > 0,
        s[0] == 34,
    ensures
        chars(s) != "func"@,
        !modules::declares(chars(s)),
{
    assert(chars(s)[0] == '"');
    reveal_strlit("func");
    reveal_strlit("struct");
    reveal_strlit("enum");
    reveal_strlit("interface");
    reveal_strlit("type");
    reveal_strlit("const");
    assert("func"@[0] == 'f' && "struct"@[0] == 's' && "enum"@[0] == 'e');
    assert("interface"@[0] == 'i' && "type"@[0] == 't' && "const"@[0] == 'c');
}

/// A text and the same text with the names renamed.
#[verifier::opaque]
spec fn renamed(b: Seq<u8>, marks: Seq<bool>, r: Seq<u8>, m: Info, prefix: Seq<u8>) -> bool {
    &&& spun(b, marks, prefix, r)
    &&& is_ascii(b)
    &&& is_ascii(r)
    &&& modules::fits(b)
    &&& modules::fits(r)
    &&& is_closed(b)
    &&& marks_ok(b, marks, m)
    &&& renames_once(m, prefix)
}

/// What there is to know of the text with the names renamed.
proof fn lemma_renamed(b: Seq<u8>, marks: Seq<bool>, r: Seq<u8>, m: Info, prefix: Seq<u8>)
    requires
        renamed(b, marks, r, m, prefix),
    ensures
        is_ascii(r),
        modules::fits(r),
        significant(r) == significant(b),
        in_line(r, scanner::scanned(r, 0), significant(r)),
{
    reveal(renamed);
    woven::lemma_tokens(b, marks, prefix, r);
    ascii::lemma_in_line(r);
}

/// Significant token `k` in both texts.
proof fn lemma_token(
    b: Seq<u8>,
    marks: Seq<bool>,
    r: Seq<u8>,
    m: Info,
    prefix: Seq<u8>,
    k: int,
)
    requires
        renamed(b, marks, r, m, prefix),
        0 <= k < significant(b).len(),
    ensures
        ({
            let sig = significant(b);
            let t = scanner::scanned(b, 0)[sig[k] as int];
            let u = scanner::scanned(r, 0)[sig[k] as int];
            let n = prefix.len() as int;
            let some = marks.subrange(t.start as int, t.end as int);
            &&& significant(r) == sig
            &&& scanner::scanned(r, 0).len() == scanner::scanned(b, 0).len()
            &&& sig[k] < scanner::scanned(b, 0).len()
            &&& u.kind == t.kind
            &&& t.start < t.end <= b.len()
            &&& u.start == place(marks, n, t.start as int)
            &&& u.end == place(marks, n, t.end as int)
            &&& u.start <= u.end <= r.len()
            &&& token_ok(b, k, some, m)
            &&& spun(
                b.subrange(t.start as int, t.end as int),
                some,
                prefix,
                r.subrange(u.start as int, u.end as int),
            )
        }),
{
    reveal(renamed);
    let sig = significant(b);
    let t = scanner::scanned(b, 0)[sig[k] as int];
    woven::lemma_tokens(b, marks, prefix, r);
    ascii::lemma_in_line(b);
    assert(sig[k] < scanner::scanned(b, 0).len());
    woven::lemma_woven_part(b, marks, r, prefix, t.start as int, t.end as int);
}

/// The text of significant token `k` in both texts.
proof fn lemma_texts(
    b: Seq<u8>,
    marks: Seq<bool>,
    r: Seq<u8>,
    m: Info,
    prefix: Seq<u8>,
    k: int,
)
    requires
        renamed(b, marks, r, m, prefix),
        0 <= k < significant(b).len(),
    ensures
        ({
            let toks = scanner::scanned(b, 0);
            let sig = significant(b);
            let w = text(b, toks, sig, k);
            let v = text(r, scanner::scanned(r, 0), sig, k);
            &&& toks[sig[k] as int].kind is Ident ==> v == if own_at(b, toks, sig, k, m) {
                m.prefix + w
            } else {
                w
            }
            &&& v == "func"@ <==> w == "func"@
            &&& modules::declares(v) ==> modules::declares(w)
            &&& toks[sig[k] as int].kind is Ident ==> (v == "enum"@ <==> w == "enum"@)
        }),
{
    reveal(renamed);
    let toks = scanner::scanned(b, 0);
    let sig = significant(b);
    lemma_token(b, marks, r, m, prefix, k);
    let t = toks[sig[k] as int];
    let u = scanner::scanned(r, 0)[sig[k] as int];
    let some = marks.subrange(t.start as int, t.end as int);
    let s = b.subrange(t.start as int, t.end as int);
    let z = r.subrange(u.start as int, u.end as int);
    let w = text(b, toks, sig, k);
    match t.kind {
        Kind::Ident => {
            if own_at(b, toks, sig, k, m) {
                woven::lemma_word(s, some, prefix, z);
                assert(chars(z) =~= m.prefix + w);
                lemma_plain_words(w, m, prefix);
            } else {
                woven::lemma_plain(s, some, prefix, z);
            }
        },
        Kind::Str => {
            lemma_string_start(b, 0, sig[k] as int);
            lemma_string_start(r, 0, sig[k] as int);
            assert(s[0] == 34);
            assert(u.start < u.end) by {
                ascii::lemma_in_line(r);
            }
            assert(z[0] == 34);
            lemma_quoted_word(s);
            lemma_quoted_word(z);
        },
        _ => {
            woven::lemma_plain(s, some, prefix, z);
        },
    }
}

/// No name in the renamed text is renamed again.
proof fn lemma_not_own(
    b: Seq<u8>,
    marks: Seq<bool>,
    r: Seq<u8>,
    m: Info,
    prefix: Seq<u8>,
    k: int,
)
    requires
        renamed(b, marks, r, m, prefix),
        0 <= k < significant(b).len(),
        scanner::scanned(b, 0)[significant(b)[k] as int].kind is Ident,
        same_place(
            context(r, scanner::scanned(r, 0), significant(r), k),
            context(b, scanner::scanned(b, 0), significant(b), k),
        ),
    ensures
        !own_at(r, scanner::scanned(r, 0), significant(r), k, m),
{
    reveal(renamed);
    let toks = scanner::scanned(b, 0);
    let sig = significant(b);
    lemma_texts(b, marks, r, m, prefix, k);
    lemma_token(b, marks, r, m, prefix, k);
    if k > 0 {
        lemma_texts(b, marks, r, m, prefix, k - 1);
        lemma_token(b, marks, r, m, prefix, k - 1);
    }
    if k + 1 < sig.len() {
        lemma_token(b, marks, r, m, prefix, k + 1);
    }
}

/// Both texts are at the same place at significant token `k`.
proof fn lemma_contexts(
    b: Seq<u8>,
    marks: Seq<bool>,
    r: Seq<u8>,
    m: Info,
    prefix: Seq<u8>,
    k: int,
)
    requires
        renamed(b, marks, r, m, prefix),
        k <= significant(b).len(),
    ensures
        same_place(
            context(r, scanner::scanned(r, 0), significant(r), k),
            context(b, scanner::scanned(b, 0), significant(b), k),
        ),
    decreases k,
{
    if k > 0 {
        lemma_contexts(b, marks, r, m, prefix, k - 1);
        lemma_token(b, marks, r, m, prefix, k - 1);
        lemma_texts(b, marks, r, m, prefix, k - 1);
    }
}

/// Rewriting a renamed text does not change it.
proof fn lemma_again(b: Seq<u8>, marks: Seq<bool>, r: Seq<u8>, m: Info, prefix: Seq<u8>)
    requires
        renamed(b, marks, r, m, prefix),
    ensures
        modules::rewritten(r, Some(m), Map::empty()) == Some(Outcome::Done(chars(r))),
    decreases b.len(), 3int, 0int,
{
    let p = Progress { out: Seq::empty(), last: 0, depth: 0, pending: false, enums: Seq::empty() };
    assert(chars(r.subrange(0, 0)) =~= Seq::empty());
    lemma_renamed(b, marks, r, m, prefix);
    lemma_again_from(b, marks, r, m, prefix, 0, p);
}

/// The same from significant token `k` on.
proof fn lemma_again_from(
    b: Seq<u8>,
    marks: Seq<bool>,
    r: Seq<u8>,
    m: Info,
    prefix: Seq<u8>,
    k: int,
    p: Progress,
)
    requires
        renamed(b, marks, r, m, prefix),
        0 <= k <= significant(b).len(),
        same_place(p, context(r, scanner::scanned(r, 0), significant(r), k)),
        0 <= p.last <= from(scanner::scanned(r, 0), significant(r), k),
        p.last <= r.len(),
        p.out == chars(r.subrange(0, p.last)),
    ensures
        modules::rewritten_from(
            r,
            scanner::scanned(r, 0),
            significant(r),
            k,
            p,
            Some(m),
            Map::empty(),
        ) == Some(Outcome::Done(chars(r))),
    decreases b.len(), 2int, significant(b).len() - k,
{
    let toks = scanner::scanned(r, 0);
    let sig = significant(r);
    let len = r.len() as int;
    lemma_renamed(b, marks, r, m, prefix);
    if k >= sig.len() {
        ascii::lemma_cut(r, p.last, len);
        assert(chars(r.subrange(0, p.last)) + chars(r.subrange(p.last, len)) =~= chars(r));
    } else {
        lemma_token(b, marks, r, m, prefix, k);
        let u = toks[sig[k] as int];
        if k > 0 {
            assert(sig[k - 1] < toks.len());
            assert(toks[sig[k - 1] as int].end <= toks[sig[k] as int].start);
        }
        ascii::lemma_word(r, toks, sig, k);
        ascii::lemma_cut(r, p.last, u.start as int);
        match u.kind {
            Kind::Punct(c) => {
                let q = if c == 123 {
                    modules::opened(p)
                } else if c == 125 {
                    modules::closed(p)
                } else {
                    p
                };
                lemma_again_from(b, marks, r, m, prefix, k + 1, q);
            },
            Kind::Str => {
                let z = r.subrange(u.start as int, u.end as int);
                if modules::has_interpolation(z, 0) {
                    lemma_again_token(b, marks, r, m, prefix, k);
                    let before = chars(r.subrange(p.last, u.start as int));
                    let q = Progress { out: p.out + before + chars(z), last: u.end as int, ..p };
                    assert(q.out =~= chars(r.subrange(0, u.end as int)));
                    lemma_again_from(b, marks, r, m, prefix, k + 1, q);
                } else {
                    lemma_again_from(b, marks, r, m, prefix, k + 1, p);
                }
            },
            Kind::Ident => {
                lemma_contexts(b, marks, r, m, prefix, k);
                lemma_not_own(b, marks, r, m, prefix, k);
                lemma_name_turn(r, k, p, m);
                let w = text(r, toks, sig, k);
                let q = Progress { pending: p.pending || (w == "enum"@ && p.depth == 0), ..p };
                lemma_again_from(b, marks, r, m, prefix, k + 1, q);
            },
            _ => {
                lemma_again_from(b, marks, r, m, prefix, k + 1, p);
            },
        }
    }
}

/// Rewriting a string of a renamed text does not change it.
proof fn lemma_again_token(
    b: Seq<u8>,
    marks: Seq<bool>,
    r: Seq<u8>,
    m: Info,
    prefix: Seq<u8>,
    k: int,
)
    requires
        renamed(b, marks, r, m, prefix),
        0 <= k < significant(b).len(),
        scanner::scanned(b, 0)[significant(b)[k] as int].kind is Str,
        ({
            let u = scanner::scanned(r, 0)[significant(b)[k] as int];
            modules::has_interpolation(r.subrange(u.start as int, u.end as int), 0)
        }),
    ensures
        ({
            let u = scanner::scanned(r, 0)[significant(b)[k] as int];
            let z = r.subrange(u.start as int, u.end as int);
            modules::string_from(z, 0, 0, Seq::empty(), Some(m), Map::empty()) == Some(
                Outcome::Done(chars(z)),
            )
        }),
    decreases b.len(), 1int, b.len() + 5,
{
    reveal(renamed);
    let sig = significant(b);
    lemma_token(b, marks, r, m, prefix, k);
    let t = scanner::scanned(b, 0)[sig[k] as int];
    let u = scanner::scanned(r, 0)[sig[k] as int];
    let some = marks.subrange(t.start as int, t.end as int);
    let s = b.subrange(t.start as int, t.end as int);
    let z = r.subrange(u.start as int, u.end as int);
    ascii::lemma_cut(b, t.start as int, t.end as int);
    ascii::lemma_cut(r, u.start as int, u.end as int);
    if modules::has_interpolation(s, 0) {
        assert(string_is_closed(s, 0));
        assert(chars(z.subrange(0, 0)) =~= Seq::empty());
        lemma_again_string(s, some, z, 0, 0, Seq::empty(), m, prefix);
    } else {
        woven::lemma_plain(s, some, prefix, z);
    }
}

/// The same from position `i` of the string on.
proof fn lemma_again_string(
    s: Seq<u8>,
    marks: Seq<bool>,
    z: Seq<u8>,
    i: int,
    last: int,
    out: Seq<char>,
    m: Info,
    prefix: Seq<u8>,
)
    requires
        spun(s, marks, prefix, z),
        is_ascii(s),
        is_ascii(z),
        modules::fits(s),
        modules::fits(z),
        renames_once(m, prefix),
        string_is_closed(s, i),
        string_ok(s, i, marks, m),
        0 <= i,
        0 <= last <= z.len(),
        last <= place(marks, prefix.len() as int, i),
        out == chars(z.subrange(0, last)),
    ensures
        modules::string_from(
            z,
            place(marks, prefix.len() as int, i),
            last,
            out,
            Some(m),
            Map::empty(),
        ) == Some(Outcome::Done(chars(z))),
    decreases s.len(), 1int, s.len() + 4 - i,
{
    let n = prefix.len() as int;
    let len = z.len() as int;
    let at = place(marks, n, i);
    if i >= s.len() {
        woven::lemma_behind(s, marks, prefix, z, i);
        ascii::lemma_cut(z, last, len);
        assert(chars(z.subrange(0, last)) + chars(z.subrange(last, len)) =~= chars(z));
    } else {
        woven::lemma_interpolates(s, marks, prefix, z, i);
        woven::lemma_place(marks, n, 0, i);
        if s[i] == 92 {
            assert(place(marks, n, i + 1) == at + 1);
            assert(place(marks, n, i + 2) == at + 2);
            lemma_again_string(s, marks, z, i + 2, last, out, m, prefix);
        } else if scanner::interpolates(s, i) {
            scanner::lemma_braces_end(s, i + 2, 1);
            let end = scanner::interpolation(s, i);
            let code = s.subrange(i + 2, end - 1);
            woven::lemma_code(s, marks, prefix, z, i + 2, 1);
            assert(place(marks, n, end) == place(marks, n, end - 1) + 1);
            woven::lemma_woven_part(s, marks, z, prefix, i + 2, end - 1);
            let x = place(marks, n, i + 2);
            let y = place(marks, n, end - 1);
            let new = z.subrange(x, y);
            ascii::lemma_cut(s, i + 2, end - 1);
            ascii::lemma_cut(z, x, y);
            ascii::lemma_cut(z, last, x);
            assert(renamed(code, marks.subrange(i + 2, end - 1), new, m, prefix)) by {
                reveal(renamed);
            }
            lemma_again(code, marks.subrange(i + 2, end - 1), new, m, prefix);
            let before = chars(z.subrange(last, x));
            assert(out + before + chars(new) =~= chars(z.subrange(0, y)));
            woven::lemma_place(marks, n, end, s.len() as int);
            scanner::lemma_braces_end(z, at + 2, 1);
            lemma_again_string(s, marks, z, end, y, out + before + chars(new), m, prefix);
        } else {
            lemma_again_string(s, marks, z, i + 1, last, out, m, prefix);
        }
    }
}

/// Rewriting a module that was rewritten changes nothing, if the new names of its items
/// are no items.
pub proof fn lemma_rewriting_again(b: Seq<u8>, m: Info, prefix: Seq<u8>, new: Seq<char>)
    requires
        is_ascii(b),
        modules::fits(b),
        is_closed(b),
        renames_once(m, prefix),
        modules::rewritten(b, Some(m), Map::empty()) == Some(Outcome::Done(new)),
        modules::fits(encode_utf8(new)),
    ensures
        modules::rewritten(encode_utf8(new), Some(m), Map::empty()) == Some(Outcome::Done(new)),
{
    reveal(renamed);
    let w = lemma_weave(b, m, prefix);
    ascii::lemma_ascii(w.1);
    lemma_again(b, w.0, w.1, m, prefix);
}

} // verus!
