//! What collecting items and rewriting do to ASCII text whose interpolations end.

use vstd::prelude::*;
use vstd::utf8::*;
use crate::modules;
use crate::modules::{Declared, Info, Outcome, Progress, Turn};
use crate::scanner;
use crate::scanner::{Kind, Tok};

verus! {

// ---------------------------------------------------------------------------
// ASCII text

/// Whether bytes are ASCII text.
pub open spec fn is_ascii(b: Seq<u8>) -> bool {
    forall|i: int| 0 <= i < b.len() ==> #[trigger] b[i] < 128
}

/// The characters of ASCII text.
pub open spec fn chars(b: Seq<u8>) -> Seq<char> {
    Seq::new(b.len(), |i: int| b[i] as char)
}

/// ASCII text is valid, and has one character for each byte.
pub proof fn lemma_ascii(b: Seq<u8>)
    requires
        is_ascii(b),
    ensures
        valid_utf8(b),
        decode_utf8(b) == chars(b),
        encode_utf8(chars(b)) == b,
{
    let cs = chars(b);
    assert forall|i: int| 0 <= i < cs.len() implies 0 <= (#[trigger] cs[i]) as nat <= 127 by {
        assert(b[i] < 128);
    }
    assert(is_ascii_chars(cs));
    is_ascii_chars_encode_utf8(cs);
    assert(encode_utf8(cs) =~= b) by {
        assert forall|i: int| 0 <= i < b.len() implies encode_utf8(cs)[i] == b[i] by {
            assert(b[i] < 128);
        }
    }
    encode_utf8_valid_utf8(cs);
    encode_utf8_decode_utf8(cs);
}

/// ASCII text can be cut anywhere.
pub proof fn lemma_cut(b: Seq<u8>, x: int, y: int)
    requires
        is_ascii(b),
        0 <= x <= y <= b.len(),
    ensures
        modules::cut(b, x, y) == Some(b.subrange(x, y)),
        modules::part(b, x, y) == Some(chars(b.subrange(x, y))),
        is_ascii(b.subrange(x, y)),
{
    reveal(modules::cut);
    lemma_ascii(b);
    lemma_boundary(b, x);
    lemma_boundary(b, y);
    assert forall|i: int| 0 <= i < b.subrange(x, y).len() implies #[trigger] b.subrange(x, y)[i]
        < 128 by {
        assert(b[x + i] < 128);
    }
    lemma_ascii(b.subrange(x, y));
}

/// No position of ASCII text is inside a character.
proof fn lemma_boundary(b: Seq<u8>, x: int)
    requires
        is_ascii(b),
        valid_utf8(b),
        0 <= x <= b.len(),
    ensures
        is_char_boundary(b, x),
{
    if x == b.len() {
        is_char_boundary_start_end_of_seq(b);
    } else {
        is_char_boundary_iff_not_is_continuation_byte(b, x);
        assert(b[x] < 128);
        let c = b[x];
        assert(c < 128 ==> !is_continuation_byte(c));
    }
}

// ---------------------------------------------------------------------------
// Tokens

/// Whether significant tokens lie in the text one behind the other.
pub open spec fn in_line(b: Seq<u8>, toks: Seq<Tok>, sig: Seq<usize>) -> bool {
    &&& forall|j: int|
        0 <= j < sig.len() ==> (#[trigger] sig[j]) < toks.len() && toks[sig[j] as int].start
            < toks[sig[j] as int].end <= b.len()
    &&& forall|i: int, j: int|
        0 <= i < j < sig.len() ==> toks[(#[trigger] sig[i]) as int].end
            <= toks[(#[trigger] sig[j]) as int].start
}

/// Tokens end before those behind them start.
proof fn lemma_tiles_order(toks: Seq<Tok>, from: int, to: int, i: int, j: int)
    requires
        scanner::tiles(toks, from, to),
        0 <= i < j < toks.len(),
    ensures
        toks[i].end <= toks[j].start,
    decreases j - i,
{
    if i < j - 1 {
        lemma_tiles_order(toks, from, to, i, j - 1);
        assert(toks[j - 1].start < toks[j - 1].end);
    }
    assert(toks[j].start == toks[j - 1].end);
}

/// The positions that `kept` gives go up.
proof fn lemma_kept_grows(toks: Seq<Tok>, n: int)
    requires
        0 <= n <= toks.len(),
        toks.len() <= usize::MAX,
    ensures
        forall|i: int, j: int|
            0 <= i < j < scanner::kept(toks, n).len() ==> (#[trigger] scanner::kept(toks, n)[i]) < (
            #[trigger] scanner::kept(toks, n)[j]),
    decreases n,
{
    if n > 0 {
        lemma_kept_grows(toks, n - 1);
        scanner::lemma_kept(toks, n - 1);
        let before = scanner::kept(toks, n - 1);
        let after = scanner::kept(toks, n);
        assert forall|i: int, j: int| 0 <= i < j < after.len() implies (#[trigger] after[i]) < (
        #[trigger] after[j]) by {
            assert(after[i] == before[i]);
            if j < before.len() {
                assert(after[j] == before[j]);
            } else {
                assert(before[i] < n - 1);
            }
        }
    }
}

/// There are no more tokens than bytes.
pub proof fn lemma_token_count(b: Seq<u8>, i: int)
    requires
        0 <= i,
    ensures
        i <= b.len() ==> scanner::scanned(b, i).len() <= b.len() - i,
        i > b.len() ==> scanner::scanned(b, i).len() == 0,
    decreases b.len() + 4 - i,
{
    if i < b.len() {
        scanner::lemma_token(b, i);
        lemma_token_count(b, scanner::token(b, i).1);
    }
}

/// The significant tokens of a text.
pub open spec fn significant(b: Seq<u8>) -> Seq<usize> {
    let toks = scanner::scanned(b, 0);
    scanner::kept(toks, toks.len() as int)
}

/// The significant tokens of a text lie in it one behind the other.
pub proof fn lemma_in_line(b: Seq<u8>)
    requires
        b.len() <= usize::MAX,
    ensures
        in_line(b, scanner::scanned(b, 0), significant(b)),
{
    let toks = scanner::scanned(b, 0);
    let sig = significant(b);
    lemma_token_count(b, 0);
    scanner::lemma_scan_tiles(b);
    scanner::lemma_scan_bounds(b, 0);
    scanner::lemma_kept(toks, toks.len() as int);
    lemma_kept_grows(toks, toks.len() as int);
    assert forall|j: int| 0 <= j < sig.len() implies (#[trigger] sig[j]) < toks.len()
        && toks[sig[j] as int].start < toks[sig[j] as int].end <= b.len() by {
        assert(toks[sig[j] as int].start < toks[sig[j] as int].end);
    }
    assert forall|i: int, j: int| 0 <= i < j < sig.len() implies toks[(#[trigger] sig[i]) as int].end
        <= toks[(#[trigger] sig[j]) as int].start by {
        lemma_tiles_order(toks, 0, b.len() as int, sig[i] as int, sig[j] as int);
    }
}

// ---------------------------------------------------------------------------
// Results

/// Whether the interpolations of a text end inside their strings, in the strings of the
/// text and in those of the code in interpolations.
pub open spec fn is_closed(b: Seq<u8>) -> bool
    decreases b.len(), 1int, 0int,
{
    let toks = scanner::scanned(b, 0);
    forall|k: int|
        #![trigger toks[k]]
        0 <= k < toks.len() && toks[k].kind is Str && 0 <= toks[k].start <= toks[k].end <= b.len()
            ==> string_is_closed(b.subrange(toks[k].start as int, toks[k].end as int), 0)
}

/// Whether the interpolations of a string end inside it, from position `i` on.
pub open spec fn string_is_closed(s: Seq<u8>, i: int) -> bool
    decreases s.len(), 0int, s.len() + 4 - i,
{
    if i < 0 || i >= s.len() {
        true
    } else if s[i] == 92 {
        string_is_closed(s, i + 2)
    } else if scanner::interpolates(s, i) {
        proof {
            scanner::lemma_braces_end(s, i + 2, 1);
        }
        let end = scanner::interpolation(s, i);
        &&& i + 3 <= end <= s.len()
        &&& is_closed(s.subrange(i + 2, end - 1))
        &&& string_is_closed(s, end)
    } else {
        string_is_closed(s, i + 1)
    }
}

/// ASCII text that can be rewritten has items.
pub proof fn lemma_items_exist(b: Seq<u8>)
    requires
        is_ascii(b),
        modules::fits(b),
    ensures
        modules::items_of(b) is Some,
{
    reveal(modules::items_of);
    lemma_in_line(b);
    lemma_declared_exist(
        b,
        scanner::scanned(b, 0),
        significant(b),
        0,
        0,
        Declared { items: Set::empty(), public: Set::empty() },
    );
}

/// The text of a significant token of ASCII text.
pub proof fn lemma_word(b: Seq<u8>, toks: Seq<Tok>, sig: Seq<usize>, k: int)
    requires
        is_ascii(b),
        in_line(b, toks, sig),
        0 <= k < sig.len(),
    ensures
        ({
            let t = toks[sig[k] as int];
            let s = b.subrange(t.start as int, t.end as int);
            &&& modules::word(b, t) == Some(chars(s))
            &&& modules::cut(b, t.start as int, t.end as int) == Some(s)
            &&& is_ascii(s)
        }),
{
    let t = toks[sig[k] as int];
    lemma_cut(b, t.start as int, t.end as int);
}

/// The items from significant token `k` on.
proof fn lemma_declared_exist(
    b: Seq<u8>,
    toks: Seq<Tok>,
    sig: Seq<usize>,
    k: int,
    depth: int,
    d: Declared,
)
    requires
        is_ascii(b),
        in_line(b, toks, sig),
        0 <= k,
    ensures
        modules::declared(b, toks, sig, k, depth, d) is Some,
    decreases sig.len() - k,
{
    if k < sig.len() {
        let t = toks[sig[k] as int];
        if t.kind == Kind::Punct(123) {
            lemma_declared_exist(b, toks, sig, k + 1, depth + 1, d);
        } else if t.kind == Kind::Punct(125) {
            lemma_declared_exist(b, toks, sig, k + 1, depth - 1, d);
        } else if t.kind is Ident && depth == 0 {
            lemma_word(b, toks, sig, k);
            if k + 1 < sig.len() {
                lemma_word(b, toks, sig, k + 1);
            }
            lemma_public_exists(b, toks, sig, k);
            if let Some(e) = modules::declaration(b, toks, sig, k, d) {
                lemma_declared_exist(b, toks, sig, k + 1, depth, e);
            }
        } else {
            lemma_declared_exist(b, toks, sig, k + 1, depth, d);
        }
    }
}

/// Whether a declaration is public can be told.
proof fn lemma_public_exists(b: Seq<u8>, toks: Seq<Tok>, sig: Seq<usize>, j: int)
    requires
        is_ascii(b),
        in_line(b, toks, sig),
        j <= sig.len(),
    ensures
        modules::is_public(b, toks, sig, j) is Some,
    decreases j,
{
    if j > 0 {
        lemma_word(b, toks, sig, j - 1);
        lemma_public_exists(b, toks, sig, j - 1);
    }
}

/// ASCII text whose interpolations end is rewritten: to a new text, or to an error.
pub proof fn lemma_rewrite_has_result(b: Seq<u8>, own: Option<Info>, aliases: Map<Seq<char>, Info>)
    requires
        is_ascii(b),
        modules::fits(b),
        is_closed(b),
    ensures
        modules::rewritten(b, own, aliases) is Some,
    decreases b.len(), 3int, 0int,
{
    lemma_in_line(b);
    lemma_token_count(b, 0);
    scanner::lemma_kept(scanner::scanned(b, 0), scanner::scanned(b, 0).len() as int);
    lemma_from_has_result(
        b,
        scanner::scanned(b, 0),
        significant(b),
        0,
        Progress { out: Seq::empty(), last: 0, depth: 0, pending: false, enums: Seq::empty() },
        own,
        aliases,
    );
}

/// Whether what is left to copy starts before significant token `k` and those behind
/// it.
spec fn copied_before(b: Seq<u8>, toks: Seq<Tok>, sig: Seq<usize>, k: int, p: Progress) -> bool {
    &&& 0 <= p.last <= b.len()
    &&& forall|j: int| k <= j < sig.len() ==> p.last <= toks[(#[trigger] sig[j]) as int].start
}

/// Rewriting from significant token `k` on has a result.
proof fn lemma_from_has_result(
    b: Seq<u8>,
    toks: Seq<Tok>,
    sig: Seq<usize>,
    k: int,
    p: Progress,
    own: Option<Info>,
    aliases: Map<Seq<char>, Info>,
)
    requires
        is_ascii(b),
        modules::fits(b),
        is_closed(b),
        toks == scanner::scanned(b, 0),
        in_line(b, toks, sig),
        0 <= k,
        copied_before(b, toks, sig, k, p),
    ensures
        modules::rewritten_from(b, toks, sig, k, p, own, aliases) is Some,
    decreases b.len(), 2int, sig.len() - k,
{
    if k >= sig.len() {
        lemma_cut(b, p.last, b.len() as int);
    } else {
        let t = toks[sig[k] as int];
        lemma_word(b, toks, sig, k);
        lemma_cut(b, p.last, t.start as int);
        match t.kind {
            Kind::Punct(c) => {
                let q = if c == 123 {
                    modules::opened(p)
                } else if c == 125 {
                    modules::closed(p)
                } else {
                    p
                };
                lemma_from_has_result(b, toks, sig, k + 1, q, own, aliases);
            },
            Kind::Str => {
                let s = b.subrange(t.start as int, t.end as int);
                if modules::has_interpolation(s, 0) {
                    assert(string_is_closed(s, 0));
                    lemma_string_has_result(s, 0, 0, Seq::empty(), own, aliases);
                    if let Some(Outcome::Done(new)) = modules::string_from(
                        s,
                        0,
                        0,
                        Seq::empty(),
                        own,
                        aliases,
                    ) {
                        let before = chars(b.subrange(p.last, t.start as int));
                        let q = Progress { out: p.out + before + new, last: t.end as int, ..p };
                        assert(copied_before(b, toks, sig, k + 1, q));
                        lemma_from_has_result(b, toks, sig, k + 1, q, own, aliases);
                    }
                } else {
                    lemma_from_has_result(b, toks, sig, k + 1, p, own, aliases);
                }
            },
            Kind::Ident => {
                reveal(modules::name_turn);
                reveal(modules::alias_turn);
                if k > 0 {
                    lemma_word(b, toks, sig, k - 1);
                }
                if k + 2 < sig.len() {
                    lemma_word(b, toks, sig, k + 2);
                }
                if let Some(Turn::Next(q, next)) = modules::name_turn(
                    b,
                    toks,
                    sig,
                    k,
                    p,
                    own,
                    aliases,
                ) {
                    assert(copied_before(b, toks, sig, next, q));
                    lemma_from_has_result(b, toks, sig, next, q, own, aliases);
                }
            },
            _ => {
                lemma_from_has_result(b, toks, sig, k + 1, p, own, aliases);
            },
        }
    }
}

/// Rewriting a string from position `i` on has a result.
proof fn lemma_string_has_result(
    s: Seq<u8>,
    i: int,
    last: int,
    out: Seq<char>,
    own: Option<Info>,
    aliases: Map<Seq<char>, Info>,
)
    requires
        is_ascii(s),
        modules::fits(s),
        string_is_closed(s, i),
        0 <= last <= s.len(),
        last <= i,
    ensures
        modules::string_from(s, i, last, out, own, aliases) is Some,
    decreases s.len(), 1int, s.len() + 4 - i,
{
    if i >= s.len() {
        lemma_cut(s, last, s.len() as int);
    } else if s[i] == 92 {
        lemma_string_has_result(s, i + 2, last, out, own, aliases);
    } else if scanner::interpolates(s, i) {
        scanner::lemma_braces_end(s, i + 2, 1);
        let end = scanner::interpolation(s, i);
        let code = s.subrange(i + 2, end - 1);
        lemma_cut(s, i + 2, end - 1);
        lemma_cut(s, last, i + 2);
        lemma_rewrite_has_result(code, own, aliases);
        if let Some(Outcome::Done(new)) = modules::rewritten(code, own, aliases) {
            let before = chars(s.subrange(last, i + 2));
            lemma_string_has_result(s, end, end - 1, out + before + new, own, aliases);
        }
    } else {
        lemma_string_has_result(s, i + 1, last, out, own, aliases);
    }
}

// ---------------------------------------------------------------------------
// One name for an item

/// Whether bytes are an identifier.
pub open spec fn is_identifier(n: Seq<u8>) -> bool {
    &&& n.len() > 0
    &&& scanner::is_letter(n[0]) || n[0] == 95
    &&& forall|i: int| 0 <= i < n.len() ==> scanner::in_class(#[trigger] n[i], scanner::Class::Word)
}

/// A run ends where the first byte stands that is not of its class.
proof fn lemma_run(b: Seq<u8>, i: int, end: int, class: scanner::Class)
    requires
        0 <= i <= end <= b.len(),
        forall|j: int| i <= j < end ==> scanner::in_class(#[trigger] b[j], class),
        end < b.len() ==> !scanner::in_class(b[end], class),
    ensures
        scanner::run_end(b, i, class) == end,
    decreases end - i,
{
    if i < end {
        assert(scanner::in_class(b[i], class));
        lemma_run(b, i + 1, end, class);
    }
}

/// An identifier in a text is one token.
proof fn lemma_identifier(b: Seq<u8>, i: int, n: Seq<u8>)
    requires
        is_identifier(n),
        0 <= i,
        i + n.len() <= b.len(),
        b.subrange(i, i + n.len()) == n,
        i + n.len() < b.len() ==> !scanner::in_class(b[i + n.len()], scanner::Class::Word),
    ensures
        scanner::token(b, i) == (Kind::Ident, i + n.len()),
{
    assert forall|j: int| i <= j < i + n.len() implies scanner::in_class(
        #[trigger] b[j],
        scanner::Class::Word,
    ) by {
        assert(b[j] == b.subrange(i, i + n.len())[j - i]);
        assert(scanner::in_class(n[j - i], scanner::Class::Word));
    }
    assert(b[i] == b.subrange(i, i + n.len())[0]);
    lemma_run(b, i, i + n.len(), scanner::Class::Word);
}

/// An identifier is ASCII text.
proof fn lemma_identifier_is_ascii(n: Seq<u8>)
    requires
        is_identifier(n),
    ensures
        is_ascii(n),
{
    assert forall|i: int| 0 <= i < n.len() implies #[trigger] n[i] < 128 by {
        assert(scanner::in_class(n[i], scanner::Class::Word));
    }
}

/// In its own module, an item is renamed with the module's prefix.
pub proof fn lemma_own_name(n: Seq<u8>, m: Info)
    requires
        is_identifier(n),
        modules::fits(n),
        m.items.contains(chars(n)),
    ensures
        modules::rewritten(n, Some(m), Map::empty()) == Some(Outcome::Done(m.prefix + chars(n))),
{
    reveal(modules::name_turn);
    reveal_with_fuel(scanner::scanned, 2);
    reveal_with_fuel(scanner::kept, 2);
    reveal_with_fuel(modules::rewritten_from, 2);
    lemma_identifier_is_ascii(n);
    assert(n.subrange(0, n.len() as int) =~= n);
    lemma_identifier(n, 0, n);
    let toks = scanner::scanned(n, 0);
    let t = Tok { kind: Kind::Ident, start: 0, end: n.len() as usize };
    assert(toks =~= seq![t]);
    assert(toks[0] == t);
    let sig = scanner::kept(toks, 1);
    assert(sig =~= seq![0usize]);
    assert(sig[0] == 0);
    lemma_cut(n, 0, n.len() as int);
    lemma_cut(n, 0, 0);
    lemma_cut(n, n.len() as int, n.len() as int);
    assert(chars(n.subrange(0, 0)) =~= Seq::empty());
    assert(chars(n.subrange(n.len() as int, n.len() as int)) =~= Seq::empty());
    reveal_strlit("func");
    assert(Seq::<char>::empty() != "func"@);
    let p = Progress { out: Seq::empty(), last: 0, depth: 0, pending: false, enums: Seq::empty() };
    let q = Progress { pending: chars(n) == "enum"@, ..p };
    assert(modules::is_own(toks, sig, 0, chars(n), Seq::empty(), q, m));
    let r = Progress { out: m.prefix + chars(n), last: n.len() as int, ..q };
    assert(q.out + Seq::<char>::empty() + (m.prefix + chars(n)) =~= r.out);
    assert(modules::name_turn(n, toks, sig, 0, p, Some(m), Map::empty()) == Some(
        Turn::Next(r, 1),
    ));
    assert(r.out + Seq::<char>::empty() =~= r.out);
}

/// The tokens of `a::n`.
proof fn lemma_reference_tokens(a: Seq<u8>, n: Seq<u8>)
    requires
        is_identifier(a),
        is_identifier(n),
        modules::fits(a + seq![58u8, 58u8] + n),
    ensures
        ({
            let b = a + seq![58u8, 58u8] + n;
            let x = a.len() as int;
            let toks = seq![
                Tok { kind: Kind::Ident, start: 0, end: x as usize },
                Tok { kind: Kind::ColonColon, start: x as usize, end: (x + 2) as usize },
                Tok { kind: Kind::Ident, start: (x + 2) as usize, end: b.len() as usize },
            ];
            &&& is_ascii(b)
            &&& b.subrange(0, x) == a
            &&& b.subrange(x + 2, b.len() as int) == n
            &&& scanner::scanned(b, 0) == toks
            &&& significant(b) == seq![0usize, 1usize, 2usize]
        }),
{
    lemma_identifier_is_ascii(a);
    lemma_identifier_is_ascii(n);
    let b = a + seq![58u8, 58u8] + n;
    let x = a.len() as int;
    let len = b.len() as int;
    assert forall|i: int| 0 <= i < b.len() implies #[trigger] b[i] < 128 by {
        if i < x {
            assert(b[i] == a[i]);
        } else if i >= x + 2 {
            assert(b[i] == n[i - x - 2]);
        }
    }
    assert(b[x] == 58 && b[x + 1] == 58);
    assert(b.subrange(0, x) =~= a);
    assert(b.subrange(x + 2, len) =~= n);
    lemma_identifier(b, 0, a);
    lemma_identifier(b, x + 2, n);
    assert(scanner::token(b, x) == (Kind::ColonColon, x + 2));
    let t0 = Tok { kind: Kind::Ident, start: 0, end: x as usize };
    let t1 = Tok { kind: Kind::ColonColon, start: x as usize, end: (x + 2) as usize };
    let t2 = Tok { kind: Kind::Ident, start: (x + 2) as usize, end: len as usize };
    assert(scanner::scanned(b, len) =~= Seq::empty());
    assert(scanner::scanned(b, x + 2) =~= seq![t2]);
    assert(scanner::scanned(b, x) =~= seq![t1, t2]);
    let toks = scanner::scanned(b, 0);
    assert(toks =~= seq![t0, t1, t2]);
    assert(toks[0] == t0 && toks[1] == t1 && toks[2] == t2);
    assert(scanner::kept(toks, 0) =~= Seq::empty());
    assert(scanner::kept(toks, 1) =~= seq![0usize]);
    assert(scanner::kept(toks, 2) =~= seq![0usize, 1usize]);
    assert(scanner::kept(toks, 3) =~= seq![0usize, 1usize, 2usize]);
}

/// In a file that imports a module as `a`, the reference `a::n` to one of its public
/// items gives the name that the item has in the module.
pub proof fn lemma_imported_name(a: Seq<u8>, n: Seq<u8>, m: Info)
    requires
        is_identifier(a),
        is_identifier(n),
        modules::fits(a + seq![58u8, 58u8] + n),
        m.items.contains(chars(n)),
        m.public.contains(chars(n)),
    ensures
        modules::rewritten(
            a + seq![58u8, 58u8] + n,
            None,
            Map::empty().insert(chars(a), m),
        ) == Some(Outcome::Done(m.prefix + chars(n))),
        modules::rewritten(a + seq![58u8, 58u8] + n, None, Map::empty().insert(chars(a), m))
            == modules::rewritten(n, Some(m), Map::empty()),
{
    lemma_own_name(n, m);
    lemma_reference_tokens(a, n);
    let b = a + seq![58u8, 58u8] + n;
    let x = a.len() as int;
    let len = b.len() as int;
    let toks = scanner::scanned(b, 0);
    let sig = significant(b);
    assert(sig[0] == 0 && sig[1] == 1 && sig[2] == 2);
    lemma_cut(b, 0, x);
    lemma_cut(b, x + 2, len);
    lemma_cut(b, 0, 0);
    lemma_cut(b, len, len);
    assert(chars(b.subrange(0, 0)) =~= Seq::empty());
    assert(chars(b.subrange(len, len)) =~= Seq::empty());
    let aliases = Map::empty().insert(chars(a), m);
    let p = Progress { out: Seq::empty(), last: 0, depth: 0, pending: false, enums: Seq::empty() };
    let q = Progress { pending: chars(a) == "enum"@, ..p };
    let r = Progress { out: m.prefix + chars(n), last: len, ..q };
    assert(modules::name_turn(b, toks, sig, 0, p, None, aliases) == Some(Turn::Next(r, 3))) by {
        reveal(modules::name_turn);
        reveal(modules::alias_turn);
        assert(modules::is_alias(toks, sig, 0, chars(a), aliases));
        assert(q.out + Seq::<char>::empty() + (m.prefix + chars(n)) =~= r.out);
        assert(modules::alias_turn(b, toks, sig, 0, q, m) == Some(Turn::Next(r, 3)));
    }
    assert(r.out + Seq::<char>::empty() =~= r.out);
    assert(modules::rewritten_from(b, toks, sig, 3, r, None, aliases) == Some(
        Outcome::Done(r.out),
    ));
}

// ---------------------------------------------------------------------------
// Strings

/// Where the code in the interpolations of a string starts and ends, from position `i`
/// on. A backslash hides the byte after it.
pub open spec fn spans(s: Seq<u8>, i: int) -> Seq<(int, int)>
    decreases s.len() + 4 - i,
{
    if i < 0 || i >= s.len() {
        Seq::empty()
    } else if s[i] == 92 {
        spans(s, i + 2)
    } else if scanner::interpolates(s, i) {
        proof {
            scanner::lemma_braces_end(s, i + 2, 1);
        }
        let end = scanner::interpolation(s, i);
        seq![(i + 2, end - 1)] + spans(s, end)
    } else {
        spans(s, i + 1)
    }
}

/// What the code in a part of a string is rewritten to.
pub open spec fn piece(
    s: Seq<u8>,
    span: (int, int),
    own: Option<Info>,
    aliases: Map<Seq<char>, Info>,
) -> Option<Outcome> {
    modules::rewritten(s.subrange(span.0, span.1), own, aliases)
}

/// The text of a string from `last` on, with new text in the place of the code in the
/// parts from `k` on.
pub open spec fn spliced(
    s: Seq<u8>,
    last: int,
    parts: Seq<(int, int)>,
    k: int,
    own: Option<Info>,
    aliases: Map<Seq<char>, Info>,
) -> Seq<char>
    decreases parts.len() - k,
{
    if k < 0 || k >= parts.len() {
        chars(s.subrange(last, s.len() as int))
    } else {
        chars(s.subrange(last, parts[k].0)) + (match piece(s, parts[k], own, aliases) {
            Some(Outcome::Done(new)) => new,
            _ => Seq::empty(),
        }) + spliced(s, parts[k].1, parts, k + 1, own, aliases)
    }
}

/// A string is rewritten piece by piece: the code of each interpolation by itself, and
/// the rest stays as it is. An error in the code is an error in the string, at the
/// same place; the first one counts.
pub proof fn lemma_string_by_pieces(s: Seq<u8>, own: Option<Info>, aliases: Map<Seq<char>, Info>)
    requires
        is_ascii(s),
        modules::fits(s),
        string_is_closed(s, 0),
    ensures
        ({
            let parts = spans(s, 0);
            let r = modules::string_from(s, 0, 0, Seq::empty(), own, aliases);
            &&& (forall|k: int|
                0 <= k < parts.len() ==> (piece(s, #[trigger] parts[k], own, aliases) matches Some(
                    Outcome::Done(_),
                ))) ==> r == Some(Outcome::Done(spliced(s, 0, parts, 0, own, aliases)))
            &&& forall|k: int|
                #![trigger parts[k]]
                0 <= k < parts.len() && (forall|j: int|
                    0 <= j < k ==> (piece(s, #[trigger] parts[j], own, aliases) matches Some(
                        Outcome::Done(_),
                    ))) ==> (piece(s, parts[k], own, aliases) matches Some(Outcome::Fail(at, m))
                    ==> r == Some(Outcome::Fail(parts[k].0 + at, m)))
        }),
{
    let parts = spans(s, 0);
    assert(parts.skip(0) =~= parts);
    lemma_pieces(s, 0, 0, Seq::empty(), parts, 0, own, aliases);
    assert(Seq::<char>::empty() + spliced(s, 0, parts, 0, own, aliases) =~= spliced(
        s,
        0,
        parts,
        0,
        own,
        aliases,
    ));
}

/// The rest of a string is rewritten piece by piece.
proof fn lemma_pieces(
    s: Seq<u8>,
    i: int,
    last: int,
    out: Seq<char>,
    parts: Seq<(int, int)>,
    k: int,
    own: Option<Info>,
    aliases: Map<Seq<char>, Info>,
)
    requires
        is_ascii(s),
        modules::fits(s),
        string_is_closed(s, i),
        0 <= last <= s.len(),
        last <= i,
        0 <= k <= parts.len(),
        parts.skip(k) == spans(s, i),
    ensures
        ({
            let r = modules::string_from(s, i, last, out, own, aliases);
            &&& (forall|j: int|
                k <= j < parts.len() ==> (piece(s, #[trigger] parts[j], own, aliases) matches Some(
                    Outcome::Done(_),
                ))) ==> r == Some(Outcome::Done(out + spliced(s, last, parts, k, own, aliases)))
            &&& forall|n: int|
                #![trigger parts[n]]
                k <= n < parts.len() && (forall|j: int|
                    k <= j < n ==> (piece(s, #[trigger] parts[j], own, aliases) matches Some(
                        Outcome::Done(_),
                    ))) ==> (piece(s, parts[n], own, aliases) matches Some(Outcome::Fail(at, m))
                    ==> r == Some(Outcome::Fail(parts[n].0 + at, m)))
        }),
    decreases s.len() + 4 - i,
{
    if i >= s.len() {
        lemma_cut(s, last, s.len() as int);
        assert(parts.skip(k).len() == 0);
    } else if s[i] == 92 {
        lemma_pieces(s, i + 2, last, out, parts, k, own, aliases);
    } else if scanner::interpolates(s, i) {
        scanner::lemma_braces_end(s, i + 2, 1);
        let end = scanner::interpolation(s, i);
        let code = s.subrange(i + 2, end - 1);
        lemma_cut(s, i + 2, end - 1);
        lemma_cut(s, last, i + 2);
        lemma_rewrite_has_result(code, own, aliases);
        let all = spans(s, i);
        assert(all[0] == (i + 2, end - 1));
        assert(parts.skip(k).len() == all.len() && all.len() > 0);
        assert(parts[k] == parts.skip(k)[0]);
        assert(piece(s, parts[k], own, aliases) == modules::rewritten(code, own, aliases));
        assert(parts.skip(k + 1) =~= spans(s, end)) by {
            assert(parts.skip(k + 1) =~= parts.skip(k).skip(1));
            assert(all.skip(1) =~= spans(s, end));
        }
        if let Some(Outcome::Done(new)) = modules::rewritten(code, own, aliases) {
            let before = chars(s.subrange(last, i + 2));
            lemma_pieces(s, end, end - 1, out + before + new, parts, k + 1, own, aliases);
            assert(out + spliced(s, last, parts, k, own, aliases) =~= out + before + new + spliced(
                s,
                end - 1,
                parts,
                k + 1,
                own,
                aliases,
            ));
        }
    } else {
        lemma_pieces(s, i + 1, last, out, parts, k, own, aliases);
    }
}

} // verus!
