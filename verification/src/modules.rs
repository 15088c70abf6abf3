//! Modules: `import "geometry.azl" as geo`.
//!
//! A file imported with a name is a module. Its top-level items are renamed
//! `geo__Point` (throughout the file) so they don't clash with other files', and
//! in the importing file `geo::Point` refers to them. Items are private to their
//! module unless declared `pub`. Plain `import "file.azl"` shares one namespace.

pub mod again;
pub mod ascii;
pub mod joined;
pub mod woven;

use vstd::hash_map::StringHashMap;
use vstd::hash_set::StringHashSet;
use vstd::prelude::*;
use vstd::string::*;
use vstd::utf8::*;
use crate::scanner;
use crate::scanner::{interpolation_end, scan, significant, Kind, Tok};
use crate::text::{join, same};

pub use crate::imports::import_line;

verus! {

/// Names of items.
pub type Names = StringHashSet;

/// What the modules that a file imports declare, by the names that it gives them.
pub type Aliases = StringHashMap<ModuleInfo>;

/// What a module declares.
pub struct ModuleInfo {
    /// The prefix its items are renamed with (`geo__`)
    pub prefix: String,
    pub items: Names,
    pub public: Names,
    pub file: String,
}

/// The longest text that can be rewritten: positions a few bytes behind its end
/// are still counted.
pub open spec fn fits(b: Seq<u8>) -> bool {
    b.len() <= usize::MAX - 3
}

// ---------------------------------------------------------------------------
// Parts of texts

/// The bytes from `from` to `to`, if no character is cut there.
#[verifier::opaque]
pub open spec fn cut(b: Seq<u8>, from: int, to: int) -> Option<Seq<u8>> {
    if 0 <= from <= to <= b.len() && is_char_boundary(b, from) && is_char_boundary(b, to) {
        Some(b.subrange(from, to))
    } else {
        None
    }
}

/// The text from `from` to `to`, if no character is cut there.
pub open spec fn part(b: Seq<u8>, from: int, to: int) -> Option<Seq<char>> {
    match cut(b, from, to) {
        Some(s) => Some(decode_utf8(s)),
        None => None,
    }
}

/// The text of a token, if no character is cut at its ends.
pub open spec fn word(b: Seq<u8>, t: Tok) -> Option<Seq<char>> {
    part(b, t.start as int, t.end as int)
}

/// The text from `from` to `to`.
fn slice<'b>(s: &'b str, from: usize, to: usize) -> (r: Option<&'b str>)
    ensures
        match r {
            Some(p) => cut(s.spec_bytes(), from as int, to as int) == Some(p.spec_bytes())
                && part(s.spec_bytes(), from as int, to as int) == Some(p@),
            None => cut(s.spec_bytes(), from as int, to as int) is None && part(
                s.spec_bytes(),
                from as int,
                to as int,
            ) is None,
        },
{
    reveal(cut);
    let ghost b = s.spec_bytes();
    if from <= to && to <= s.as_bytes().len() && s.is_char_boundary(from) && s.is_char_boundary(to) {
        let (_, tail) = s.split_at(from);
        let ghost t = tail.spec_bytes();
        proof {
            encode_utf8_valid_utf8(s@);
            encode_utf8_valid_utf8(tail@);
            if to == b.len() {
                is_char_boundary_start_end_of_seq(t);
            } else {
                is_char_boundary_iff_not_is_continuation_byte(b, to as int);
                is_char_boundary_iff_not_is_continuation_byte(t, to - from);
                assert(t[to - from] == b[to as int]);
            }
        }
        let (head, _) = tail.split_at(to - from);
        proof {
            assert(head.spec_bytes() =~= b.subrange(from as int, to as int));
            encode_utf8_decode_utf8(head@);
        }
        Some(head)
    } else {
        None
    }
}

/// Whether an interpolation starts in `b` at `i` or after it.
pub open spec fn has_interpolation(b: Seq<u8>, i: int) -> bool
    decreases b.len() - i,
{
    if 0 <= i < b.len() {
        scanner::interpolates(b, i) || has_interpolation(b, i + 1)
    } else {
        false
    }
}

/// Whether an interpolation starts in a text.
fn interpolates(b: &[u8]) -> (r: bool)
    ensures
        r == has_interpolation(b@, 0),
{
    let mut i: usize = 0;
    while i < b.len()
        invariant
            i <= b@.len(),
            has_interpolation(b@, 0) == has_interpolation(b@, i as int),
        decreases b@.len() - i,
    {
        if b[i] == 36 && i < b.len() - 1 && b[i + 1] == 123 {
            return true;
        }
        i += 1;
    }
    false
}

// ---------------------------------------------------------------------------
// Declarations

/// The words that a declaration of an item starts with.
pub open spec fn declares(w: Seq<char>) -> bool {
    w == "func"@ || w == "struct"@ || w == "enum"@ || w == "interface"@ || w == "type"@ || w
        == "const"@
}

/// The words that can stand between `pub` and the rest of a declaration.
pub open spec fn qualifies(w: Seq<char>) -> bool {
    w == "extern"@ || w == "varargs"@
}

/// Whether the declaration that starts with significant token `j` is public: `pub`
/// stands before it and its qualifiers.
pub open spec fn is_public(b: Seq<u8>, toks: Seq<Tok>, sig: Seq<usize>, j: int) -> Option<bool>
    decreases j,
{
    if j <= 0 {
        Some(false)
    } else {
        match word(b, toks[sig[j - 1] as int]) {
            None => None,
            Some(w) => if qualifies(w) {
                is_public(b, toks, sig, j - 1)
            } else {
                Some(w == "pub"@)
            },
        }
    }
}

/// What a text declares.
pub struct Declared {
    pub items: Set<Seq<char>>,
    pub public: Set<Seq<char>>,
}

/// The items that the significant tokens from `k` on declare at the top level,
/// `depth` braces deep, together with those in `d`. There is no result where the
/// text of a token is needed that cuts a character.
pub open spec fn declared(
    b: Seq<u8>,
    toks: Seq<Tok>,
    sig: Seq<usize>,
    k: int,
    depth: int,
    d: Declared,
) -> Option<Declared>
    decreases sig.len() - k,
{
    if k < 0 || k >= sig.len() {
        Some(d)
    } else {
        let t = toks[sig[k] as int];
        if t.kind == Kind::Punct(123) {
            declared(b, toks, sig, k + 1, depth + 1, d)
        } else if t.kind == Kind::Punct(125) {
            declared(b, toks, sig, k + 1, depth - 1, d)
        } else if t.kind is Ident && depth == 0 {
            match declaration(b, toks, sig, k, d) {
                None => None,
                Some(d) => declared(b, toks, sig, k + 1, depth, d),
            }
        } else {
            declared(b, toks, sig, k + 1, depth, d)
        }
    }
}

/// The items, with the one that a declaration which starts with significant token
/// `k` declares, if it is one.
pub open spec fn declaration(
    b: Seq<u8>,
    toks: Seq<Tok>,
    sig: Seq<usize>,
    k: int,
    d: Declared,
) -> Option<Declared> {
    match word(b, toks[sig[k] as int]) {
        None => None,
        Some(w) => if declares(w) && k + 1 < sig.len() && toks[sig[k + 1] as int].kind is Ident {
            match word(b, toks[sig[k + 1] as int]) {
                None => None,
                Some(name) => match is_public(b, toks, sig, k) {
                    None => None,
                    Some(public) => Some(
                        Declared {
                            items: d.items.insert(name),
                            public: if public {
                                d.public.insert(name)
                            } else {
                                d.public
                            },
                        },
                    ),
                },
            }
        } else {
            Some(d)
        },
    }
}

/// The items that a text declares at its top level, and which are public.
#[verifier::opaque]
pub open spec fn items_of(b: Seq<u8>) -> Option<Declared> {
    let toks = scanner::scanned(b, 0);
    declared(
        b,
        toks,
        scanner::kept(toks, toks.len() as int),
        0,
        0,
        Declared { items: Set::empty(), public: Set::empty() },
    )
}

/// What is public is declared.
pub proof fn lemma_public_is_declared(b: Seq<u8>)
    ensures
        items_of(b) matches Some(d) ==> d.public.subset_of(d.items),
{
    reveal(items_of);
    let toks = scanner::scanned(b, 0);
    let sig = scanner::kept(toks, toks.len() as int);
    let none = Declared { items: Set::empty(), public: Set::empty() };
    assert(none.public.subset_of(none.items));
    lemma_declared_subset(b, toks, sig, 0, 0, none);
}

/// Declaring further items keeps that what is public is declared.
proof fn lemma_declared_subset(
    b: Seq<u8>,
    toks: Seq<Tok>,
    sig: Seq<usize>,
    k: int,
    depth: int,
    d: Declared,
)
    requires
        d.public.subset_of(d.items),
    ensures
        declared(b, toks, sig, k, depth, d) matches Some(r) ==> r.public.subset_of(r.items),
    decreases sig.len() - k,
{
    if 0 <= k < sig.len() {
        let t = toks[sig[k] as int];
        if t.kind == Kind::Punct(123) {
            lemma_declared_subset(b, toks, sig, k + 1, depth + 1, d);
        } else if t.kind == Kind::Punct(125) {
            lemma_declared_subset(b, toks, sig, k + 1, depth - 1, d);
        } else if t.kind is Ident && depth == 0 {
            if let Some(d) = declaration(b, toks, sig, k, d) {
                lemma_declared_subset(b, toks, sig, k + 1, depth, d);
            }
        } else {
            lemma_declared_subset(b, toks, sig, k + 1, depth, d);
        }
    }
}

/// The tokens of a text, and the positions of the significant ones.
fn tokens(text: &str) -> (r: (Vec<Tok>, Vec<usize>))
    requires
        fits(text.spec_bytes()),
    ensures
        r.0@ == scanner::scanned(text.spec_bytes(), 0),
        r.1@ == scanner::kept(r.0@, r.0@.len() as int),
        forall|j: int| 0 <= j < r.1@.len() ==> #[trigger] r.1@[j] < r.0@.len(),
        r.1@.len() <= r.0@.len(),
        forall|j: int|
            0 <= j < r.0@.len() ==> (#[trigger] r.0@[j]).start <= r.0@[j].end
                <= text.spec_bytes().len(),
{
    let toks = scan(text.as_bytes());
    let sig = significant(&toks);
    let count: usize = toks.len();
    proof {
        scanner::lemma_kept(toks@, toks@.len() as int);
        scanner::lemma_scan_bounds(text.spec_bytes(), 0);
    }
    (toks, sig)
}

/// The text of a token.
fn word_of<'b>(text: &'b str, t: &Tok) -> (r: Option<&'b str>)
    ensures
        match r {
            Some(w) => word(text.spec_bytes(), *t) == Some(w@) && cut(
                text.spec_bytes(),
                t.start as int,
                t.end as int,
            ) == Some(w.spec_bytes()),
            None => word(text.spec_bytes(), *t) is None,
        },
{
    slice(text, t.start, t.end)
}

/// Whether the declaration that starts with significant token `j` is public.
fn public_at(text: &str, toks: &Vec<Tok>, sig: &Vec<usize>, start: usize) -> (r: Option<bool>)
    requires
        start <= sig@.len(),
        forall|j: int| 0 <= j < sig@.len() ==> #[trigger] sig@[j] < toks@.len(),
    ensures
        r == is_public(text.spec_bytes(), toks@, sig@, start as int),
{
    let ghost b = text.spec_bytes();
    let mut j: usize = start;
    while j > 0
        invariant
            j <= start <= sig@.len(),
            b == text.spec_bytes(),
            forall|j: int| 0 <= j < sig@.len() ==> #[trigger] sig@[j] < toks@.len(),
            is_public(b, toks@, sig@, start as int) == is_public(b, toks@, sig@, j as int),
        decreases j,
    {
        let w = word_of(text, &toks[sig[j - 1]])?;
        if !same(w, "extern") && !same(w, "varargs") {
            return Some(same(w, "pub"));
        }
        j -= 1;
    }
    Some(false)
}

/// Whether a declaration of an item starts with the word.
fn is_declaration(w: &str) -> (r: bool)
    ensures
        r == declares(w@),
{
    same(w, "func") || same(w, "struct") || same(w, "enum") || same(w, "interface") || same(
        w,
        "type",
    ) || same(w, "const")
}

/// The items that a text declares at its top level, and which are public, or
/// nothing when the text is too long or a needed token cuts a character.
pub fn try_collect_items(text: &str) -> (r: Option<(Names, Names)>)
    ensures
        match r {
            Some((items, public)) => fits(text.spec_bytes()) && items_of(text.spec_bytes()) == Some(
                Declared { items: items@, public: public@ },
            ),
            None => !fits(text.spec_bytes()) || items_of(text.spec_bytes()) is None,
        },
{
    reveal(items_of);
    if text.as_bytes().len() > usize::MAX - 3 {
        return None;
    }
    let ghost b = text.spec_bytes();
    let (toks, sig) = tokens(text);
    let mut items = Names::new();
    let mut public = Names::new();
    let mut depth: i128 = 0;
    let mut k: usize = 0;
    while k < sig.len()
        invariant
            fits(text.spec_bytes()),
            b == text.spec_bytes(),
            toks@ == scanner::scanned(b, 0),
            sig@ == scanner::kept(toks@, toks@.len() as int),
            forall|j: int| 0 <= j < sig@.len() ==> #[trigger] sig@[j] < toks@.len(),
            k <= sig@.len(),
            -(k as int) <= depth <= k,
            items_of(b) == declared(
                b,
                toks@,
                sig@,
                k as int,
                depth as int,
                Declared { items: items@, public: public@ },
            ),
        decreases sig@.len() - k,
    {
        match toks[sig[k]].kind {
            Kind::Punct(c) => {
                if c == 123 {
                    depth += 1;
                } else if c == 125 {
                    depth -= 1;
                }
            },
            Kind::Ident => {
                if depth == 0 {
                    let w = word_of(text, &toks[sig[k]])?;
                    if is_declaration(w) && k + 1 < sig.len() && toks[sig[k + 1]].kind
                        == Kind::Ident {
                        let name = word_of(text, &toks[sig[k + 1]])?;
                        if public_at(text, &toks, &sig, k)? {
                            public.insert(name.to_owned());
                        }
                        items.insert(name.to_owned());
                    }
                }
            },
            _ => {},
        }
        k += 1;
    }
    Some((items, public))
}

/// The names of the top-level items `text` declares, and which are `pub`. ASCII text
/// always has them, as [`ascii::lemma_items_exist`] shows.
pub fn collect_items(text: &str) -> (r: (Names, Names))
    requires
        fits(text.spec_bytes()),
        items_of(text.spec_bytes()) is Some,
    ensures
        items_of(text.spec_bytes()) == Some(Declared { items: r.0@, public: r.1@ }),
{
    try_collect_items(text).unwrap()
}

// ---------------------------------------------------------------------------
// Rewriting

/// The model of what a module declares.
pub struct Info {
    pub prefix: Seq<char>,
    pub items: Set<Seq<char>>,
    pub public: Set<Seq<char>>,
    pub file: Seq<char>,
}

/// What `m` declares.
pub open spec fn info_of(m: ModuleInfo) -> Info {
    Info { prefix: m.prefix@, items: m.items@, public: m.public@, file: m.file@ }
}

/// What the modules that a file imports declare, by the names that it gives them.
pub open spec fn infos_of(m: Map<Seq<char>, ModuleInfo>) -> Map<Seq<char>, Info> {
    m.map_values(|m: ModuleInfo| info_of(m))
}

/// What the module that a text belongs to declares, if it belongs to one.
pub open spec fn own_of(m: Option<&ModuleInfo>) -> Option<Info> {
    match m {
        Some(m) => Some(info_of(*m)),
        None => None,
    }
}

/// What rewriting a text comes to: the new text, or the position of an error and
/// its message.
pub enum Outcome {
    Done(Seq<char>),
    Fail(int, Seq<char>),
}

/// How far rewriting a text has come.
pub struct Progress {
    /// The new text so far
    pub out: Seq<char>,
    /// Where the text that has not been copied starts
    pub last: int,
    /// How many braces are open
    pub depth: int,
    /// The next brace opens the body of an enum
    pub pending: bool,
    /// How many braces deep the open bodies of enums are
    pub enums: Seq<int>,
}

/// What a name comes to: the next token to look at, or an error.
pub enum Turn {
    Next(Progress, int),
    Fail(int, Seq<char>),
}

/// The kind of significant token `k`, if there is one.
pub open spec fn kind_at(toks: Seq<Tok>, sig: Seq<usize>, k: int) -> Option<Kind> {
    if 0 <= k < sig.len() {
        Some(toks[sig[k] as int].kind)
    } else {
        None
    }
}

/// Whether significant token `k` names a member of something: it follows `.` or
/// `::`.
pub open spec fn is_member(toks: Seq<Tok>, sig: Seq<usize>, k: int) -> bool {
    kind_at(toks, sig, k - 1) == Some(Kind::Punct(46)) || kind_at(toks, sig, k - 1) == Some(
        Kind::ColonColon,
    )
}

/// Whether significant token `k`, which is the word `w`, is the `alias` of
/// `alias::name`.
pub open spec fn is_alias(
    toks: Seq<Tok>,
    sig: Seq<usize>,
    k: int,
    w: Seq<char>,
    aliases: Map<Seq<char>, Info>,
) -> bool {
    &&& aliases.contains_key(w)
    &&& kind_at(toks, sig, k + 1) == Some(Kind::ColonColon)
    &&& !is_member(toks, sig, k)
    &&& kind_at(toks, sig, k + 2) == Some(Kind::Ident)
}

/// Whether significant token `k` is the name of a variant, in the body of an enum.
pub open spec fn is_variant(toks: Seq<Tok>, sig: Seq<usize>, k: int, p: Progress) -> bool {
    &&& p.enums.len() > 0
    &&& p.enums.last() == p.depth
    &&& kind_at(toks, sig, k - 1) == Some(Kind::Punct(123)) || kind_at(toks, sig, k - 1) == Some(
        Kind::Punct(59),
    )
}

/// Whether a word that follows the word `before` is the name in a declaration at the
/// top level.
pub open spec fn is_declared(before: Seq<char>, p: Progress) -> bool {
    declares(before) && p.depth == 0
}

/// Whether significant token `k`, which is the word `w` and follows the word
/// `before`, refers to an item of the text's own module. Members, methods, variants
/// and labels do not; the name in a declaration at the top level is no label.
pub open spec fn is_own(
    toks: Seq<Tok>,
    sig: Seq<usize>,
    k: int,
    w: Seq<char>,
    before: Seq<char>,
    p: Progress,
    own: Info,
) -> bool {
    &&& own.items.contains(w)
    &&& !is_member(toks, sig, k)
    &&& !(before == "func"@ && p.depth > 0)
    &&& !is_variant(toks, sig, k, p)
    &&& kind_at(toks, sig, k + 1) != Some(Kind::Punct(58)) || is_declared(before, p)
}

/// Copy the text up to `to`, write `replacement`, and go on at `from`.
pub open spec fn replaced(b: Seq<u8>, p: Progress, to: int, replacement: Seq<char>, from: int) -> Option<
    Progress,
> {
    match part(b, p.last, to) {
        None => None,
        Some(s) => Some(Progress { out: p.out + s + replacement, last: from, ..p }),
    }
}

/// The reference `alias::name` to the item `name` of `module`, from significant
/// token `k` on. It has to be declared there, and public.
#[verifier::opaque]
pub open spec fn alias_turn(
    b: Seq<u8>,
    toks: Seq<Tok>,
    sig: Seq<usize>,
    k: int,
    p: Progress,
    module: Info,
) -> Option<Turn> {
    let t = toks[sig[k] as int];
    let name_tok = toks[sig[k + 2] as int];
    match word(b, name_tok) {
        None => None,
        Some(name) => if !module.items.contains(name) {
            Some(Turn::Fail(name_tok.start as int, undeclared(name, module.file)))
        } else if !module.public.contains(name) {
            Some(Turn::Fail(name_tok.start as int, private(name, module.file)))
        } else {
            match replaced(
                b,
                p,
                t.start as int,
                module.prefix + name,
                name_tok.end as int,
            ) {
                None => None,
                Some(p) => Some(Turn::Next(p, k + 3)),
            }
        },
    }
}

/// The message about a name that is not declared.
pub open spec fn undeclared(name: Seq<char>, file: Seq<char>) -> Seq<char> {
    "`"@ + name + "` isn't declared in "@ + file
}

/// The message about a name that is not public.
pub open spec fn private(name: Seq<char>, file: Seq<char>) -> Seq<char> {
    "`"@ + name + "` is private to "@ + file + " (declare it `pub`)"@
}

/// Significant token `k`, which is a name.
#[verifier::opaque]
pub open spec fn name_turn(
    b: Seq<u8>,
    toks: Seq<Tok>,
    sig: Seq<usize>,
    k: int,
    p: Progress,
    own: Option<Info>,
    aliases: Map<Seq<char>, Info>,
) -> Option<Turn> {
    let t = toks[sig[k] as int];
    match word(b, t) {
        None => None,
        Some(w) => match if k > 0 {
            word(b, toks[sig[k - 1] as int])
        } else {
            Some(Seq::empty())
        } {
            None => None,
            Some(before) => {
                let p = Progress { pending: p.pending || (w == "enum"@ && p.depth == 0), ..p };
                if is_alias(toks, sig, k, w, aliases) {
                    alias_turn(b, toks, sig, k, p, aliases[w])
                } else {
                    match own {
                        Some(module) => if is_own(toks, sig, k, w, before, p, module) {
                            match replaced(
                                b,
                                p,
                                t.start as int,
                                module.prefix + w,
                                t.end as int,
                            ) {
                                None => None,
                                Some(p) => Some(Turn::Next(p, k + 1)),
                            }
                        } else {
                            Some(Turn::Next(p, k + 1))
                        },
                        None => Some(Turn::Next(p, k + 1)),
                    }
                }
            },
        },
    }
}

/// A brace opens.
pub open spec fn opened(p: Progress) -> Progress {
    Progress {
        depth: p.depth + 1,
        enums: if p.pending {
            p.enums.push(p.depth + 1)
        } else {
            p.enums
        },
        pending: false,
        ..p
    }
}

/// A brace closes.
pub open spec fn closed(p: Progress) -> Progress {
    Progress {
        depth: p.depth - 1,
        enums: if p.enums.len() > 0 && p.enums.last() == p.depth {
            p.enums.drop_last()
        } else {
            p.enums
        },
        ..p
    }
}

/// The new text, once the rest is copied.
pub open spec fn finished(b: Seq<u8>, out: Seq<char>, last: int) -> Option<Outcome> {
    match part(b, last, b.len() as int) {
        None => None,
        Some(s) => Some(Outcome::Done(out + s)),
    }
}

/// Rewrite a text from significant token `k` on.
pub open spec fn rewritten_from(
    b: Seq<u8>,
    toks: Seq<Tok>,
    sig: Seq<usize>,
    k: int,
    p: Progress,
    own: Option<Info>,
    aliases: Map<Seq<char>, Info>,
) -> Option<Outcome>
    decreases b.len(), 2int, sig.len() - k,
{
    if k < 0 || k >= sig.len() {
        finished(b, p.out, p.last)
    } else {
        let t = toks[sig[k] as int];
        match t.kind {
            Kind::Punct(c) => rewritten_from(
                b,
                toks,
                sig,
                k + 1,
                if c == 123 {
                    opened(p)
                } else if c == 125 {
                    closed(p)
                } else {
                    p
                },
                own,
                aliases,
            ),
            Kind::Str => match cut(b, t.start as int, t.end as int) {
                None => None,
                Some(s) => if has_interpolation(s, 0) {
                    proof {
                        reveal(cut);
                    }
                    match string_from(s, 0, 0, Seq::empty(), own, aliases) {
                        None => None,
                        Some(Outcome::Fail(at, message)) => Some(
                            Outcome::Fail(t.start + at, message),
                        ),
                        Some(Outcome::Done(new)) => match replaced(
                            b,
                            p,
                            t.start as int,
                            new,
                            t.end as int,
                        ) {
                            None => None,
                            Some(p) => rewritten_from(b, toks, sig, k + 1, p, own, aliases),
                        },
                    }
                } else {
                    rewritten_from(b, toks, sig, k + 1, p, own, aliases)
                },
            },
            Kind::Ident => match name_turn(b, toks, sig, k, p, own, aliases) {
                None => None,
                Some(Turn::Fail(at, message)) => Some(Outcome::Fail(at, message)),
                Some(Turn::Next(p, next)) => if k < next <= sig.len() {
                    rewritten_from(b, toks, sig, next, p, own, aliases)
                } else {
                    None
                },
            },
            _ => rewritten_from(b, toks, sig, k + 1, p, own, aliases),
        }
    }
}

/// Rewrite the code in the interpolations of a string from position `i` on.
pub open spec fn string_from(
    s: Seq<u8>,
    i: int,
    last: int,
    out: Seq<char>,
    own: Option<Info>,
    aliases: Map<Seq<char>, Info>,
) -> Option<Outcome>
    decreases s.len(), 1int, s.len() + 4 - i,
{
    if i < 0 || i >= s.len() {
        finished(s, out, last)
    } else if s[i] == 92 {
        string_from(s, i + 2, last, out, own, aliases)
    } else if scanner::interpolates(s, i) {
        proof {
            reveal(cut);
            scanner::lemma_braces_end(s, i + 2, 1);
        }
        let end = scanner::interpolation(s, i);
        match cut(s, i + 2, end - 1) {
            None => None,
            Some(code) => match rewritten(code, own, aliases) {
                None => None,
                Some(Outcome::Fail(at, message)) => Some(Outcome::Fail(i + 2 + at, message)),
                Some(Outcome::Done(new)) => match part(s, last, i + 2) {
                    None => None,
                    Some(before) => string_from(
                        s,
                        end,
                        end - 1,
                        out + before + new,
                        own,
                        aliases,
                    ),
                },
            },
        }
    } else {
        string_from(s, i + 1, last, out, own, aliases)
    }
}

/// Rewrite a text: rename the items of its own module, and turn references
/// `alias::name` into the renamed items of other modules. There is no result where
/// the text of a token is needed that cuts a character, or the code of an
/// interpolation that does not end.
pub open spec fn rewritten(
    b: Seq<u8>,
    own: Option<Info>,
    aliases: Map<Seq<char>, Info>,
) -> Option<Outcome>
    decreases b.len(), 3int, 0int,
{
    let toks = scanner::scanned(b, 0);
    rewritten_from(
        b,
        toks,
        scanner::kept(toks, toks.len() as int),
        0,
        Progress { out: Seq::empty(), last: 0, depth: 0, pending: false, enums: Seq::empty() },
        own,
        aliases,
    )
}

/// What rewriting a text of `len` bytes has to do with `t`.
pub open spec fn results(
    t: Option<Outcome>,
    r: Option<Result<String, (usize, String)>>,
    len: int,
) -> bool {
    match t {
        None => r is None,
        Some(Outcome::Done(s)) => r matches Some(Ok(text)) && text@ == s,
        Some(Outcome::Fail(at, message)) => r matches Some(Err(e)) && e.0 == at && e.0 <= len
            && e.1@ == message,
    }
}

/// How far the exec rewriting has come.
struct Writer {
    out: String,
    last: usize,
    depth: i128,
    pending: bool,
    enums: Vec<i128>,
}

/// The depths in a list.
spec fn depths_of(s: Seq<i128>) -> Seq<int> {
    Seq::new(s.len(), |i: int| s[i] as int)
}

impl View for Writer {
    type V = Progress;

    closed spec fn view(&self) -> Progress {
        Progress {
            out: self.out@,
            last: self.last as int,
            depth: self.depth as int,
            pending: self.pending,
            enums: depths_of(self.enums@),
        }
    }
}

impl Writer {
    /// Nothing has been rewritten yet.
    fn new() -> (r: Self)
        ensures
            r@ == (Progress {
                out: Seq::empty(),
                last: 0,
                depth: 0,
                pending: false,
                enums: Seq::empty(),
            }),
    {
        let r = Writer {
            out: String::new(),
            last: 0,
            depth: 0,
            pending: false,
            enums: Vec::new(),
        };
        assert(r@.out =~= Seq::empty());
        assert(r@.enums =~= Seq::empty());
        r
    }

    /// Copy the text up to `to`, write `replacement`, and go on at `from`.
    fn replace(&mut self, text: &str, to: usize, replacement: &str, from: usize) -> (r: Option<()>)
        ensures
            match replaced(text.spec_bytes(), old(self)@, to as int, replacement@, from as int) {
                Some(p) => r is Some && final(self)@ == p,
                None => r is None,
            },
    {
        let s = slice(text, self.last, to)?;
        self.out.append(s);
        self.out.append(replacement);
        self.last = from;
        Some(())
    }

    /// A brace opens.
    fn open(&mut self)
        requires
            old(self)@.depth < usize::MAX,
        ensures
            final(self)@ == opened(old(self)@),
    {
        let ghost before = self@;
        self.depth = self.depth + 1;
        if self.pending {
            self.enums.push(self.depth);
            self.pending = false;
            assert(self@.enums =~= before.enums.push(before.depth + 1));
        }
    }

    /// A brace closes.
    fn close(&mut self)
        requires
            old(self)@.depth > -usize::MAX,
        ensures
            final(self)@ == closed(old(self)@),
    {
        let ghost before = self@;
        if self.enums.len() > 0 && self.enums[self.enums.len() - 1] == self.depth {
            self.enums.pop();
            assert(self@.enums =~= before.enums.drop_last());
        }
        self.depth = self.depth - 1;
    }

    /// Note the word `w`: `enum` at the top level starts the declaration of one.
    fn note(&mut self, w: &str)
        ensures
            final(self)@ == (Progress {
                pending: old(self)@.pending || (w@ == "enum"@ && old(self)@.depth == 0),
                ..old(self)@
            }),
    {
        if same(w, "enum") && self.depth == 0 {
            self.pending = true;
        }
    }

    /// Whether significant token `k` is the name of a variant.
    fn at_variant(&self, toks: &Vec<Tok>, sig: &Vec<usize>, k: usize) -> (r: bool)
        requires
            k < sig@.len(),
            forall|j: int| 0 <= j < sig@.len() ==> #[trigger] sig@[j] < toks@.len(),
        ensures
            r == is_variant(toks@, sig@, k as int, self@),
    {
        if self.enums.len() > 0 && self.enums[self.enums.len() - 1] == self.depth && k > 0 {
            let before = toks[sig[k - 1]].kind;
            before == Kind::Punct(123) || before == Kind::Punct(59)
        } else {
            false
        }
    }

    /// Whether a brace is open.
    fn inside(&self) -> (r: bool)
        ensures
            r == (self@.depth > 0),
    {
        self.depth > 0
    }

    /// Whether no brace is open.
    fn outside(&self) -> (r: bool)
        ensures
            r == (self@.depth == 0),
    {
        self.depth == 0
    }

    /// The new text, once the rest is copied.
    fn finish(self, text: &str) -> (r: Option<String>)
        ensures
            match finished(text.spec_bytes(), self@.out, self@.last) {
                Some(Outcome::Done(s)) => r is Some && r->0@ == s,
                _ => r is None,
            },
    {
        let s = slice(text, self.last, text.as_bytes().len())?;
        let mut out = self.out;
        out.append(s);
        Some(out)
    }
}

/// Whether significant token `k` names a member of something.
fn at_member(toks: &Vec<Tok>, sig: &Vec<usize>, k: usize) -> (r: bool)
    requires
        k < sig@.len(),
        forall|j: int| 0 <= j < sig@.len() ==> #[trigger] sig@[j] < toks@.len(),
    ensures
        r == is_member(toks@, sig@, k as int),
{
    if k > 0 {
        let before = toks[sig[k - 1]].kind;
        before == Kind::Punct(46) || before == Kind::ColonColon
    } else {
        false
    }
}

/// Whether significant token `k` is of that kind.
fn at_kind(toks: &Vec<Tok>, sig: &Vec<usize>, k: usize, kind: Kind) -> (r: bool)
    requires
        forall|j: int| 0 <= j < sig@.len() ==> #[trigger] sig@[j] < toks@.len(),
    ensures
        r == (kind_at(toks@, sig@, k as int) == Some(kind)),
{
    k < sig.len() && toks[sig[k]].kind == kind
}

/// Rewrite the reference `alias::name` at significant token `k`. The next token to
/// look at is returned.
fn alias_at(
    text: &str,
    toks: &Vec<Tok>,
    sig: &Vec<usize>,
    k: usize,
    writer: &mut Writer,
    module: &ModuleInfo,
) -> (r: Option<Result<usize, (usize, String)>>)
    requires
        k + 2 < sig@.len(),
        sig@.len() <= text.spec_bytes().len(),
        fits(text.spec_bytes()),
        forall|j: int| 0 <= j < sig@.len() ==> #[trigger] sig@[j] < toks@.len(),
        forall|j: int|
            0 <= j < toks@.len() ==> (#[trigger] toks@[j]).start <= toks@[j].end
                <= text.spec_bytes().len(),
    ensures
        match alias_turn(
            text.spec_bytes(),
            toks@,
            sig@,
            k as int,
            old(writer)@,
            info_of(*module),
        ) {
            None => r is None,
            Some(Turn::Next(p, next)) => r matches Some(Ok(n)) && n == next && final(writer)@ == p,
            Some(Turn::Fail(at, message)) => r matches Some(Err(e)) && e.0 == at && e.0
                <= text.spec_bytes().len() && e.1@ == message,
        },
{
    reveal(alias_turn);
    let t = toks[sig[k]];
    let name_tok = toks[sig[k + 2]];
    let name = word_of(text, &name_tok)?;
    if !module.items.contains(name) {
        let mut message = join("`", name);
        message.append("` isn't declared in ");
        message.append(module.file.as_str());
        return Some(Err((name_tok.start, message)));
    }
    if !module.public.contains(name) {
        let mut message = join("`", name);
        message.append("` is private to ");
        message.append(module.file.as_str());
        message.append(" (declare it `pub`)");
        return Some(Err((name_tok.start, message)));
    }
    let new = join(module.prefix.as_str(), name);
    writer.replace(text, t.start, new.as_str(), name_tok.end)?;
    Some(Ok(k + 3))
}

/// The empty word starts no declaration.
proof fn lemma_declares_nothing()
    ensures
        !declares(Seq::empty()),
{
    reveal_strlit("func");
    reveal_strlit("struct");
    reveal_strlit("enum");
    reveal_strlit("interface");
    reveal_strlit("type");
    reveal_strlit("const");
    let none = Seq::<char>::empty();
    assert(none.len() != "func"@.len() && none.len() != "struct"@.len() && none.len()
        != "enum"@.len());
    assert(none.len() != "interface"@.len() && none.len() != "type"@.len() && none.len()
        != "const"@.len());
}

/// Rewrite the name that is significant token `k`. The next token to look at is
/// returned.
fn name_at(
    text: &str,
    toks: &Vec<Tok>,
    sig: &Vec<usize>,
    k: usize,
    writer: &mut Writer,
    own: Option<&ModuleInfo>,
    aliases: &Aliases,
) -> (r: Option<Result<usize, (usize, String)>>)
    requires
        k < sig@.len(),
        sig@.len() <= text.spec_bytes().len(),
        fits(text.spec_bytes()),
        forall|j: int| 0 <= j < sig@.len() ==> #[trigger] sig@[j] < toks@.len(),
        forall|j: int|
            0 <= j < toks@.len() ==> (#[trigger] toks@[j]).start <= toks@[j].end
                <= text.spec_bytes().len(),
    ensures
        match name_turn(
            text.spec_bytes(),
            toks@,
            sig@,
            k as int,
            old(writer)@,
            own_of(own),
            infos_of(aliases@),
        ) {
            None => r is None,
            Some(Turn::Next(p, next)) => r matches Some(Ok(n)) && n == next && final(writer)@ == p
                && k < next <= sig@.len(),
            Some(Turn::Fail(at, message)) => r matches Some(Err(e)) && e.0 == at && e.0
                <= text.spec_bytes().len() && e.1@ == message,
        },
{
    reveal(name_turn);
    reveal(alias_turn);
    proof {
        lemma_declares_nothing();
    }
    let t = toks[sig[k]];
    let w = word_of(text, &t)?;
    let (method, declared) = if k > 0 {
        let before = word_of(text, &toks[sig[k - 1]])?;
        (same(before, "func") && writer.inside(), is_declaration(before) && writer.outside())
    } else {
        (false, false)
    };
    let ghost previous: Seq<char> = if k > 0 {
        word(text.spec_bytes(), toks@[sig@[k - 1] as int])->0
    } else {
        Seq::empty()
    };
    assert(method == (previous == "func"@ && writer@.depth > 0));
    assert(declared == is_declared(previous, writer@));
    writer.note(w);
    let member = at_member(toks, sig, k);
    if let Some(module) = aliases.get(w) {
        if !member && at_kind(toks, sig, k + 1, Kind::ColonColon) && at_kind(
            toks,
            sig,
            k + 2,
            Kind::Ident,
        ) {
            return alias_at(text, toks, sig, k, writer, module);
        }
    }
    if let Some(module) = own {
        if module.items.contains(w) && !member && !method && !writer.at_variant(toks, sig, k)
            && (declared || !at_kind(toks, sig, k + 1, Kind::Punct(58))) {
            let new = join(module.prefix.as_str(), w);
            assert(is_own(toks@, sig@, k as int, w@, previous, writer@, info_of(*module)));
            writer.replace(text, t.start, new.as_str(), t.end)?;
        }
    }
    Some(Ok(k + 1))
}

/// Rewrite a text, or nothing when it is too long or cannot be cut.
pub fn try_rewrite(
    text: &str,
    own: Option<&ModuleInfo>,
    aliases: &Aliases,
) -> (r: Option<Result<String, (usize, String)>>)
    ensures
        fits(text.spec_bytes()) ==> results(
            rewritten(text.spec_bytes(), own_of(own), infos_of(aliases@)),
            r,
            text.spec_bytes().len() as int,
        ),
        !fits(text.spec_bytes()) ==> r is None,
    decreases text.spec_bytes().len(), 1int,
{
    if text.as_bytes().len() > usize::MAX - 3 {
        return None;
    }
    let ghost b = text.spec_bytes();
    let (toks, sig) = tokens(text);
    proof {
        lemma_token_count(b, 0);
    }
    let mut writer = Writer::new();
    let mut k: usize = 0;
    while k < sig.len()
        invariant
            fits(text.spec_bytes()),
            b == text.spec_bytes(),
            sig@.len() <= b.len(),
            forall|j: int| 0 <= j < sig@.len() ==> #[trigger] sig@[j] < toks@.len(),
            forall|j: int|
                0 <= j < toks@.len() ==> (#[trigger] toks@[j]).start <= toks@[j].end <= b.len(),
            -(k as int) <= writer@.depth <= k,
            k <= sig@.len() + 2,
            rewritten(b, own_of(own), infos_of(aliases@)) == rewritten_from(
                b,
                toks@,
                sig@,
                k as int,
                writer@,
                own_of(own),
                infos_of(aliases@),
            ),
        decreases sig@.len() + 3 - k,
    {
        let t = toks[sig[k]];
        match t.kind {
            Kind::Punct(c) => {
                if c == 123 {
                    writer.open();
                } else if c == 125 {
                    writer.close();
                }
                k += 1;
            },
            Kind::Str => {
                let s = word_of(text, &t)?;
                proof {
                    reveal(cut);
                }
                if interpolates(s.as_bytes()) {
                    match rewrite_string(s, own, aliases)? {
                        Ok(new) => {
                            writer.replace(text, t.start, new.as_str(), t.end)?;
                        },
                        Err((at, message)) => {
                            return Some(Err((t.start + at, message)));
                        },
                    }
                }
                k += 1;
            },
            Kind::Ident => {
                let ghost before = writer@;
                match name_at(text, &toks, &sig, k, &mut writer, own, aliases)? {
                    Ok(next) => {
                        proof {
                            lemma_turn_depth(b, toks@, sig@, k as int, before, own_of(own), infos_of(aliases@));
                        }
                        k = next;
                    },
                    Err(e) => {
                        return Some(Err(e));
                    },
                }
            },
            _ => {
                k += 1;
            },
        }
    }
    let out = writer.finish(text)?;
    Some(Ok(out))
}

/// A name leaves the braces that are open as they are, and takes at most three
/// tokens.
proof fn lemma_turn_depth(
    b: Seq<u8>,
    toks: Seq<Tok>,
    sig: Seq<usize>,
    k: int,
    p: Progress,
    own: Option<Info>,
    aliases: Map<Seq<char>, Info>,
)
    requires
        0 <= k < sig.len(),
    ensures
        name_turn(b, toks, sig, k, p, own, aliases) matches Some(Turn::Next(q, next)) ==> q.depth
            == p.depth && next <= sig.len(),
{
    reveal(name_turn);
    reveal(alias_turn);
}

/// There are at most as many tokens as bytes.
proof fn lemma_token_count(b: Seq<u8>, i: int)
    requires
        0 <= i,
    ensures
        i <= b.len() ==> scanner::scanned(b, i).len() <= b.len() - i,
        i > b.len() ==> scanner::scanned(b, i).len() == 0,
    decreases b.len() + 4 - i,
{
    if i < b.len() {
        scanner::lemma_token(b, i);
        lemma_token_count(b, scanner::token(b, i).1);
    }
}

/// Rewrite the code in the interpolations of a string.
fn rewrite_string(s: &str, own: Option<&ModuleInfo>, aliases: &Aliases) -> (r: Option<
    Result<String, (usize, String)>,
>)
    requires
        fits(s.spec_bytes()),
    ensures
        results(
            string_from(s.spec_bytes(), 0, 0, Seq::empty(), own_of(own), infos_of(aliases@)),
            r,
            s.spec_bytes().len() as int,
        ),
    decreases s.spec_bytes().len(), 0int,
{
    let ghost sb = s.spec_bytes();
    let b = s.as_bytes();
    let mut out = String::new();
    assert(out@ =~= Seq::<char>::empty());
    let mut last: usize = 0;
    let mut i: usize = 0;
    while i < b.len()
        invariant
            fits(sb),
            sb == s.spec_bytes(),
            b@ == sb,
            i <= sb.len() + 2,
            string_from(sb, 0, 0, Seq::empty(), own_of(own), infos_of(aliases@)) == string_from(
                sb,
                i as int,
                last as int,
                out@,
                own_of(own),
                infos_of(aliases@),
            ),
        decreases sb.len() + 3 - i,
    {
        if b[i] == 92 {
            i += 2;
        } else if b[i] == 36 && i + 1 < b.len() && b[i + 1] == 123 {
            let end = interpolation_end(b, i);
            let code = slice(s, i + 2, end - 1)?;
            proof {
                reveal(cut);
            }
            match try_rewrite(code, own, aliases)? {
                Ok(new) => {
                    let before = slice(s, last, i + 2)?;
                    out.append(before);
                    out.append(new.as_str());
                },
                Err((at, message)) => {
                    return Some(Err((i + 2 + at, message)));
                },
            }
            last = end - 1;
            i = end;
        } else {
            i += 1;
        }
    }
    let rest = slice(s, last, b.len())?;
    out.append(rest);
    Some(Ok(out))
}

/// Rewrite a file's text: rename its own items (if it's a module with `own` items),
/// and turn `alias::name` references to modules into their renamed items. Errors
/// are (byte offset, message). ASCII text whose interpolations end always has a result,
/// as [`ascii::lemma_rewrite_has_result`] shows.
pub fn rewrite(
    text: &str,
    own: Option<&ModuleInfo>,
    aliases: &Aliases,
) -> (r: Result<String, (usize, String)>)
    requires
        fits(text.spec_bytes()),
        rewritten(text.spec_bytes(), own_of(own), infos_of(aliases@)) is Some,
    ensures
        match rewritten(text.spec_bytes(), own_of(own), infos_of(aliases@)) {
            Some(Outcome::Done(s)) => r matches Ok(new) && new@ == s,
            Some(Outcome::Fail(at, message)) => r matches Err(e) && e.0 == at && e.1@ == message,
            None => false,
        },
{
    try_rewrite(text, own, aliases).unwrap()
}

// ---------------------------------------------------------------------------
// What rewriting keeps

/// Text that is cut between characters is the text before the cut, followed by the
/// text behind it.
proof fn lemma_decode_join(b: Seq<u8>, x: int, y: int)
    requires
        valid_utf8(b),
        0 <= x <= y <= b.len(),
        is_char_boundary(b, x),
        is_char_boundary(b, y),
    ensures
        valid_utf8(b.subrange(x, y)),
        decode_utf8(b.subrange(0, y)) == decode_utf8(b.subrange(0, x)) + decode_utf8(
            b.subrange(x, y),
        ),
{
    let c = b.subrange(0, y);
    valid_utf8_split(b, y);
    if x == y {
        is_char_boundary_start_end_of_seq(c);
    } else {
        is_char_boundary_iff_not_is_continuation_byte(b, x);
        is_char_boundary_iff_not_is_continuation_byte(c, x);
        assert(c[x] == b[x]);
    }
    valid_utf8_split(c, x);
    decode_utf8_split(c, x);
    assert(c.subrange(0, x) =~= b.subrange(0, x));
    assert(c.subrange(x, y) =~= b.subrange(x, y));
}

/// Whether the items of the module that a text belongs to, if it belongs to one, are
/// renamed with nothing.
pub open spec fn unprefixed(own: Option<Info>) -> bool {
    own matches Some(m) ==> m.prefix.len() == 0
}

/// A text of a file that is no module, and that no module is imported into, is not
/// changed by rewriting, and no error is found in it. In a file that is a module,
/// rewriting does nothing but put the prefix before names: with an empty prefix the
/// text stays as it is.
pub proof fn lemma_rewrite_unchanged(b: Seq<u8>, own: Option<Info>)
    requires
        valid_utf8(b),
        unprefixed(own),
    ensures
        rewritten(b, own, Map::empty()) matches Some(o) ==> o == Outcome::Done(decode_utf8(b)),
    decreases b.len(), 3int, 0int,
{
    let toks = scanner::scanned(b, 0);
    let p = Progress {
        out: Seq::empty(),
        last: 0,
        depth: 0,
        pending: false,
        enums: Seq::empty(),
    };
    is_char_boundary_start_end_of_seq(b);
    assert(b.subrange(0, 0) =~= Seq::empty());
    lemma_from_unchanged(b, toks, scanner::kept(toks, toks.len() as int), 0, p, own);
}

/// Rewriting the rest of a text that was not changed so far does not change it.
proof fn lemma_from_unchanged(
    b: Seq<u8>,
    toks: Seq<Tok>,
    sig: Seq<usize>,
    k: int,
    p: Progress,
    own: Option<Info>,
)
    requires
        valid_utf8(b),
        unprefixed(own),
        0 <= p.last <= b.len(),
        is_char_boundary(b, p.last),
        p.out == decode_utf8(b.subrange(0, p.last)),
    ensures
        rewritten_from(b, toks, sig, k, p, own, Map::empty()) matches Some(o) ==> o
            == Outcome::Done(decode_utf8(b)),
    decreases b.len(), 2int, sig.len() - k,
{
    reveal(cut);
    if k < 0 || k >= sig.len() {
        lemma_finished(b, p.out, p.last);
    } else {
        let t = toks[sig[k] as int];
        match t.kind {
            Kind::Punct(c) => {
                let q = if c == 123 {
                    opened(p)
                } else if c == 125 {
                    closed(p)
                } else {
                    p
                };
                lemma_from_unchanged(b, toks, sig, k + 1, q, own);
            },
            Kind::Str => {
                if let Some(s) = cut(b, t.start as int, t.end as int) {
                    if has_interpolation(s, 0) {
                        lemma_decode_join(b, t.start as int, t.end as int);
                        is_char_boundary_start_end_of_seq(s);
                        assert(s.subrange(0, 0) =~= Seq::empty());
                        lemma_string_unchanged(s, 0, 0, Seq::empty(), own);
                        if let Some(before) = part(b, p.last, t.start as int) {
                            lemma_decode_join(b, p.last, t.start as int);
                            let q = Progress {
                                out: p.out + before + decode_utf8(s),
                                last: t.end as int,
                                ..p
                            };
                            assert(q.out =~= decode_utf8(b.subrange(0, t.end as int)));
                            lemma_from_unchanged(b, toks, sig, k + 1, q, own);
                        }
                    } else {
                        lemma_from_unchanged(b, toks, sig, k + 1, p, own);
                    }
                }
            },
            Kind::Ident => {
                lemma_name_unchanged(b, toks, sig, k, p, own);
                if let Some(Turn::Next(q, next)) = name_turn(
                    b,
                    toks,
                    sig,
                    k,
                    p,
                    own,
                    Map::empty(),
                ) {
                    if k < next <= sig.len() {
                        lemma_from_unchanged(b, toks, sig, next, q, own);
                    }
                }
            },
            _ => {
                lemma_from_unchanged(b, toks, sig, k + 1, p, own);
            },
        }
    }
}

/// Rewriting a name in a text that was not changed so far does not change it.
proof fn lemma_name_unchanged(
    b: Seq<u8>,
    toks: Seq<Tok>,
    sig: Seq<usize>,
    k: int,
    p: Progress,
    own: Option<Info>,
)
    requires
        valid_utf8(b),
        unprefixed(own),
        0 <= p.last <= b.len(),
        is_char_boundary(b, p.last),
        p.out == decode_utf8(b.subrange(0, p.last)),
    ensures
        name_turn(b, toks, sig, k, p, own, Map::empty()) matches Some(turn) ==> {
            &&& turn matches Turn::Next(q, _)
            &&& 0 <= q.last <= b.len()
            &&& is_char_boundary(b, q.last)
            &&& q.out == decode_utf8(b.subrange(0, q.last))
        },
{
    reveal(name_turn);
    reveal(cut);
    let t = toks[sig[k] as int];
    if let Some(module) = own {
        if let Some(w) = word(b, t) {
            lemma_decode_join(b, t.start as int, t.end as int);
            if let Some(before) = part(b, p.last, t.start as int) {
                lemma_decode_join(b, p.last, t.start as int);
                assert(module.prefix + w =~= w);
                assert(p.out + before + w =~= decode_utf8(b.subrange(0, t.end as int)));
            }
        }
    }
}

/// Rewriting the rest of a string that was not changed so far does not change it.
proof fn lemma_string_unchanged(s: Seq<u8>, i: int, last: int, out: Seq<char>, own: Option<Info>)
    requires
        valid_utf8(s),
        unprefixed(own),
        0 <= last <= s.len(),
        is_char_boundary(s, last),
        out == decode_utf8(s.subrange(0, last)),
    ensures
        string_from(s, i, last, out, own, Map::empty()) matches Some(o) ==> o == Outcome::Done(
            decode_utf8(s),
        ),
    decreases s.len(), 1int, s.len() + 4 - i,
{
    reveal(cut);
    if i < 0 || i >= s.len() {
        lemma_finished(s, out, last);
    } else if s[i] == 92 {
        lemma_string_unchanged(s, i + 2, last, out, own);
    } else if scanner::interpolates(s, i) {
        scanner::lemma_braces_end(s, i + 2, 1);
        let end = scanner::interpolation(s, i);
        if let Some(code) = cut(s, i + 2, end - 1) {
            lemma_decode_join(s, i + 2, end - 1);
            lemma_rewrite_unchanged(code, own);
            if let Some(before) = part(s, last, i + 2) {
                lemma_decode_join(s, last, i + 2);
                let new = out + before + decode_utf8(code);
                assert(new =~= decode_utf8(s.subrange(0, end - 1)));
                lemma_string_unchanged(s, end, end - 1, new, own);
            }
        }
    } else {
        lemma_string_unchanged(s, i + 1, last, out, own);
    }
}

/// Copying the rest of a text completes it.
proof fn lemma_finished(b: Seq<u8>, out: Seq<char>, last: int)
    requires
        valid_utf8(b),
        0 <= last <= b.len(),
        is_char_boundary(b, last),
        out == decode_utf8(b.subrange(0, last)),
    ensures
        finished(b, out, last) == Some(Outcome::Done(decode_utf8(b))),
{
    reveal(cut);
    is_char_boundary_start_end_of_seq(b);
    lemma_decode_join(b, last, b.len() as int);
    assert(b.subrange(0, b.len() as int) =~= b);
}

/// A reference `alias::name` is accepted only if the module declares the item, and
/// declares it public; the new text then names it with the module's prefix.
pub proof fn lemma_only_public_items(
    b: Seq<u8>,
    toks: Seq<Tok>,
    sig: Seq<usize>,
    k: int,
    p: Progress,
    module: Info,
)
    ensures
        alias_turn(b, toks, sig, k, p, module) matches Some(Turn::Next(q, _)) ==> {
            let name = word(b, toks[sig[k + 2] as int]);
            let before = part(b, p.last, toks[sig[k] as int].start as int);
            &&& name is Some
            &&& before is Some
            &&& module.items.contains(name->0)
            &&& module.public.contains(name->0)
            &&& q.out == p.out + before->0 + (module.prefix + name->0)
        },
{
    reveal(alias_turn);
}

} // verus!
