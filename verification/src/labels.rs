//! The labels of blocks. No two labels are the same text, so a function whose blocks
//! have different labels has no two blocks of the same name.

use vstd::prelude::*;
use crate::text;
use crate::translation;

verus! {

/// The blocks of a conditional, a loop, or an operator that does not always evaluate
/// its right operand.
pub enum Part {
    Yes,
    No,
    End,
    Test,
    Again,
    Rest,
    Decided,
}

/// What a block of a function is for. The numbers are those of the conditional or
/// match, of the arm, and of the test.
pub enum Label {
    Part(Part, usize),
    MatchEnd(usize),
    MatchArm(usize, usize),
    MatchNext(usize, usize),
    MatchTest(usize, usize, usize),
}

/// What the name of a block starts with.
pub open spec fn prefix(p: Part) -> Seq<char> {
    match p {
        Part::Yes => "true-"@,
        Part::No => "else-"@,
        Part::End => "end-"@,
        Part::Test => "eval-"@,
        Part::Again => "loop-"@,
        Part::Rest => "sc_rhs_"@,
        Part::Decided => "sc_end_"@,
    }
}

/// The name of a block.
pub open spec fn named(l: Label) -> Seq<char> {
    match l {
        Label::Part(p, n) => translation::label(prefix(p), n),
        Label::MatchEnd(n) => translation::label("match-end-"@, n),
        Label::MatchArm(n, i) => translation::label2("match-arm-"@, n, i),
        Label::MatchNext(n, i) => translation::label2("match-next-"@, n, i),
        Label::MatchTest(n, i, t) => translation::label(
            translation::label2("match-test-"@, n, i) + "-"@,
            t,
        ),
    }
}

/// What the name of a block starts with, before its last number.
pub open spec fn stem(l: Label) -> Seq<char> {
    match l {
        Label::Part(p, n) => prefix(p),
        Label::MatchEnd(n) => "match-end-"@,
        Label::MatchArm(n, i) => translation::label("match-arm-"@, n) + "-"@,
        Label::MatchNext(n, i) => translation::label("match-next-"@, n) + "-"@,
        Label::MatchTest(n, i, t) => translation::label2("match-test-"@, n, i) + "-"@,
    }
}

/// The last number of the name of a block.
pub open spec fn number(l: Label) -> usize {
    match l {
        Label::Part(p, n) => n,
        Label::MatchEnd(n) => n,
        Label::MatchArm(n, i) => i,
        Label::MatchNext(n, i) => i,
        Label::MatchTest(n, i, t) => t,
    }
}

/// Whether a text ends with something that is no digit.
pub open spec fn plain(s: Seq<char>) -> bool {
    s.len() > 0 && !text::is_digit(s.last())
}

/// Names that are made of a text that does not end with a digit, and a number, are
/// the same only if both are.
pub proof fn lemma_label(p: Seq<char>, n: usize, q: Seq<char>, m: usize)
    requires
        plain(p),
        plain(q),
        translation::label(p, n) == translation::label(q, m),
    ensures
        p == q,
        n == m,
{
    let a = translation::label(p, n);
    let b = translation::label(q, m);
    text::lemma_digits_are_digits(n as nat);
    text::lemma_digits_are_digits(m as nat);
    let x = text::digits(n as nat);
    let y = text::digits(m as nat);
    assert(a.len() == b.len());
    if p.len() < q.len() {
        let k: int = q.len() - 1;
        assert(b[k] == q.last());
        assert(a[k] == x[k - p.len()]);
    } else if q.len() < p.len() {
        let k: int = p.len() - 1;
        assert(a[k] == p.last());
        assert(b[k] == y[k - q.len()]);
    }
    assert(a.take(p.len() as int) =~= p);
    assert(b.take(q.len() as int) =~= q);
    assert(a.skip(p.len() as int) =~= x);
    assert(b.skip(q.len() as int) =~= y);
    text::lemma_digits_injective(n as nat, m as nat);
}

/// A name is made of its start and its last number.
proof fn lemma_parts(l: Label)
    ensures
        named(l) == translation::label(stem(l), number(l)),
        plain(stem(l)),
{
    reveal_strlit("true-");
    reveal_strlit("else-");
    reveal_strlit("end-");
    reveal_strlit("eval-");
    reveal_strlit("loop-");
    reveal_strlit("sc_rhs_");
    reveal_strlit("sc_end_");
    reveal_strlit("match-end-");
    reveal_strlit("-");
    assert(stem(l).last() == '-' || stem(l).last() == '_');
}

/// Three characters that tell the starts of names apart.
spec fn letters(p: Part) -> (char, char, char) {
    match p {
        Part::Yes => ('t', 'r', 'e'),
        Part::No => ('e', 'l', 'e'),
        Part::End => ('e', 'n', '-'),
        Part::Test => ('e', 'v', 'l'),
        Part::Again => ('l', 'o', 'p'),
        Part::Rest => ('s', 'c', 'r'),
        Part::Decided => ('s', 'c', 'e'),
    }
}

/// Where these characters stand.
proof fn lemma_letters(p: Part)
    ensures
        (prefix(p)[0], prefix(p)[1], prefix(p)[3]) == letters(p),
{
    match p {
        Part::Yes => {
            reveal_strlit("true-");
        },
        Part::No => {
            reveal_strlit("else-");
        },
        Part::End => {
            reveal_strlit("end-");
        },
        Part::Test => {
            reveal_strlit("eval-");
        },
        Part::Again => {
            reveal_strlit("loop-");
        },
        Part::Rest => {
            reveal_strlit("sc_rhs_");
        },
        Part::Decided => {
            reveal_strlit("sc_end_");
        },
    }
}

/// Starts of different kinds of names differ.
proof fn lemma_prefix(p: Part, q: Part)
    requires
        prefix(p) == prefix(q),
    ensures
        p == q,
{
    lemma_letters(p);
    lemma_letters(q);
}

/// The kind of a name: its first character, and for the name of a block of a match
/// the first character of the next word.
spec fn kind(s: Seq<char>) -> (char, char) {
    (s[0], if s[0] == 'm' { s[6] } else { 'x' })
}

/// The kind that a name has.
spec fn kind_of(l: Label) -> (char, char) {
    match l {
        Label::Part(p, n) => (prefix(p)[0], 'x'),
        Label::MatchEnd(n) => ('m', 'e'),
        Label::MatchArm(n, i) => ('m', 'a'),
        Label::MatchNext(n, i) => ('m', 'n'),
        Label::MatchTest(n, i, t) => ('m', 't'),
    }
}

/// The start of a name shows its kind.
proof fn lemma_kind(l: Label)
    ensures
        kind(stem(l)) == kind_of(l),
        l is Part ==> kind_of(l).0 != 'm',
{
    if let Label::Part(p, n) = l {
        lemma_letters(p);
    }
    reveal_strlit("match-end-");
    reveal_strlit("match-arm-");
    reveal_strlit("match-next-");
    reveal_strlit("match-test-");
}

/// Texts that differ only in what is before the same last character.
proof fn lemma_same_end(a: Seq<char>, b: Seq<char>)
    requires
        a + "-"@ == b + "-"@,
    ensures
        a == b,
{
    reveal_strlit("-");
    assert((a + "-"@).drop_last() =~= a);
    assert((b + "-"@).drop_last() =~= b);
}

/// Different labels have different names.
pub proof fn lemma_named(a: Label, b: Label)
    requires
        named(a) == named(b),
    ensures
        a == b,
{
    lemma_parts(a);
    lemma_parts(b);
    lemma_label(stem(a), number(a), stem(b), number(b));
    lemma_kind(a);
    lemma_kind(b);
    reveal_strlit("match-arm-");
    reveal_strlit("match-next-");
    reveal_strlit("match-test-");
    match a {
        Label::Part(p, n) => {
            if let Label::Part(q, m) = b {
                lemma_prefix(p, q);
            }
        },
        Label::MatchEnd(n) => {},
        Label::MatchArm(n, i) => {
            if let Label::MatchArm(m, j) = b {
                lemma_same_end(
                    translation::label("match-arm-"@, n),
                    translation::label("match-arm-"@, m),
                );
                lemma_label("match-arm-"@, n, "match-arm-"@, m);
            }
        },
        Label::MatchNext(n, i) => {
            if let Label::MatchNext(m, j) = b {
                lemma_same_end(
                    translation::label("match-next-"@, n),
                    translation::label("match-next-"@, m),
                );
                lemma_label("match-next-"@, n, "match-next-"@, m);
            }
        },
        Label::MatchTest(n, i, t) => {
            if let Label::MatchTest(m, j, u) = b {
                let x = translation::label("match-test-"@, n);
                let y = translation::label("match-test-"@, m);
                lemma_same_end(
                    translation::label2("match-test-"@, n, i),
                    translation::label2("match-test-"@, m, j),
                );
                assert(plain(x + "-"@) && plain(y + "-"@)) by {
                    reveal_strlit("-");
                }
                lemma_label(x + "-"@, i, y + "-"@, j);
                lemma_same_end(x, y);
                lemma_label("match-test-"@, n, "match-test-"@, m);
            }
        },
    }
}

/// No label is named like the first block.
pub proof fn lemma_entry(l: Label)
    ensures
        named(l) != "entry"@,
{
    lemma_parts(l);
    text::lemma_digits_are_digits(number(l) as nat);
    reveal_strlit("entry");
    let x = text::digits(number(l) as nat);
    assert(named(l).last() == x[x.len() - 1]);
}

} // verus!
