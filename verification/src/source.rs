//! The combined source of a program, with a record of which file and line every
//! line of it came from, so that errors can point at the original location.

use vstd::prelude::*;
use vstd::string::*;
use vstd::utf8::*;
use crate::imports;
use crate::imports::strip_suffix;
use crate::text;

verus! {

/// The lines of a text. A line ends at a line feed, or at a carriage return and a
/// line feed; neither is part of the line. A text that ends there has no empty line
/// behind it.
pub open spec fn lines_of(s: Seq<char>) -> Seq<Seq<char>>
    decreases s.len(),
{
    let end = imports::position(s, '\n', 0);
    if s.len() == 0 {
        Seq::empty()
    } else if 0 <= end < s.len() {
        seq![without_return(s.take(end))] + lines_of(s.skip(end + 1))
    } else {
        seq![s]
    }
}

/// A line without the carriage return at its end.
pub open spec fn without_return(line: Seq<char>) -> Seq<char> {
    if imports::ends_with(line, "\r"@) {
        line.drop_last()
    } else {
        line
    }
}

/// The combined source: its text, and the file and line number that each of its
/// lines came from.
pub struct Src {
    pub text: Seq<char>,
    pub lines: Seq<(Seq<char>, usize)>,
}

/// Nothing.
pub open spec fn nothing() -> Src {
    Src { text: Seq::empty(), lines: Seq::empty() }
}

/// The source with one more line.
pub open spec fn with_line(s: Src, line: Seq<char>, file: Seq<char>, number: usize) -> Src {
    Src { text: s.text + line + "\n"@, lines: s.lines.push((file, number)) }
}

/// The source with the lines of a file from position `k` on.
pub open spec fn with_lines(s: Src, lines: Seq<Seq<char>>, file: Seq<char>, k: int) -> Src
    decreases lines.len() - k,
{
    if k < 0 || k >= lines.len() {
        s
    } else {
        with_lines(with_line(s, lines[k], file, (k + 1) as usize), lines, file, k + 1)
    }
}

/// Where line `line` of the source, counted from one, came from.
pub open spec fn located(s: Src, line: usize) -> (Seq<char>, usize) {
    let at = if line == 0 {
        0
    } else {
        line - 1
    };
    if at < s.lines.len() {
        s.lines[at]
    } else {
        ("<unknown>"@, line)
    }
}

/// The views of file names with line numbers.
pub open spec fn places_of(lines: Seq<(String, usize)>) -> Seq<(Seq<char>, usize)> {
    Seq::new(lines.len(), |i: int| (lines[i].0@, lines[i].1))
}

// ---------------------------------------------------------------------------
// Splitting a text into lines

/// A character other than a line feed is written without the byte of a line feed.
proof fn lemma_encode_char(c: char)
    requires
        c != '\n',
    ensures
        forall|j: int|
            0 <= j < encode_scalar(c as u32).len() ==> #[trigger] encode_scalar(c as u32)[j] != 10,
{
    let n = c as u32;
    assert(n != 10);
    assert(has_width_1_encoding(n) && n != 10 ==> leading_byte_width_1(n) != 10) by (bit_vector);
    assert(leading_byte_width_2(n) != 10) by (bit_vector);
    assert(leading_byte_width_3(n) != 10) by (bit_vector);
    assert(leading_byte_width_4(n) != 10) by (bit_vector);
    assert(last_continuation_byte(n) != 10) by (bit_vector);
    assert(second_last_continuation_byte(n) != 10) by (bit_vector);
    assert(third_last_continuation_byte(n) != 10) by (bit_vector);
}

/// The bytes of a text are those of its first `k` characters and those of the rest.
/// Without a line feed among the characters there is none among the bytes.
proof fn lemma_encode_split(s: Seq<char>, k: int)
    requires
        0 <= k <= s.len(),
        forall|j: int| 0 <= j < k ==> s[j] != '\n',
    ensures
        encode_utf8(s) == encode_utf8(s.take(k)) + encode_utf8(s.skip(k)),
        forall|j: int|
            0 <= j < encode_utf8(s.take(k)).len() ==> #[trigger] encode_utf8(s.take(k))[j] != 10,
    decreases k,
{
    if k == 0 {
        assert(s.take(0) =~= Seq::empty());
        assert(s.skip(0) =~= s);
        assert(encode_utf8(s.take(0)) + encode_utf8(s) =~= encode_utf8(s));
    } else {
        let rest = s.drop_first();
        assert forall|j: int| 0 <= j < k - 1 implies rest[j] != '\n' by {
            assert(rest[j] == s[j + 1]);
        }
        lemma_encode_split(rest, k - 1);
        lemma_encode_char(s[0]);
        assert(s.take(k)[0] == s[0]);
        assert(s.take(k).drop_first() =~= rest.take(k - 1));
        assert(s.skip(k) =~= rest.skip(k - 1));
        let a = encode_scalar(s[0] as u32);
        let b = encode_utf8(rest.take(k - 1));
        assert(encode_utf8(s.take(k)) == a + b);
        assert(encode_utf8(s) =~= a + b + encode_utf8(s.skip(k)));
        assert forall|j: int| 0 <= j < (a + b).len() implies #[trigger] (a + b)[j] != 10 by {
            if j < a.len() {
                assert((a + b)[j] == a[j]);
            } else {
                assert((a + b)[j] == b[j - a.len()]);
            }
        }
    }
}

/// The first position of a line feed lies behind characters that are none.
pub proof fn lemma_position(s: Seq<char>, i: int)
    requires
        0 <= i <= s.len(),
    ensures
        i <= imports::position(s, '\n', i) <= s.len(),
        forall|j: int| i <= j < imports::position(s, '\n', i) ==> s[j] != '\n',
        imports::position(s, '\n', i) < s.len() ==> s[imports::position(s, '\n', i)] == '\n',
    decreases s.len() - i,
{
    if i < s.len() && s[i] != '\n' {
        lemma_position(s, i + 1);
    }
}

/// The bytes of a text with a line feed: those before it, the line feed, and those
/// behind it.
proof fn lemma_encode_line(s: Seq<char>)
    ensures
        ({
            let end = imports::position(s, '\n', 0);
            let head = encode_utf8(s.take(end));
            &&& 0 <= end <= s.len()
            &&& forall|j: int| 0 <= j < head.len() ==> #[trigger] head[j] != 10
            &&& end == s.len() ==> head == encode_utf8(s)
            &&& end < s.len() ==> encode_utf8(s) == head + seq![10u8] + encode_utf8(
                s.skip(end + 1),
            )
        }),
{
    let end = imports::position(s, '\n', 0);
    lemma_position(s, 0);
    lemma_encode_split(s, end);
    if end < s.len() {
        let tail = s.skip(end);
        assert(tail[0] == '\n');
        assert(tail.drop_first() =~= s.skip(end + 1));
        let n = '\n' as u32;
        assert(n == 10);
        assert(has_width_1_encoding(10u32) && leading_byte_width_1(10u32) == 10) by (bit_vector);
        assert(encode_scalar(n) =~= seq![10u8]);
        assert(encode_utf8(s) =~= encode_utf8(s.take(end)) + seq![10u8] + encode_utf8(
            s.skip(end + 1),
        ));
    } else {
        assert(s.take(end) =~= s);
    }
}

/// The first line of a text and what follows it, or nothing where there is no line
/// feed.
fn first_line<'b>(s: &'b str) -> (r: Option<(&'b str, &'b str)>)
    ensures
        ({
            let end = imports::position(s@, '\n', 0);
            match r {
                Some((line, rest)) => 0 <= end < s@.len() && line@ == s@.take(end) && rest@
                    == s@.skip(end + 1),
                None => end == s@.len(),
            }
        }),
{
    let bytes = s.as_bytes();
    let ghost end = imports::position(s@, '\n', 0);
    let ghost head = encode_utf8(s@.take(end));
    proof {
        lemma_encode_line(s@);
    }
    let mut i: usize = 0;
    while i < bytes.len() && bytes[i] != 10
        invariant
            bytes@ == s.spec_bytes(),
            i <= bytes@.len(),
            forall|j: int| 0 <= j < i ==> bytes@[j] != 10,
        decreases bytes@.len() - i,
    {
        i += 1;
    }
    if i == bytes.len() {
        proof {
            if end < s@.len() {
                assert(bytes@[head.len() as int] == 10);
            }
        }
        return None;
    }
    proof {
        let b = bytes@;
        if end == s@.len() {
            assert(head[i as int] != 10);
        }
        let behind = encode_utf8(s@.skip(end + 1));
        assert(b == head + seq![10u8] + behind);
        assert(b[head.len() as int] == 10);
        if i < head.len() {
            assert(head[i as int] == b[i as int]);
        }
        assert(i == head.len());
        encode_utf8_valid_utf8(s@);
        assert(b[i as int] == 10u8);
        assert(!is_continuation_byte(10u8)) by (bit_vector);
        is_char_boundary_iff_not_is_continuation_byte(b, i as int);
    }
    let (line, tail) = s.split_at(i);
    proof {
        let b = bytes@;
        assert(line.spec_bytes() =~= head);
        text::lemma_same_bytes(line@, s@.take(end));
        encode_utf8_valid_utf8(tail@);
        let t = tail.spec_bytes();
        assert(t =~= seq![10u8] + encode_utf8(s@.skip(end + 1)));
        assert(t[0] == 10u8);
        assert(is_leading_byte_width_1(10u8)) by (bit_vector);
        reveal_with_fuel(is_char_boundary, 2);
        assert(is_char_boundary(t, 1));
    }
    let (_, rest) = tail.split_at(1);
    proof {
        assert(rest.spec_bytes() =~= encode_utf8(s@.skip(end + 1)));
        text::lemma_same_bytes(rest@, s@.skip(end + 1));
    }
    Some((line, rest))
}

/// The views of lines.
pub open spec fn texts_of(lines: Seq<&str>) -> Seq<Seq<char>> {
    Seq::new(lines.len(), |i: int| lines[i]@)
}

/// The lines of a text.
pub fn lines<'b>(contents: &'b str) -> (r: Vec<&'b str>)
    ensures
        texts_of(r@) == lines_of(contents@),
{
    let mut r: Vec<&'b str> = Vec::new();
    let mut rest = contents;
    assert(texts_of(r@) + lines_of(rest@) =~= lines_of(contents@));
    while !rest.is_empty()
        invariant
            texts_of(r@) + lines_of(rest@) == lines_of(contents@),
        decreases rest@.len(),
    {
        let ghost before = r@;
        match first_line(rest) {
            Some((line, tail)) => {
                let ghost ended = line@;
                let line = match strip_suffix(line, "\r") {
                    Some(l) => l,
                    None => line,
                };
                proof {
                    reveal_strlit("\r");
                    assert(line@ =~= without_return(ended));
                }
                r.push(line);
                proof {
                    assert(texts_of(r@) + lines_of(tail@) =~= texts_of(before) + (seq![line@]
                        + lines_of(tail@)));
                }
                rest = tail;
            },
            None => {
                r.push(rest);
                proof {
                    assert(texts_of(r@) =~= texts_of(before) + seq![rest@]);
                }
                return r;
            },
        }
    }
    assert(texts_of(r@) + lines_of(rest@) =~= texts_of(r@));
    r
}

// ---------------------------------------------------------------------------
// The combined source

/// The combined program source, plus a record of which file and line every line of
/// it came from.
pub struct Source {
    pub text: String,
    pub lines: Vec<(String, usize)>,
}

impl View for Source {
    type V = Src;

    open spec fn view(&self) -> Src {
        Src { text: self.text@, lines: places_of(self.lines@) }
    }
}

impl Source {
    /// A source without lines.
    pub fn new() -> (r: Self)
        ensures
            r@ == nothing(),
    {
        let text = "".to_owned();
        let r = Source { text, lines: Vec::new() };
        proof {
            reveal_strlit("");
            assert(r@.text =~= Seq::empty());
            assert(r@.lines =~= Seq::empty());
        }
        r
    }

    /// Add line `line_number` of `file`.
    pub fn push_line(&mut self, line: &str, file: &str, line_number: usize)
        ensures
            final(self)@ == with_line(old(self)@, line@, file@, line_number),
    {
        let ghost before = self@;
        self.text.append(line);
        self.text.append("\n");
        self.lines.push((file.to_owned(), line_number));
        proof {
            assert(self@.lines =~= before.lines.push((file@, line_number)));
        }
    }

    /// Add the lines of a file.
    pub fn push_file(&mut self, file: &str, contents: &str)
        ensures
            final(self)@ == with_lines(old(self)@, lines_of(contents@), file@, 0),
    {
        let lines = lines(contents);
        let mut k: usize = 0;
        while k < lines.len()
            invariant
                k <= lines@.len(),
                with_lines(old(self)@, texts_of(lines@), file@, 0) == with_lines(
                    self@,
                    texts_of(lines@),
                    file@,
                    k as int,
                ),
            decreases lines@.len() - k,
        {
            self.push_line(lines[k], file, k + 1);
            k += 1;
        }
    }

    /// The file and line that line `line` came from.
    pub fn locate(&self, line: usize) -> (r: (String, usize))
        ensures
            (r.0@, r.1) == located(self@, line),
    {
        let at: usize = if line == 0 {
            0
        } else {
            line - 1
        };
        if at < self.lines.len() {
            (self.lines[at].0.clone(), self.lines[at].1)
        } else {
            ("<unknown>".to_owned(), line)
        }
    }
}

// ---------------------------------------------------------------------------
// What holds of lines and of the source

/// The number of line feeds before position `p` of a text.
pub open spec fn breaks(s: Seq<char>, p: int) -> nat
    decreases p,
{
    if p <= 0 {
        0
    } else {
        breaks(s, p - 1) + if s[p - 1] == '\n' {
            1nat
        } else {
            0nat
        }
    }
}

/// Whether every line of the text has its place recorded.
pub open spec fn complete(s: Src) -> bool {
    breaks(s.text, s.text.len() as int) == s.lines.len()
}

/// Whether a line holds no line feed.
pub open spec fn is_line(line: Seq<char>) -> bool {
    forall|i: int| 0 <= i < line.len() ==> line[i] != '\n'
}

/// The line feeds before a position are the same in texts that agree up to there.
proof fn lemma_breaks_prefix(a: Seq<char>, b: Seq<char>, p: int)
    requires
        0 <= p <= a.len(),
        p <= b.len(),
        forall|i: int| 0 <= i < p ==> a[i] == b[i],
    ensures
        breaks(a, p) == breaks(b, p),
    decreases p,
{
    if p > 0 {
        lemma_breaks_prefix(a, b, p - 1);
    }
}

/// No line feed is added between two positions where there is none.
proof fn lemma_breaks_between(s: Seq<char>, p: int, q: int)
    requires
        0 <= p <= q <= s.len(),
        forall|i: int| p <= i < q ==> s[i] != '\n',
    ensures
        breaks(s, q) == breaks(s, p),
    decreases q - p,
{
    if p < q {
        lemma_breaks_between(s, p, q - 1);
    }
}

/// The lines of a text hold no line feeds.
pub proof fn lemma_lines_are_lines(s: Seq<char>, k: int)
    requires
        0 <= k < lines_of(s).len(),
    ensures
        is_line(lines_of(s)[k]),
    decreases s.len(),
{
    let end = imports::position(s, '\n', 0);
    lemma_position(s, 0);
    if end < s.len() {
        if k > 0 {
            lemma_lines_are_lines(s.skip(end + 1), k - 1);
            assert(lines_of(s)[k] == lines_of(s.skip(end + 1))[k - 1]);
        } else {
            reveal_strlit("\r");
            let line = lines_of(s)[0];
            assert(line == without_return(s.take(end)));
            assert forall|i: int| 0 <= i < line.len() implies line[i] != '\n' by {
                assert(line[i] == s[i]);
            }
        }
    }
}

/// Every character of a line that is added, and the line feed behind it, is located
/// in the file and line that were given with it: its line number in the source is
/// one more than the line feeds before it.
pub proof fn lemma_line_is_located(s: Src, line: Seq<char>, file: Seq<char>, number: usize, p: int)
    requires
        complete(s),
        is_line(line),
        s.text.len() <= p <= s.text.len() + line.len(),
        s.lines.len() < usize::MAX,
    ensures
        ({
            let after = with_line(s, line, file, number);
            &&& p < after.text.len()
            &&& breaks(after.text, p) == s.lines.len()
            &&& located(after, (breaks(after.text, p) + 1) as usize) == (file, number)
        }),
{
    reveal_strlit("\n");
    let after = with_line(s, line, file, number);
    lemma_breaks_prefix(s.text, after.text, s.text.len() as int);
    assert forall|i: int| s.text.len() <= i < p implies after.text[i] != '\n' by {
        assert(after.text[i] == line[i - s.text.len()]);
    }
    lemma_breaks_between(after.text, s.text.len() as int, p);
}

/// A line that is added leaves the places of all earlier lines as they were.
pub proof fn lemma_earlier_lines_stay(s: Src, line: Seq<char>, file: Seq<char>, number: usize, p: int)
    requires
        complete(s),
        0 <= p < s.text.len(),
        s.lines.len() < usize::MAX,
    ensures
        ({
            let after = with_line(s, line, file, number);
            &&& after.text[p] == s.text[p]
            &&& breaks(after.text, p) == breaks(s.text, p)
            &&& breaks(s.text, p) <= s.lines.len()
            &&& breaks(s.text, p) < s.lines.len() ==> located(
                after,
                (breaks(s.text, p) + 1) as usize,
            ) == located(s, (breaks(s.text, p) + 1) as usize)
        }),
{
    let after = with_line(s, line, file, number);
    lemma_breaks_prefix(s.text, after.text, p);
    lemma_breaks_grow(s.text, p, s.text.len() as int);
}

/// There are no fewer line feeds before a later position.
proof fn lemma_breaks_grow(s: Seq<char>, p: int, q: int)
    requires
        0 <= p <= q,
    ensures
        breaks(s, p) <= breaks(s, q),
    decreases q - p,
{
    if p < q {
        lemma_breaks_grow(s, p, q - 1);
    }
}

/// A source whose lines all have their places recorded keeps them so when a line is
/// added.
pub proof fn lemma_line_keeps_complete(s: Src, line: Seq<char>, file: Seq<char>, number: usize)
    requires
        complete(s),
        is_line(line),
    ensures
        complete(with_line(s, line, file, number)),
{
    reveal_strlit("\n");
    let after = with_line(s, line, file, number);
    let q: int = (s.text.len() + line.len()) as int;
    lemma_breaks_prefix(s.text, after.text, s.text.len() as int);
    assert forall|i: int| s.text.len() <= i < q implies after.text[i] != '\n' by {
        assert(after.text[i] == line[i - s.text.len()]);
    }
    lemma_breaks_between(after.text, s.text.len() as int, q);
    assert(after.text[q] == '\n');
    assert(after.text.len() == q + 1);
}

/// Adding a file records one place for each of its lines, in order: line `k` of the
/// file is found at line `k` behind what was there.
pub proof fn lemma_file_is_located(s: Src, contents: Seq<char>, file: Seq<char>, k: int)
    requires
        complete(s),
        0 <= k < lines_of(contents).len(),
        s.lines.len() + lines_of(contents).len() <= usize::MAX,
    ensures
        ({
            let after = with_lines(s, lines_of(contents), file, 0);
            &&& complete(after)
            &&& after.lines.len() == s.lines.len() + lines_of(contents).len()
            &&& located(after, (s.lines.len() + k + 1) as usize) == (file, (k + 1) as usize)
        }),
{
    lemma_lines_located(s, lines_of(contents), contents, file, 0, k);
}

/// The lines from position `from` on are located behind what was there.
proof fn lemma_lines_located(
    s: Src,
    lines: Seq<Seq<char>>,
    contents: Seq<char>,
    file: Seq<char>,
    from: int,
    k: int,
)
    requires
        complete(s),
        lines == lines_of(contents),
        0 <= from <= k < lines.len(),
        s.lines.len() + (lines.len() - from) <= usize::MAX,
    ensures
        ({
            let after = with_lines(s, lines, file, from);
            &&& complete(after)
            &&& after.lines.len() == s.lines.len() + (lines.len() - from)
            &&& forall|i: int| 0 <= i < s.lines.len() ==> after.lines[i] == s.lines[i]
            &&& located(after, (s.lines.len() + (k - from) + 1) as usize) == (
                file,
                (k + 1) as usize,
            )
        }),
    decreases lines.len() - from,
{
    let next = with_line(s, lines[from], file, (from + 1) as usize);
    lemma_lines_are_lines(contents, from);
    lemma_line_keeps_complete(s, lines[from], file, (from + 1) as usize);
    assert(next.lines[s.lines.len() as int] == (file, (from + 1) as usize));
    let after = with_lines(s, lines, file, from);
    assert(after == with_lines(next, lines, file, from + 1));
    if from + 1 < lines.len() {
        lemma_lines_located(
            next,
            lines,
            contents,
            file,
            from + 1,
            if k == from {
                from + 1
            } else {
                k
            },
        );
        assert forall|i: int| 0 <= i < s.lines.len() implies after.lines[i] == s.lines[i] by {
            assert(after.lines[i] == next.lines[i]);
        }
        if k == from {
            assert(after.lines[s.lines.len() as int] == next.lines[s.lines.len() as int]);
        }
    } else {
        assert(after == next);
    }
}

} // verus!
