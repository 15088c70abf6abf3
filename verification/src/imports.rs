//! Import lines, and the text helpers that reading them takes.

use vstd::prelude::*;
use vstd::string::*;
use crate::text::same;

verus! {

/// White space, as Unicode has it.
pub open spec fn is_whitespace(c: char) -> bool {
    let n = c as int;
    9 <= n <= 13 || n == 32 || n == 0x85 || n == 0xa0 || n == 0x1680 || 0x2000 <= n <= 0x200a || n
        == 0x2028 || n == 0x2029 || n == 0x202f || n == 0x205f || n == 0x3000
}

/// Whether a character is white space.
fn whitespace(c: char) -> (r: bool)
    ensures
        r == is_whitespace(c),
{
    let n: u32 = c as u32;
    (9 <= n && n <= 13) || n == 32 || n == 0x85 || n == 0xa0 || n == 0x1680 || (0x2000 <= n && n
        <= 0x200a) || n == 0x2028 || n == 0x2029 || n == 0x202f || n == 0x205f || n == 0x3000
}

/// Where the white space that starts at `i` ends.
pub open spec fn lead(s: Seq<char>, i: int) -> int
    decreases s.len() - i,
{
    if 0 <= i < s.len() && is_whitespace(s[i]) {
        lead(s, i + 1)
    } else {
        i
    }
}

/// Where the white space that ends at `j` starts.
pub open spec fn trail(s: Seq<char>, j: int) -> int
    decreases j,
{
    if 0 < j <= s.len() && is_whitespace(s[j - 1]) {
        trail(s, j - 1)
    } else {
        j
    }
}

/// The text without the white space around it.
pub open spec fn trimmed(s: Seq<char>) -> Seq<char> {
    let from = lead(s, 0);
    let to = trail(s, s.len() as int);
    if from < to {
        s.subrange(from, to)
    } else {
        Seq::empty()
    }
}

/// The text without the white space around it.
pub fn trim<'b>(s: &'b str) -> (r: &'b str)
    ensures
        r@ == trimmed(s@),
{
    let len: usize = s.unicode_len();
    let mut from: usize = 0;
    while from < len && whitespace(s.get_char(from))
        invariant
            len == s@.len(),
            from <= len,
            lead(s@, 0) == lead(s@, from as int),
        decreases len - from,
    {
        from += 1;
    }
    let mut to: usize = len;
    while to > 0 && whitespace(s.get_char(to - 1))
        invariant
            len == s@.len(),
            to <= len,
            trail(s@, s@.len() as int) == trail(s@, to as int),
        decreases to,
    {
        to -= 1;
    }
    if from < to {
        s.substring_char(from, to)
    } else {
        let none = s.substring_char(0, 0);
        assert(none@ =~= Seq::<char>::empty());
        none
    }
}

/// Whether a text starts with `prefix`.
pub open spec fn starts_with(s: Seq<char>, prefix: Seq<char>) -> bool {
    prefix.len() <= s.len() && s.take(prefix.len() as int) == prefix
}

/// Whether a text ends with `suffix`.
pub open spec fn ends_with(s: Seq<char>, suffix: Seq<char>) -> bool {
    suffix.len() <= s.len() && s.skip(s.len() - suffix.len()) == suffix
}

/// The text without `prefix`, if it starts with it.
pub fn strip_prefix<'b>(s: &'b str, prefix: &str) -> (r: Option<&'b str>)
    ensures
        match r {
            Some(rest) => starts_with(s@, prefix@) && rest@ == s@.skip(prefix@.len() as int),
            None => !starts_with(s@, prefix@),
        },
{
    let len: usize = s.unicode_len();
    let n: usize = prefix.unicode_len();
    if n > len {
        return None;
    }
    let head = s.substring_char(0, n);
    assert(head@ =~= s@.take(n as int));
    if same(head, prefix) {
        let rest = s.substring_char(n, len);
        assert(rest@ =~= s@.skip(n as int));
        Some(rest)
    } else {
        None
    }
}

/// The text without `suffix`, if it ends with it.
pub fn strip_suffix<'b>(s: &'b str, suffix: &str) -> (r: Option<&'b str>)
    ensures
        match r {
            Some(rest) => ends_with(s@, suffix@) && rest@ == s@.take(s@.len() - suffix@.len()),
            None => !ends_with(s@, suffix@),
        },
{
    let len: usize = s.unicode_len();
    let n: usize = suffix.unicode_len();
    if n > len {
        return None;
    }
    let tail = s.substring_char(len - n, len);
    assert(tail@ =~= s@.skip(len - n));
    if same(tail, suffix) {
        let rest = s.substring_char(0, len - n);
        assert(rest@ =~= s@.take(len - n));
        Some(rest)
    } else {
        None
    }
}

/// The first position from `i` on at which `c` stands, or the end.
pub open spec fn position(s: Seq<char>, c: char, i: int) -> int
    decreases s.len() - i,
{
    if 0 <= i < s.len() && s[i] != c {
        position(s, c, i + 1)
    } else {
        i
    }
}

/// Where the characters `c` that end at `j` start.
pub open spec fn repeated(s: Seq<char>, c: char, j: int) -> int
    decreases j,
{
    if 0 < j <= s.len() && s[j - 1] == c {
        repeated(s, c, j - 1)
    } else {
        j
    }
}

/// A character of a name.
pub open spec fn is_name_char(c: char) -> bool {
    let n = c as int;
    48 <= n <= 57 || 65 <= n <= 90 || 97 <= n <= 122 || n == 95
}

/// Whether a text is a name: not empty, and made of letters, digits and
/// underscores.
pub open spec fn is_name(s: Seq<char>) -> bool {
    s.len() > 0 && forall|i: int| 0 <= i < s.len() ==> is_name_char(#[trigger] s[i])
}

/// Whether a text is a name.
fn name(s: &str) -> (r: bool)
    ensures
        r == is_name(s@),
{
    let len: usize = s.unicode_len();
    let mut i: usize = 0;
    while i < len
        invariant
            len == s@.len(),
            i <= len,
            forall|j: int| 0 <= j < i ==> is_name_char(#[trigger] s@[j]),
        decreases len - i,
    {
        let c: char = s.get_char(i);
        let n: u32 = c as u32;
        if !((48 <= n && n <= 57) || (65 <= n && n <= 90) || (97 <= n && n <= 122) || n == 95) {
            assert(!is_name_char(s@[i as int]));
            return false;
        }
        i += 1;
    }
    len > 0
}

/// What follows the path of an import: nothing but white space and semicolons, or
/// `as`, white space and a name, which is returned.
#[verifier::opaque]
pub open spec fn alias_of(after: Seq<char>) -> Option<Option<Seq<char>>> {
    let after = trimmed(after);
    let after = trimmed(after.take(repeated(after, ';', after.len() as int)));
    if after.len() == 0 {
        Some(None)
    } else if starts_with(after, "as"@) && after.len() > 2 && is_whitespace(after[2]) {
        let name = trimmed(after.skip(2));
        if is_name(name) {
            Some(Some(name))
        } else {
            None
        }
    } else {
        None
    }
}

/// The path and the name of an import line.
#[verifier::opaque]
pub open spec fn imported(line: Seq<char>) -> Option<(Seq<char>, Option<Seq<char>>)> {
    let line = trimmed(line);
    if starts_with(line, "import \""@) {
        let rest = line.skip(8);
        let end = position(rest, '"', 0);
        if end < rest.len() {
            match alias_of(rest.skip(end + 1)) {
                Some(name) => Some((rest.take(end), name)),
                None => None,
            }
        } else {
            None
        }
    } else {
        None
    }
}

/// The position of the first quote in a text, or its end.
fn quote(s: &str, len: usize) -> (r: usize)
    requires
        len == s@.len(),
    ensures
        r == position(s@, '"', 0),
        r <= len,
{
    let mut i: usize = 0;
    while i < len && s.get_char(i) != '"'
        invariant
            len == s@.len(),
            i <= len,
            position(s@, '"', 0) == position(s@, '"', i as int),
        decreases len - i,
    {
        i += 1;
    }
    i
}

/// What follows the path of an import.
fn alias(after: &str) -> (r: Option<Option<String>>)
    ensures
        match alias_of(after@) {
            None => r is None,
            Some(None) => r == Some(None::<String>),
            Some(Some(n)) => r matches Some(Some(name)) && name@ == n,
        },
{
    reveal(alias_of);
    let after = trim(after);
    let len: usize = after.unicode_len();
    let mut to: usize = len;
    while to > 0 && after.get_char(to - 1) == ';'
        invariant
            len == after@.len(),
            to <= len,
            repeated(after@, ';', after@.len() as int) == repeated(after@, ';', to as int),
        decreases to,
    {
        to -= 1;
    }
    let body = after.substring_char(0, to);
    assert(body@ =~= after@.take(to as int));
    let body = trim(body);
    if body.unicode_len() == 0 {
        return Some(None);
    }
    assert("as"@.len() == 2) by {
        reveal_strlit("as");
    }
    let rest = strip_prefix(body, "as")?;
    if rest.unicode_len() == 0 || !whitespace(rest.get_char(0)) {
        return None;
    }
    let n = trim(rest);
    if name(n) {
        Some(Some(n.to_owned()))
    } else {
        None
    }
}

/// `import "path"` or `import "path" as name` on a line: the path and name.
pub fn import_line(line: &str) -> (r: Option<(String, Option<String>)>)
    ensures
        match imported(line@) {
            None => r is None,
            Some((path, None)) => r matches Some((p, None)) && p@ == path,
            Some((path, Some(name))) => r matches Some((p, Some(n))) && p@ == path && n@ == name,
        },
{
    reveal(imported);
    let line = trim(line);
    assert("import \""@.len() == 8) by {
        reveal_strlit("import \"");
    }
    let rest = strip_prefix(line, "import \"")?;
    let len: usize = rest.unicode_len();
    let end = quote(rest, len);
    if end == len {
        return None;
    }
    let after = rest.substring_char(end + 1, len);
    assert(after@ =~= rest@.skip(end + 1));
    let name = alias(after)?;
    let path = rest.substring_char(0, end);
    assert(path@ =~= rest@.take(end as int));
    Some((path.to_owned(), name))
}

/// A quote is found at the first position where it stands.
proof fn lemma_position(s: Seq<char>, c: char, i: int, at: int)
    requires
        0 <= i <= at < s.len(),
        s[at] == c,
        forall|j: int| i <= j < at ==> s[j] != c,
    ensures
        position(s, c, i) == at,
    decreases at - i,
{
    if i < at {
        assert(s[i] != c);
        lemma_position(s, c, i + 1, at);
    }
}

/// A text that neither starts nor ends with white space is not changed by trimming.
proof fn lemma_trimmed(s: Seq<char>)
    requires
        s.len() > 0,
        !is_whitespace(s[0]),
        !is_whitespace(s.last()),
    ensures
        trimmed(s) == s,
{
    assert(s.subrange(0, s.len() as int) =~= s);
}

/// An import of a path without quotes is read back: `import "path"` gives the path,
/// and `import "path" as name` gives the path and the name.
pub proof fn lemma_import_reads_back(path: Seq<char>, name: Option<Seq<char>>)
    requires
        forall|i: int| 0 <= i < path.len() ==> #[trigger] path[i] != '"',
        name matches Some(n) ==> is_name(n),
    ensures
        imported(
            "import \""@ + path + "\""@ + match name {
                Some(n) => " as "@ + n,
                None => Seq::empty(),
            },
        ) == Some((path, name)),
{
    reveal(imported);
    reveal(alias_of);
    reveal_strlit("import \"");
    reveal_strlit("\"");
    reveal_strlit(" as ");
    reveal_strlit("as");
    let tail = match name {
        Some(n) => " as "@ + n,
        None => Seq::empty(),
    };
    let line = "import \""@ + path + "\""@ + tail;
    assert(line[0] == 'i');
    if let Some(n) = name {
        assert(line.last() == n[n.len() - 1]);
        assert(is_name_char(n[n.len() - 1]));
    } else {
        assert(line.last() == '"');
    }
    lemma_trimmed(line);
    assert(line.take(8) =~= "import \""@);
    let rest = line.skip(8);
    assert(rest =~= path + "\""@ + tail);
    let end = path.len() as int;
    assert forall|j: int| 0 <= j < end implies rest[j] != '"' by {
        assert(rest[j] == path[j]);
    }
    assert(rest[end] == '"');
    lemma_position(rest, '"', 0, end);
    assert(rest.take(end) =~= path);
    let after = rest.skip(end + 1);
    assert(after =~= tail);
    if let Some(n) = name {
        let trimmed_tail = "as "@ + n;
        reveal_strlit("as ");
        assert(is_name_char(n[n.len() - 1]));
        assert(is_name_char(n[0]));
        assert(after[0] == ' ' && after[1] == 'a');
        assert(lead(after, 1) == 1);
        assert(lead(after, 0) == 1);
        assert(after.last() == n[n.len() - 1]);
        assert(trail(after, after.len() as int) == after.len());
        assert(trimmed(after) =~= trimmed_tail);
        assert(trimmed_tail.last() == n[n.len() - 1]);
        assert(repeated(trimmed_tail, ';', trimmed_tail.len() as int) == trimmed_tail.len());
        assert(trimmed_tail.take(trimmed_tail.len() as int) =~= trimmed_tail);
        assert(trimmed_tail[0] == 'a');
        lemma_trimmed(trimmed_tail);
        assert(trimmed_tail.take(2) =~= "as"@);
        assert(trimmed_tail[2] == ' ');
        let spaced = trimmed_tail.skip(2);
        assert(spaced =~= seq![' '] + n);
        assert(lead(spaced, 1) == 1);
        assert(lead(spaced, 0) == 1);
        assert(spaced.last() == n[n.len() - 1]);
        assert(trail(spaced, spaced.len() as int) == spaced.len());
        assert(trimmed(spaced) =~= n);
    } else {
        assert(after.len() == 0);
        assert(trimmed(after) =~= Seq::empty());
        assert(trimmed(after).take(0) =~= Seq::empty());
    }
}

} // verus!
