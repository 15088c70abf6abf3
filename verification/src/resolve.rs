//! Reading a program's files and everything that they import into one source. The
//! reading itself is left to the caller: the resolver says which file it needs next
//! and is handed what the file holds.
//!
//! The lines of a file that is imported without a name come before the line that
//! imports it. A file that is imported with a name is a module: its items are renamed,
//! and so are the references to them in the file that imports it. Both files come into
//! the source as a whole, behind all that they import.

use vstd::prelude::*;
use vstd::string::*;
use vstd::utf8::*;
use crate::assoc;
use crate::assoc::NameMap;
use crate::ast;
use crate::imports;
use crate::imports::{import_line, strip_prefix, strip_suffix, trim};
use crate::modules;
use crate::modules::{try_collect_items, try_rewrite, Aliases, Info, ModuleInfo, Outcome};
use crate::names::NameSet;
use crate::source;
use crate::source::{lines, Source, Src};
use crate::text::join;

verus! {

/// The path that a line imports: `import "path"`, with white space around it.
#[verifier::opaque]
pub open spec fn import_of(line: Seq<char>) -> Option<Seq<char>> {
    let line = imports::trimmed(line);
    if imports::starts_with(line, "import \""@) {
        let rest = line.skip(8);
        if imports::ends_with(rest, "\""@) {
            Some(rest.drop_last())
        } else {
            None
        }
    } else {
        None
    }
}

/// The path that a line imports.
fn imported_path<'b>(line: &'b str) -> (r: Option<&'b str>)
    ensures
        match r {
            Some(path) => import_of(line@) == Some(path@),
            None => import_of(line@) is None,
        },
{
    reveal(import_of);
    assert("import \""@.len() == 8) by {
        reveal_strlit("import \"");
    }
    assert("\""@.len() == 1) by {
        reveal_strlit("\"");
    }
    let line = trim(line);
    let rest = strip_prefix(line, "import \"")?;
    let path = strip_suffix(rest, "\"")?;
    assert(path@ =~= rest@.drop_last());
    Some(path)
}

/// The path that a line imports, and the name that it gives it, if it gives it one.
pub open spec fn target_of(line: Seq<char>) -> Option<(Seq<char>, Option<Seq<char>>)> {
    match import_of(line) {
        Some(path) => Some((path, None)),
        None => match imports::imported(line) {
            Some((path, Some(name))) => Some((path, Some(name))),
            _ => None,
        },
    }
}

/// The model of a text that may be missing.
pub open spec fn text_of(s: Option<String>) -> Option<Seq<char>> {
    match s {
        Some(s) => Some(s@),
        None => None,
    }
}

/// The path that a line imports, and the name that it gives it.
fn import_target(line: &str) -> (r: Option<(String, Option<String>)>)
    ensures
        match r {
            Some((path, name)) => target_of(line@) == Some((path@, text_of(name))),
            None => target_of(line@) is None,
        },
{
    match imported_path(line) {
        Some(path) => Some((path.to_owned(), None)),
        None => match import_line(line) {
            Some((path, Some(name))) => Some((path, Some(name))),
            _ => None,
        },
    }
}

/// A file that was read: the name that it was imported with, if it was, its path, and
/// what it holds.
pub struct Module {
    pub name: Option<Seq<char>>,
    pub file: Seq<char>,
    pub text: Seq<char>,
}

/// The prefix that the items of a file are renamed with.
pub open spec fn prefix_of(name: Option<Seq<char>>) -> Seq<char> {
    match name {
        Some(n) => n + "__"@,
        None => Seq::empty(),
    }
}

/// What a file declares, unless its text cannot be cut into words.
pub open spec fn info(m: Module) -> Option<Info> {
    let b = encode_utf8(m.text);
    match modules::items_of(b) {
        Some(d) if modules::fits(b) => Some(
            Info { prefix: prefix_of(m.name), items: d.items, public: d.public, file: m.file },
        ),
        _ => None,
    }
}

/// A file whose lines are being read: the line that is next, and whether it is an
/// import whose file is being read first.
pub struct Opened {
    pub path: Seq<char>,
    pub text: Seq<char>,
    pub lines: Seq<Seq<char>>,
    pub at: nat,
    pub waiting: bool,
    /// The name that the file was imported with
    pub name: Option<Seq<char>>,
    /// Whether the file comes into the source as a whole
    pub whole: bool,
    /// The names that the file has given to files that it imports
    pub aliases: Seq<(Seq<char>, Seq<char>)>,
}

/// The state of a resolver: the files to read, the position of the next of them, the
/// files being read, the innermost last, the files seen, what those that were read
/// hold, the file that was found last, and the source so far.
pub struct Res {
    pub files: Seq<Seq<char>>,
    pub next: int,
    pub open: Seq<Opened>,
    pub seen: Set<Seq<char>>,
    pub modules: Seq<(Seq<char>, Module)>,
    pub current: Seq<char>,
    pub source: Src,
}

/// What is to be done next.
pub enum Act {
    /// Find the file that is named, from the file that imports it if there is one.
    Find(Option<Seq<char>>, Seq<char>),
    /// A file refers to an item of a module that it cannot refer to: the path of the
    /// file, the position in it, and a message.
    Fail(Seq<char>, int, Seq<char>),
    /// The text of a file, or of one that it imports with a name, cannot be cut into
    /// words.
    Uncut(Seq<char>),
    /// Nothing is left.
    Done,
}

/// Whether one of the lines imports a file with a name.
pub open spec fn names_modules(lines: Seq<Seq<char>>) -> bool {
    exists|k: int|
        0 <= k < lines.len() && (target_of(#[trigger] lines[k]) matches Some((_, Some(_))))
}

/// A file that is opened.
pub open spec fn opened(path: Seq<char>, text: Seq<char>, name: Option<Seq<char>>) -> Opened {
    Opened {
        path,
        text,
        lines: source::lines_of(text),
        at: 0,
        waiting: false,
        name,
        whole: name is Some || names_modules(source::lines_of(text)),
        aliases: Seq::empty(),
    }
}

/// What the files declare that the first `k` names stand for.
pub open spec fn infos(
    files: Seq<(Seq<char>, Module)>,
    aliases: Seq<(Seq<char>, Seq<char>)>,
    k: int,
) -> Option<Map<Seq<char>, Info>>
    decreases k,
{
    if k <= 0 {
        Some(Map::empty())
    } else {
        match infos(files, aliases, k - 1) {
            None => None,
            Some(m) => match assoc::get(files, aliases[k - 1].1) {
                None => Some(m),
                Some(module) => match info(module) {
                    None => None,
                    Some(i) => Some(m.insert(aliases[k - 1].0, i)),
                },
            },
        }
    }
}

/// The text of a file that comes into the source as a whole: the items that it
/// declares are renamed if it was imported with a name, and the items of the modules
/// that it imports are referred to by their new names.
pub open spec fn renamed(f: Opened, files: Seq<(Seq<char>, Module)>) -> Option<Outcome> {
    let b = encode_utf8(f.text);
    match infos(files, f.aliases, f.aliases.len() as int) {
        Some(aliases) if modules::fits(b) => match f.name {
            None => modules::rewritten(b, None, aliases),
            Some(_) => match info(Module { name: f.name, file: f.path, text: f.text }) {
                None => None,
                Some(own) => modules::rewritten(b, Some(own), aliases),
            },
        },
        _ => None,
    }
}

/// Lines, with an empty one in the place of every import.
pub open spec fn without_imports(lines: Seq<Seq<char>>) -> Seq<Seq<char>> {
    Seq::new(
        lines.len(),
        |k: int|
            if target_of(lines[k]) is Some {
                Seq::empty()
            } else {
                lines[k]
            },
    )
}

/// The lines left to read, with one for each file that is to be closed.
pub open spec fn left(open: Seq<Opened>) -> nat
    decreases open.len(),
{
    if open.len() == 0 {
        0
    } else {
        left(open.drop_last()) + 1 + if open.last().at < open.last().lines.len() {
            (open.last().lines.len() - open.last().at) as nat
        } else {
            0nat
        }
    }
}

/// A file of which one more line is read.
pub open spec fn passed(f: Opened) -> Opened {
    Opened { at: f.at + 1, waiting: false, ..f }
}

/// The source with the next line of a file as `line`, unless the file comes into it as
/// a whole.
pub open spec fn with_next(s: Src, f: Opened, line: Seq<char>) -> Src {
    if f.whole {
        s
    } else {
        source::with_line(s, line, f.path, (f.at + 1) as usize)
    }
}

/// The source with the new text of a file as a whole.
pub open spec fn with_whole(s: Src, f: Opened, text: Seq<char>) -> Src {
    source::with_lines(s, without_imports(source::lines_of(text)), f.path, 0)
}

/// The next line of the innermost file is read as `line`.
pub open spec fn taken(r: Res, line: Seq<char>) -> Res {
    let f = r.open.last();
    Res {
        open: r.open.drop_last().push(passed(f)),
        source: with_next(r.source, f, line),
        ..r
    }
}

/// The innermost file waits for the file that its next line imports.
pub open spec fn halted(r: Res) -> Res {
    Res {
        open: r.open.drop_last().push(Opened { waiting: true, ..r.open.last() }),
        ..r
    }
}

/// The innermost file is read.
pub open spec fn done(r: Res) -> Res {
    Res { open: r.open.drop_last(), ..r }
}

/// The innermost file comes into the source as a whole, with the text `text`.
pub open spec fn ended(r: Res, text: Seq<char>) -> Res {
    Res {
        open: r.open.drop_last(),
        source: with_whole(r.source, r.open.last(), text),
        ..r
    }
}

/// Read on until a file is needed. An import is replaced by an empty line behind the
/// lines of what it imports, so that the lines behind it keep their numbers.
pub open spec fn advanced(r: Res) -> (Res, Act)
    decreases left(r.open),
{
    proof {
        lemma_left(r);
    }
    if r.open.len() == 0 {
        if 0 <= r.next < r.files.len() {
            (Res { next: r.next + 1, ..r }, Act::Find(None, r.files[r.next]))
        } else {
            (r, Act::Done)
        }
    } else if r.open.last().at >= r.open.last().lines.len() {
        if r.open.last().whole {
            match renamed(r.open.last(), r.modules) {
                None => (r, Act::Uncut(r.open.last().path)),
                Some(Outcome::Fail(at, message)) => (
                    r,
                    Act::Fail(r.open.last().path, at, message),
                ),
                Some(Outcome::Done(text)) => advanced(ended(r, text)),
            }
        } else {
            advanced(done(r))
        }
    } else if r.open.last().waiting {
        advanced(taken(r, Seq::empty()))
    } else {
        match target_of(r.open.last().lines[r.open.last().at as int]) {
            Some((path, _)) => (halted(r), Act::Find(Some(r.open.last().path), path)),
            None => advanced(taken(r, r.open.last().lines[r.open.last().at as int])),
        }
    }
}

/// Closing a file and taking a line leave fewer lines.
pub proof fn lemma_left(r: Res)
    ensures
        r.open.len() > 0 ==> left(done(r).open) < left(r.open),
        forall|line: Seq<char>|
            r.open.len() > 0 && r.open.last().at < r.open.last().lines.len() ==> left(
                (#[trigger] taken(r, line)).open,
            ) < left(r.open),
{
    assert forall|line: Seq<char>|
        r.open.len() > 0 && r.open.last().at < r.open.last().lines.len() implies left(
        (#[trigger] taken(r, line)).open,
    ) < left(r.open) by {
        let after = taken(r, line).open;
        assert(after.drop_last() =~= r.open.drop_last());
    }
}

// ---------------------------------------------------------------------------
// The resolver

/// A file that was read.
struct ReadFile {
    name: Option<String>,
    file: String,
    text: String,
}

/// A file whose lines are being read.
struct OpenFile {
    path: String,
    text: String,
    lines: Vec<String>,
    at: usize,
    waiting: bool,
    name: Option<String>,
    whole: bool,
    aliases: Vec<(String, String)>,
}

/// What the resolver needs next.
pub enum Action {
    /// Find a file: the path of the file that imports it, if there is one, and the
    /// path as it is written there.
    Find(Option<String>, String),
    /// A file refers to an item of a module that it cannot refer to: the path of the
    /// file, the byte offset in it, and a message.
    Fail(String, usize, String),
    /// The text of the file with this path, or of one that it imports with a name,
    /// cannot be cut into words.
    Uncut(String),
    /// The source is complete.
    Done,
}

/// Reads files and all that they import into one source.
pub struct Resolver {
    files: Vec<String>,
    next: usize,
    open: Vec<OpenFile>,
    seen: NameSet,
    modules: NameMap<ReadFile>,
    current: String,
    source: Source,
}

/// The model of a file that was read.
closed spec fn module_of(m: ReadFile) -> Module {
    Module { name: text_of(m.name), file: m.file@, text: m.text@ }
}

/// The model of pairs of names.
pub open spec fn pairs_of(s: Seq<(String, String)>) -> Seq<(Seq<char>, Seq<char>)> {
    Seq::new(s.len(), |i: int| (s[i].0@, s[i].1@))
}

/// The model of a file that is being read.
closed spec fn opened_of(f: OpenFile) -> Opened {
    Opened {
        path: f.path@,
        text: f.text@,
        lines: ast::names_of(f.lines@),
        at: f.at as nat,
        waiting: f.waiting,
        name: text_of(f.name),
        whole: f.whole,
        aliases: pairs_of(f.aliases@),
    }
}

/// The model of the files that were read.
closed spec fn modules_of(m: NameMap<ReadFile>) -> Seq<(Seq<char>, Module)> {
    assoc::mapped(m@, |m: ReadFile| module_of(m))
}

/// The model of what is needed next.
pub open spec fn act_of(a: Action) -> Act {
    match a {
        Action::Find(from, path) => Act::Find(text_of(from), path@),
        Action::Fail(file, at, message) => Act::Fail(file@, at as int, message@),
        Action::Uncut(file) => Act::Uncut(file@),
        Action::Done => Act::Done,
    }
}

impl View for Resolver {
    type V = Res;

    closed spec fn view(&self) -> Res {
        Res {
            files: ast::names_of(self.files@),
            next: self.next as int,
            open: Seq::new(self.open@.len(), |i: int| opened_of(self.open@[i])),
            seen: self.seen@,
            modules: modules_of(self.modules),
            current: self.current@,
            source: self.source@,
        }
    }
}

/// A resolver that reads `files` behind what `source` holds.
pub open spec fn started(source: Src, files: Seq<Seq<char>>) -> Res {
    Res {
        files,
        next: 0,
        open: Seq::empty(),
        seen: Set::empty(),
        modules: Seq::empty(),
        current: Seq::empty(),
        source,
    }
}

/// The name that the innermost file gives to the file that it waits for.
pub open spec fn asked(r: Res) -> Option<Seq<char>> {
    if r.open.len() > 0 && r.open.last().waiting && r.open.last().at < r.open.last().lines.len() {
        match target_of(r.open.last().lines[r.open.last().at as int]) {
            Some((_, name)) => name,
            None => None,
        }
    } else {
        None
    }
}

/// A file that has given the name `name`, if there is one, to the file `id`.
pub open spec fn aliased(f: Opened, name: Option<Seq<char>>, id: Seq<char>) -> Opened {
    match name {
        Some(n) => Opened { aliases: f.aliases.push((n, id)), ..f },
        None => f,
    }
}

/// A file is found.
pub open spec fn noted(r: Res, id: Seq<char>) -> Res {
    Res {
        seen: r.seen.insert(id),
        current: id,
        open: if asked(r) is Some {
            r.open.drop_last().push(aliased(r.open.last(), asked(r), id))
        } else {
            r.open
        },
        ..r
    }
}

/// The lines of the file that was found are to be read.
pub open spec fn entered(r: Res, path: Seq<char>, contents: Seq<char>) -> Res {
    Res {
        modules: assoc::put(
            r.modules,
            r.current,
            Module { name: asked(r), file: path, text: contents },
        ),
        open: r.open.push(opened(path, contents, asked(r))),
        ..r
    }
}

/// A copy of a text that may be missing.
fn clone_text(s: &Option<String>) -> (r: Option<String>)
    ensures
        text_of(r) == text_of(*s),
{
    match s {
        Some(s) => Some(s.clone()),
        None => None,
    }
}

/// What a file declares.
fn declared_by(name: &Option<String>, file: &str, text: &str) -> (r: Option<ModuleInfo>)
    ensures
        match r {
            Some(m) => info(Module { name: text_of(*name), file: file@, text: text@ }) == Some(
                modules::info_of(m),
            ),
            None => info(Module { name: text_of(*name), file: file@, text: text@ }) is None,
        },
{
    let (items, public) = try_collect_items(text)?;
    let prefix = match name {
        Some(n) => join(n.as_str(), "__"),
        None => String::new(),
    };
    Some(ModuleInfo { prefix, items, public, file: file.to_owned() })
}

/// What the files declare that names stand for.
fn named_infos(files: &NameMap<ReadFile>, aliases: &Vec<(String, String)>) -> (r: Option<Aliases>)
    ensures
        match r {
            Some(m) => infos(modules_of(*files), pairs_of(aliases@), aliases@.len() as int)
                == Some(modules::infos_of(m@)),
            None => infos(modules_of(*files), pairs_of(aliases@), aliases@.len() as int) is None,
        },
{
    let ghost known = modules_of(*files);
    let ghost pairs = pairs_of(aliases@);
    let mut m = Aliases::new();
    assert(modules::infos_of(m@) =~= Map::empty());
    let mut k: usize = 0;
    while k < aliases.len()
        invariant
            k <= aliases@.len(),
            known == modules_of(*files),
            pairs == pairs_of(aliases@),
            infos(known, pairs, k as int) == Some(modules::infos_of(m@)),
        decreases aliases@.len() - k,
    {
        proof {
            assert(pairs[k as int] == (aliases@[k as int].0@, aliases@[k as int].1@));
            assoc::lemma_mapped_get(
                files@,
                |m: ReadFile| module_of(m),
                aliases@[k as int].1@,
            );
        }
        let ghost before = m@;
        if let Some(f) = files.get(aliases[k].1.as_str()) {
            match declared_by(&f.name, f.file.as_str(), f.text.as_str()) {
                Some(i) => {
                    m.insert(aliases[k].0.clone(), i);
                    assert(modules::infos_of(m@) =~= modules::infos_of(before).insert(
                        aliases@[k as int].0@,
                        modules::info_of(i),
                    ));
                },
                None => {
                    proof {
                        lemma_infos_missing(known, pairs, k as int + 1, pairs.len() as int);
                    }
                    return None;
                },
            }
        }
        k += 1;
    }
    Some(m)
}

/// Where the names up to `k` have no meaning, more have none.
proof fn lemma_infos_missing(
    files: Seq<(Seq<char>, Module)>,
    aliases: Seq<(Seq<char>, Seq<char>)>,
    k: int,
    n: int,
)
    requires
        infos(files, aliases, k) is None,
        k <= n,
    ensures
        infos(files, aliases, n) is None,
    decreases n - k,
{
    if k < n {
        lemma_infos_missing(files, aliases, k, n - 1);
    }
}

/// The new text of a file that comes into the source as a whole.
fn rename(f: &OpenFile, files: &NameMap<ReadFile>) -> (r: Option<Result<String, (usize, String)>>)
    ensures
        match renamed(opened_of(*f), modules_of(*files)) {
            None => r is None,
            Some(Outcome::Done(s)) => r matches Some(Ok(text)) && text@ == s,
            Some(Outcome::Fail(at, message)) => r matches Some(Err(e)) && e.0 == at && e.1@
                == message,
        },
{
    let aliases = named_infos(files, &f.aliases)?;
    match &f.name {
        None => try_rewrite(f.text.as_str(), None, &aliases),
        Some(_) => {
            let own = declared_by(&f.name, f.path.as_str(), f.text.as_str())?;
            try_rewrite(f.text.as_str(), Some(&own), &aliases)
        },
    }
}

impl Resolver {
    /// Whether the resolver can go on.
    pub closed spec fn well_formed(&self) -> bool {
        self.seen.well_formed()
    }

    /// A resolver that reads `files` behind what `source` holds.
    pub fn new(source: Source, files: Vec<String>) -> (r: Self)
        ensures
            r.well_formed(),
            r@ == started(source@, ast::names_of(files@)),
    {
        let r = Resolver {
            files,
            next: 0,
            open: Vec::new(),
            seen: NameSet::new(),
            modules: NameMap::new(),
            current: String::new(),
            source,
        };
        assert(r@.open =~= Seq::empty());
        assert(r@.modules =~= Seq::empty());
        assert(r@.current =~= Seq::empty());
        r
    }

    /// Take the next line of the innermost file, or an empty one in its place.
    fn take(&mut self, empty: bool)
        requires
            old(self).well_formed(),
            old(self)@.open.len() > 0,
            old(self)@.open.last().at < old(self)@.open.last().lines.len(),
        ensures
            final(self).well_formed(),
            final(self)@ == taken(
                old(self)@,
                if empty {
                    Seq::empty()
                } else {
                    old(self)@.open.last().lines[old(self)@.open.last().at as int]
                },
            ),
    {
        let ghost before = self@;
        let last: usize = self.open.len() - 1;
        assert(before.open.last() == opened_of(self.open@[last as int]));
        let mut f = self.open.pop().unwrap();
        assert(ast::names_of(f.lines@)[f.at as int] == f.lines@[f.at as int]@);
        assert(f.at < f.lines.len());
        let number: usize = f.at + 1;
        if !f.whole {
            if empty {
                proof {
                    reveal_strlit("");
                    assert(""@ =~= Seq::<char>::empty());
                }
                self.source.push_line("", f.path.as_str(), number);
            } else {
                self.source.push_line(f.lines[f.at].as_str(), f.path.as_str(), number);
            }
        }
        f.at = number;
        f.waiting = false;
        self.open.push(f);
        proof {
            assert(self@.open =~= before.open.drop_last().push(passed(before.open.last())));
        }
    }

    /// Close the innermost file, which comes into the source as a whole with the text
    /// `text`.
    fn end(&mut self, text: &str)
        requires
            old(self).well_formed(),
            old(self)@.open.len() > 0,
        ensures
            final(self).well_formed(),
            final(self)@ == ended(old(self)@, text@),
    {
        let ghost before = self@;
        let last: usize = self.open.len() - 1;
        assert(before.open.last() == opened_of(self.open@[last as int]));
        let f = self.open.pop().unwrap();
        assert(self@.open =~= before.open.drop_last());
        let new = lines(text);
        let ghost own = before.open.last();
        let ghost all = without_imports(source::lines_of(text@));
        let mut k: usize = 0;
        while k < new.len()
            invariant
                k <= new@.len(),
                self.well_formed(),
                own == opened_of(f),
                source::texts_of(new@) == source::lines_of(text@),
                all == without_imports(source::lines_of(text@)),
                all.len() == new@.len(),
                source::with_lines(before.source, all, own.path, 0) == source::with_lines(
                    self@.source,
                    all,
                    own.path,
                    k as int,
                ),
                self@ == (Res { open: before.open.drop_last(), source: self@.source, ..before }),
            decreases new@.len() - k,
        {
            let ghost at = self@;
            assert(source::texts_of(new@)[k as int] == new@[k as int]@);
            if import_target(new[k]).is_some() {
                proof {
                    reveal_strlit("");
                    assert(""@ =~= Seq::<char>::empty());
                }
                self.source.push_line("", f.path.as_str(), k + 1);
            } else {
                self.source.push_line(new[k], f.path.as_str(), k + 1);
            }
            assert(self@.open =~= at.open);
            k += 1;
        }
    }

    /// Read on until a file is needed.
    pub fn advance(&mut self) -> (r: Action)
        requires
            old(self).well_formed(),
        ensures
            final(self).well_formed(),
            (final(self)@, act_of(r)) == advanced(old(self)@),
    {
        while self.open.len() > 0
            invariant
                self.well_formed(),
                advanced(self@) == advanced(old(self)@),
            decreases left(self@.open),
        {
            let ghost before = self@;
            proof {
                lemma_left(before);
            }
            let last: usize = self.open.len() - 1;
            assert(before.open.last() == opened_of(self.open@[last as int]));
            if self.open[last].at >= self.open[last].lines.len() {
                if self.open[last].whole {
                    match rename(&self.open[last], &self.modules) {
                        None => {
                            return Action::Uncut(self.open[last].path.clone());
                        },
                        Some(Err((at, message))) => {
                            return Action::Fail(self.open[last].path.clone(), at, message);
                        },
                        Some(Ok(text)) => {
                            self.end(text.as_str());
                            assert(left(self@.open) == left(done(before).open));
                        },
                    }
                } else {
                    self.open.pop();
                    assert(self@.open =~= before.open.drop_last());
                    assert(self@ == done(before));
                }
            } else if self.open[last].waiting {
                self.take(true);
            } else {
                let ghost f = self.open@[last as int];
                assert(ast::names_of(f.lines@)[f.at as int] == f.lines@[f.at as int]@);
                match import_target(self.open[last].lines[self.open[last].at].as_str()) {
                    Some((path, _)) => {
                        let from = self.open[last].path.clone();
                        self.open[last].waiting = true;
                        proof {
                            assert(self@.open =~= halted(before).open);
                        }
                        return Action::Find(Some(from), path);
                    },
                    None => {
                        self.take(false);
                    },
                }
            }
        }
        assert(self@.open.len() == 0);
        if self.next < self.files.len() {
            let path = self.files[self.next].clone();
            assert(self@.files[self.next as int] == path@);
            self.next = self.next + 1;
            Action::Find(None, path)
        } else {
            Action::Done
        }
    }

    /// The name that the innermost file gives to the file that it waits for.
    fn asked_name(&self) -> (r: Option<String>)
        ensures
            text_of(r) == asked(self@),
    {
        if self.open.len() == 0 {
            return None;
        }
        let last: usize = self.open.len() - 1;
        assert(self@.open.last() == opened_of(self.open@[last as int]));
        let ghost f = self.open@[last as int];
        if !self.open[last].waiting || self.open[last].at >= self.open[last].lines.len() {
            return None;
        }
        assert(ast::names_of(f.lines@)[f.at as int] == f.lines@[f.at as int]@);
        match import_target(self.open[last].lines[self.open[last].at].as_str()) {
            Some((_, name)) => name,
            None => None,
        }
    }

    /// Note that a file was found. `name` names the file itself, whatever path led to
    /// it. Whether its lines are to be read: no file is read twice.
    pub fn found(&mut self, name: String) -> (r: bool)
        requires
            old(self).well_formed(),
        ensures
            final(self).well_formed(),
            r == !old(self)@.seen.contains(name@),
            final(self)@ == noted(old(self)@, name@),
    {
        let ghost before = self@;
        if let Some(alias) = self.asked_name() {
            let last: usize = self.open.len() - 1;
            assert(before.open.last() == opened_of(self.open@[last as int]));
            let ghost pairs = self.open@[last as int].aliases@;
            self.open[last].aliases.push((alias, name.clone()));
            proof {
                assert(pairs_of(self.open@[last as int].aliases@) =~= pairs_of(pairs).push(
                    (alias@, name@),
                ));
            }
        }
        assert(self@.open =~= noted(before, name@).open);
        self.current = name.clone();
        if self.seen.contains(name.as_str()) {
            assert(self@.seen =~= self@.seen.insert(name@));
            false
        } else {
            self.seen.insert(name);
            true
        }
    }

    /// Read the lines of the file that was found next.
    pub fn enter(&mut self, path: String, contents: &str)
        requires
            old(self).well_formed(),
        ensures
            final(self).well_formed(),
            final(self)@ == entered(old(self)@, path@, contents@),
    {
        let ghost before = self@;
        let name = self.asked_name();
        let parts = lines(contents);
        let mut owned: Vec<String> = Vec::new();
        let mut whole = name.is_some();
        let mut i: usize = 0;
        while i < parts.len()
            invariant
                i <= parts@.len(),
                owned@.len() == i,
                forall|j: int| 0 <= j < i ==> (#[trigger] owned@[j])@ == parts@[j]@,
                whole == (name is Some || exists|j: int|
                    0 <= j < i && (target_of(#[trigger] source::texts_of(parts@)[j]) matches Some(
                        (_, Some(_)),
                    ))),
            decreases parts@.len() - i,
        {
            assert(source::texts_of(parts@)[i as int] == parts@[i as int]@);
            if let Some((_, Some(_))) = import_target(parts[i]) {
                whole = true;
            }
            owned.push(str::to_owned(parts[i]));
            i += 1;
        }
        assert(ast::names_of(owned@) =~= source::texts_of(parts@));
        let file = ReadFile {
            name: clone_text(&name),
            file: path.clone(),
            text: contents.to_owned(),
        };
        proof {
            assoc::lemma_mapped_put(
                self.modules@,
                |m: ReadFile| module_of(m),
                self.current@,
                file,
            );
        }
        self.modules.insert(self.current.clone(), file);
        let f = OpenFile {
            path,
            text: contents.to_owned(),
            lines: owned,
            at: 0,
            waiting: false,
            name,
            whole,
            aliases: Vec::new(),
        };
        assert(pairs_of(f.aliases@) =~= Seq::empty());
        self.open.push(f);
        assert(self@.open =~= entered(before, path@, contents@).open);
    }

    /// The source that was read.
    pub fn finish(self) -> (r: Source)
        ensures
            r@ == self@.source,
    {
        self.source
    }
}

// ---------------------------------------------------------------------------
// What the resolver reads

/// The files that there are: where an import from a file leads, which file is found
/// there, and what a file holds.
pub struct World {
    pub find: spec_fn(Option<Seq<char>>, Seq<char>) -> (Seq<char>, Seq<char>),
    pub read: spec_fn(Seq<char>) -> Seq<char>,
}

/// A resolver that is answered: the file that it needs was found, and its lines are
/// read next unless the file was seen.
pub open spec fn answered(w: World, a: (Res, Act)) -> Res {
    match a.1 {
        Act::Find(from, path) => {
            let (path, id) = (w.find)(from, path);
            if a.0.seen.contains(id) {
                noted(a.0, id)
            } else {
                entered(noted(a.0, id), path, (w.read)(path))
            }
        },
        _ => a.0,
    }
}

/// What a resolver needs next after `n` answers.
pub open spec fn after(w: World, a: (Res, Act), n: nat) -> (Res, Act)
    decreases n,
{
    if n == 0 {
        a
    } else {
        after(w, advanced(answered(w, a)), (n - 1) as nat)
    }
}

/// What is known of the files that were read, and the source.
pub struct Memo {
    pub seen: Set<Seq<char>>,
    pub modules: Seq<(Seq<char>, Module)>,
    pub current: Seq<char>,
    pub source: Src,
}

/// What a resolver knows.
pub open spec fn memo_of(r: Res) -> Memo {
    Memo { seen: r.seen, modules: r.modules, current: r.current, source: r.source }
}

/// A resolver that knows `m`.
pub open spec fn knowing(r: Res, m: Memo) -> Res {
    Res { seen: m.seen, modules: m.modules, current: m.current, source: m.source, ..r }
}

/// What is known once a file and all that it imports are read into the source, unless
/// imports are nested more than `depth` deep, or the text of a module cannot be
/// renamed. `name` is the name that the file is imported with.
pub open spec fn read_file(
    w: World,
    depth: nat,
    from: Option<Seq<char>>,
    path: Seq<char>,
    name: Option<Seq<char>>,
    m: Memo,
) -> Option<Memo>
    decreases depth, 0nat,
{
    let (path, id) = (w.find)(from, path);
    let text = (w.read)(path);
    if m.seen.contains(id) {
        Some(Memo { seen: m.seen.insert(id), current: id, ..m })
    } else if depth == 0 {
        None
    } else {
        read_lines(
            w,
            (depth - 1) as nat,
            opened(path, text, name),
            Memo {
                seen: m.seen.insert(id),
                modules: assoc::put(m.modules, id, Module { name, file: path, text }),
                current: id,
                ..m
            },
        )
    }
}

/// The same for the lines of a file that are left.
pub open spec fn read_lines(w: World, depth: nat, f: Opened, m: Memo) -> Option<Memo>
    decreases depth, f.lines.len() - f.at + 1,
{
    if f.at >= f.lines.len() {
        if f.whole {
            match renamed(f, m.modules) {
                Some(Outcome::Done(text)) => Some(
                    Memo { source: with_whole(m.source, f, text), ..m },
                ),
                _ => None,
            }
        } else {
            Some(m)
        }
    } else {
        match target_of(f.lines[f.at as int]) {
            Some((target, name)) => match read_file(w, depth, Some(f.path), target, name, m) {
                Some(m) => read_lines(
                    w,
                    depth,
                    passed(aliased(f, name, (w.find)(Some(f.path), target).1)),
                    Memo { source: with_next(m.source, f, Seq::empty()), ..m },
                ),
                None => None,
            },
            None => read_lines(
                w,
                depth,
                passed(f),
                Memo { source: with_next(m.source, f, f.lines[f.at as int]), ..m },
            ),
        }
    }
}

/// The same for the files from position `k` on.
pub open spec fn read_files(
    w: World,
    depth: nat,
    files: Seq<Seq<char>>,
    k: nat,
    m: Memo,
) -> Option<Memo>
    decreases files.len() - k,
{
    if k >= files.len() {
        Some(m)
    } else {
        match read_file(w, depth, None, files[k as int], None, m) {
            Some(m) => read_files(w, depth, files, k + 1, m),
            None => None,
        }
    }
}

/// The answers can be counted in two parts.
proof fn lemma_after(w: World, a: (Res, Act), m: nat, n: nat)
    ensures
        after(w, after(w, a, m), n) == after(w, a, m + n),
    decreases m,
{
    if m > 0 {
        lemma_after(w, advanced(answered(w, a)), (m - 1) as nat, n);
    }
}

/// The number of answers after which the lines of the innermost file are read.
proof fn lemma_lines_read(w: World, depth: nat, r: Res) -> (n: nat)
    requires
        r.open.len() > 0,
        !r.open.last().waiting,
        read_lines(w, depth, r.open.last(), memo_of(r)) is Some,
    ensures
        after(w, advanced(r), n) == advanced(
            Res {
                open: r.open.drop_last(),
                ..knowing(r, read_lines(w, depth, r.open.last(), memo_of(r))->0)
            },
        ),
    decreases depth, r.open.last().lines.len() - r.open.last().at + 1,
{
    let f = r.open.last();
    if f.at >= f.lines.len() {
        if f.whole {
            if let Some(Outcome::Done(text)) = renamed(f, r.modules) {
                assert(advanced(r) == advanced(ended(r, text)));
            }
        } else {
            assert(advanced(r) == advanced(done(r)));
        }
        0
    } else {
        match target_of(f.lines[f.at as int]) {
            Some((target, name)) => {
                let id = (w.find)(Some(f.path), target).1;
                let m = read_file(w, depth, Some(f.path), target, name, memo_of(r))->0;
                let waiting = halted(r);
                assert(advanced(r) == (waiting, Act::Find(Some(f.path), target)));
                assert(waiting.open.last() == (Opened { waiting: true, ..f }));
                assert(asked(waiting) == name);
                assert(memo_of(waiting) == memo_of(r));
                let k: nat = lemma_file_read(w, depth, advanced(r));
                let back = Res { open: noted(waiting, id).open, ..knowing(waiting, m) };
                assert(after(w, advanced(r), k) == advanced(back));
                assert(back.open.last() == aliased(waiting.open.last(), name, id));
                let next = taken(back, Seq::empty());
                assert(advanced(back) == advanced(next));
                assert(next.open.last() == passed(aliased(f, name, id)));
                assert(next.open.drop_last() =~= r.open.drop_last());
                assert(memo_of(next) == (Memo {
                    source: with_next(m.source, f, Seq::empty()),
                    ..m
                }));
                let n: nat = lemma_lines_read(w, depth, next);
                lemma_after(w, advanced(r), k, n);
                k + n
            },
            None => {
                let next = taken(r, f.lines[f.at as int]);
                assert(advanced(r) == advanced(next));
                assert(next.open.last() == passed(f));
                assert(next.open.drop_last() =~= r.open.drop_last());
                lemma_lines_read(w, depth, next)
            },
        }
    }
}

/// The number of answers after which a file that is needed is read.
proof fn lemma_file_read(w: World, depth: nat, a: (Res, Act)) -> (n: nat)
    requires
        a.1 matches Act::Find(from, path) && read_file(
            w,
            depth,
            from,
            path,
            asked(a.0),
            memo_of(a.0),
        ) is Some,
    ensures
        a.1 matches Act::Find(from, path) && after(w, a, n) == advanced(
            Res {
                open: noted(a.0, (w.find)(from, path).1).open,
                ..knowing(
                    a.0,
                    read_file(w, depth, from, path, asked(a.0), memo_of(a.0))->0,
                )
            },
        ),
    decreases depth, 0nat,
{
    if let Act::Find(from, path) = a.1 {
        let m = read_file(w, depth, from, path, asked(a.0), memo_of(a.0))->0;
        let (path, id) = (w.find)(from, path);
        let seen = noted(a.0, id);
        let r = answered(w, a);
        let end = Res { open: seen.open, ..knowing(a.0, m) };
        if a.0.seen.contains(id) {
            assert(r == end);
            assert(after(w, advanced(r), 0) == advanced(r));
            1
        } else {
            assert(asked(seen) == asked(a.0));
            assert(r.open.drop_last() =~= seen.open);
            assert(r.open.last() == opened(path, (w.read)(path), asked(a.0)));
            let n: nat = lemma_lines_read(w, (depth - 1) as nat, r);
            assert(knowing(r, m) == (Res { open: r.open, ..end }));
            n + 1
        }
    } else {
        0
    }
}

/// The resolver reads its files, one after the other, each with all that it imports:
/// after some number of answers nothing is left, and the source is what reading the
/// files and their imports gives.
pub proof fn lemma_resolver_reads(w: World, depth: nat, files: Seq<Seq<char>>, s: Src) -> (n: nat)
    requires
        read_files(w, depth, files, 0, memo_of(started(s, files))) is Some,
    ensures
        ({
            let m = read_files(w, depth, files, 0, memo_of(started(s, files)))->0;
            let end = after(w, advanced(started(s, files)), n);
            end.1 is Done && memo_of(end.0) == m
        }),
{
    lemma_files_read(w, depth, started(s, files))
}

/// The number of answers after which the files left are read.
proof fn lemma_files_read(w: World, depth: nat, r: Res) -> (n: nat)
    requires
        r.open.len() == 0,
        r.next >= 0,
        read_files(w, depth, r.files, r.next as nat, memo_of(r)) is Some,
    ensures
        ({
            let m = read_files(w, depth, r.files, r.next as nat, memo_of(r))->0;
            let end = after(w, advanced(r), n);
            end.1 is Done && memo_of(end.0) == m
        }),
    decreases r.files.len() - r.next,
{
    if r.next >= r.files.len() {
        0
    } else {
        let m = read_file(w, depth, None, r.files[r.next], None, memo_of(r))->0;
        assert(asked(advanced(r).0) is None);
        let k: nat = lemma_file_read(w, depth, advanced(r));
        let next = knowing(Res { next: r.next + 1, ..r }, m);
        assert(after(w, advanced(r), k) == advanced(next));
        let n: nat = lemma_files_read(w, depth, next);
        lemma_after(w, advanced(r), k, n);
        k + n
    }
}

/// Reading on changes nothing about which files were seen, and what they hold.
pub proof fn lemma_advance_keeps_seen(r: Res)
    ensures
        advanced(r).0.seen == r.seen,
        advanced(r).0.modules == r.modules,
    decreases left(r.open),
{
    lemma_left(r);
    if r.open.len() > 0 {
        let f = r.open.last();
        if f.at >= f.lines.len() {
            if f.whole {
                if let Some(Outcome::Done(text)) = renamed(f, r.modules) {
                    lemma_advance_keeps_seen(ended(r, text));
                }
            } else {
                lemma_advance_keeps_seen(done(r));
            }
        } else if f.waiting {
            lemma_advance_keeps_seen(taken(r, Seq::empty()));
        } else if target_of(f.lines[f.at as int]) is None {
            lemma_advance_keeps_seen(taken(r, f.lines[f.at as int]));
        }
    }
}

/// A file that was seen stays seen, whatever the answers are, so its lines are never
/// read again.
pub proof fn lemma_seen_stays(w: World, a: (Res, Act), n: nat, name: Seq<char>)
    requires
        a.0.seen.contains(name),
    ensures
        after(w, a, n).0.seen.contains(name),
    decreases n,
{
    if n > 0 {
        let r = answered(w, a);
        lemma_advance_keeps_seen(r);
        lemma_seen_stays(w, advanced(r), (n - 1) as nat, name);
    }
}

/// A file that is read is known by its name, its path and its text: what the files that
/// import it with a name take it to declare is what its own items are renamed by.
pub proof fn lemma_file_is_known(r: Res, path: Seq<char>, contents: Seq<char>)
    ensures
        ({
            let after = entered(r, path, contents);
            let f = after.open.last();
            assoc::get(after.modules, after.current) == Some(
                Module { name: f.name, file: f.path, text: f.text },
            )
        }),
{
    assoc::lemma_put_get(
        r.modules,
        r.current,
        Module { name: asked(r), file: path, text: contents },
        r.current,
    );
}

/// What a file that was seen holds stays known, whatever the answers are, so all files
/// that import it name its items alike.
pub proof fn lemma_file_stays_known(w: World, a: (Res, Act), n: nat, id: Seq<char>)
    requires
        a.0.seen.contains(id),
    ensures
        assoc::get(after(w, a, n).0.modules, id) == assoc::get(a.0.modules, id),
    decreases n,
{
    if n > 0 {
        let r = answered(w, a);
        if let Act::Find(from, path) = a.1 {
            let (path, other) = (w.find)(from, path);
            if !a.0.seen.contains(other) {
                let found = noted(a.0, other);
                assoc::lemma_put_get(
                    found.modules,
                    other,
                    Module { name: asked(found), file: path, text: (w.read)(path) },
                    id,
                );
            }
        }
        lemma_advance_keeps_seen(r);
        lemma_file_stays_known(w, advanced(r), (n - 1) as nat, id);
    }
}

/// Whether the lines of files hold no line feeds.
pub open spec fn all_lines(open: Seq<Opened>) -> bool {
    forall|i: int, k: int|
        #![trigger open[i].lines[k]]
        0 <= i < open.len() && 0 <= k < open[i].lines.len() ==> source::is_line(open[i].lines[k])
}

/// Whether every line of the source has its place recorded, and what is still to be
/// read is made of lines.
pub open spec fn sound(r: Res) -> bool {
    source::complete(r.source) && all_lines(r.open)
}

/// Files with the lines of other files hold no line feeds if those hold none.
proof fn lemma_same_lines(a: Seq<Opened>, b: Seq<Opened>)
    requires
        all_lines(a),
        b.len() <= a.len(),
        forall|i: int| 0 <= i < b.len() ==> (#[trigger] b[i]).lines == a[i].lines,
    ensures
        all_lines(b),
{
    assert forall|i: int, k: int|
        #![trigger b[i].lines[k]]
        0 <= i < b.len() && 0 <= k < b[i].lines.len() implies source::is_line(
        b[i].lines[k],
    ) by {
        assert(b[i].lines == a[i].lines);
        assert(source::is_line(a[i].lines[k]));
    }
}

/// Adding lines keeps the places of all lines recorded.
proof fn lemma_lines_keep_complete(s: Src, lines: Seq<Seq<char>>, file: Seq<char>, k: int)
    requires
        source::complete(s),
        k >= 0,
        forall|i: int| 0 <= i < lines.len() ==> source::is_line(#[trigger] lines[i]),
    ensures
        source::complete(source::with_lines(s, lines, file, k)),
    decreases lines.len() - k,
{
    if k < lines.len() {
        source::lemma_line_keeps_complete(s, lines[k], file, (k + 1) as usize);
        lemma_lines_keep_complete(
            source::with_line(s, lines[k], file, (k + 1) as usize),
            lines,
            file,
            k + 1,
        );
    }
}

/// Reading on keeps the places of all lines recorded.
pub proof fn lemma_advance_keeps_sound(r: Res)
    requires
        sound(r),
    ensures
        sound(advanced(r).0),
    decreases left(r.open),
{
    lemma_left(r);
    if r.open.len() > 0 {
        let f = r.open.last();
        if f.at >= f.lines.len() {
            lemma_same_lines(r.open, r.open.drop_last());
            if f.whole {
                if let Some(Outcome::Done(text)) = renamed(f, r.modules) {
                    let new = without_imports(source::lines_of(text));
                    assert forall|i: int| 0 <= i < new.len() implies source::is_line(
                        #[trigger] new[i],
                    ) by {
                        source::lemma_lines_are_lines(text, i);
                    }
                    lemma_lines_keep_complete(r.source, new, f.path, 0);
                    lemma_advance_keeps_sound(ended(r, text));
                }
            } else {
                lemma_advance_keeps_sound(done(r));
            }
        } else if f.waiting {
            lemma_taken_keeps_sound(r, Seq::empty());
            lemma_advance_keeps_sound(taken(r, Seq::empty()));
        } else if target_of(f.lines[f.at as int]) is None {
            assert(source::is_line(r.open[r.open.len() - 1].lines[f.at as int]));
            lemma_taken_keeps_sound(r, f.lines[f.at as int]);
            lemma_advance_keeps_sound(taken(r, f.lines[f.at as int]));
        } else {
            lemma_same_lines(r.open, halted(r).open);
        }
    }
}

/// Taking a line keeps the places of all lines recorded.
proof fn lemma_taken_keeps_sound(r: Res, line: Seq<char>)
    requires
        sound(r),
        r.open.len() > 0,
        source::is_line(line),
    ensures
        sound(taken(r, line)),
{
    let f = r.open.last();
    source::lemma_line_keeps_complete(r.source, line, f.path, (f.at + 1) as usize);
    lemma_same_lines(r.open, taken(r, line).open);
}

/// Every line of the source has its place recorded, whatever the answers are.
pub proof fn lemma_answers_keep_sound(w: World, a: (Res, Act), n: nat)
    requires
        sound(a.0),
    ensures
        sound(after(w, a, n).0),
    decreases n,
{
    if n > 0 {
        let r = answered(w, a);
        if let Act::Find(from, path) = a.1 {
            let (path, id) = (w.find)(from, path);
            let seen = noted(a.0, id);
            lemma_same_lines(a.0.open, seen.open);
            assert forall|i: int, k: int|
                #![trigger r.open[i].lines[k]]
                0 <= i < r.open.len() && 0 <= k < r.open[i].lines.len() implies source::is_line(
                r.open[i].lines[k],
            ) by {
                if i < seen.open.len() {
                    assert(r.open[i] == seen.open[i]);
                    assert(source::is_line(seen.open[i].lines[k]));
                } else {
                    source::lemma_lines_are_lines((w.read)(path), k);
                }
            }
        }
        lemma_advance_keeps_sound(r);
        lemma_answers_keep_sound(w, advanced(r), (n - 1) as nat);
    }
}

} // verus!
