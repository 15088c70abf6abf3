//! The command line, and what a command asks of the compiler: which files to read,
//! what to write, and how to link it.

use vstd::prelude::*;
use vstd::string::*;
use crate::ast;
use crate::imports;
use crate::imports::strip_suffix;
use crate::text::{join, same};

verus! {

/// How much to optimise.
#[derive(Clone, Copy, Debug, PartialEq, Eq, Structural)]
pub enum OptimizationLevel {
    Default,
    Aggressive,
}

/// Azula command line
pub struct AzulaCLI {
    pub command: Commands,
}

/// The commands of the command line.
pub enum Commands {
    /// Build a program and run it.
    Run { files: Vec<String>, release: bool, print_azula_ir: bool },
    /// Build a program.
    Build {
        files: Vec<String>,
        target: Option<String>,
        output: Option<String>,
        emit_llvm: bool,
        release: bool,
        print_azula_ir: bool,
    },
}

/// What is to be built, and how.
pub struct Job {
    /// The files of the program
    pub files: Vec<String>,
    /// What the name of the program is written behind
    pub destination: String,
    /// The name of the program, if it is given
    pub output: Option<String>,
    /// The system to build for, if it is not this one
    pub target: Option<String>,
    pub emit_llvm: bool,
    pub level: OptimizationLevel,
    pub print_azula_ir: bool,
    /// Whether to run the program
    pub run: bool,
}

/// How much to optimise a release, and anything else.
pub open spec fn level_of(release: bool) -> OptimizationLevel {
    if release {
        OptimizationLevel::Aggressive
    } else {
        OptimizationLevel::Default
    }
}

/// What a command asks for.
pub open spec fn asks(c: Commands, j: Job) -> bool {
    match c {
        Commands::Run { files, release, print_azula_ir } => {
            &&& j.files == files
            &&& j.destination@ == ".build/"@
            &&& j.output is None
            &&& j.target is None
            &&& !j.emit_llvm
            &&& j.level == level_of(release)
            &&& j.print_azula_ir == print_azula_ir
            &&& j.run
        },
        Commands::Build { files, target, output, emit_llvm, release, print_azula_ir } => {
            &&& j.files == files
            &&& j.destination@ == ""@
            &&& j.output == output
            &&& j.target == target
            &&& j.emit_llvm == emit_llvm
            &&& j.level == level_of(release)
            &&& j.print_azula_ir == print_azula_ir
            &&& !j.run
        },
    }
}

/// How much to optimise.
pub fn level(release: bool) -> (r: OptimizationLevel)
    ensures
        r == level_of(release),
{
    if release {
        OptimizationLevel::Aggressive
    } else {
        OptimizationLevel::Default
    }
}

impl AzulaCLI {
    /// What the command line asks for.
    pub fn job(self) -> (r: Job)
        ensures
            asks(self.command, r),
    {
        match self.command {
            Commands::Run { files, release, print_azula_ir } => Job {
                files,
                destination: ".build/".to_owned(),
                output: None,
                target: None,
                emit_llvm: false,
                level: level(release),
                print_azula_ir,
                run: true,
            },
            Commands::Build { files, target, output, emit_llvm, release, print_azula_ir } => Job {
                files,
                destination: "".to_owned(),
                output,
                target,
                emit_llvm,
                level: level(release),
                print_azula_ir,
                run: false,
            },
        }
    }
}

/// The path of a program: that of its last file without the endings `.azl`.
pub open spec fn stem_of(path: Seq<char>) -> Seq<char>
    decreases path.len(),
{
    if imports::ends_with(path, ".azl"@) && ".azl"@.len() > 0 {
        stem_of(path.take(path.len() - ".azl"@.len()))
    } else {
        path
    }
}

/// The path of a program, of that of a file.
pub fn stem(path: &str) -> (r: String)
    ensures
        r@ == stem_of(path@),
    decreases path@.len(),
{
    assert(".azl"@.len() == 4) by {
        reveal_strlit(".azl");
    }
    match strip_suffix(path, ".azl") {
        Some(shorter) => stem(shorter),
        None => path.to_owned(),
    }
}

/// A path without the slashes at its end, and without the parts `.` there.
pub open spec fn without_end(path: Seq<char>) -> Seq<char>
    decreases path.len(),
{
    let n = path.len();
    if n > 0 && path[n - 1] == '/' {
        without_end(path.take(n - 1))
    } else if n > 1 && path[n - 1] == '.' && path[n - 2] == '/' {
        without_end(path.take(n - 2))
    } else {
        path
    }
}

/// Where the part of a path that ends at `j` starts.
pub open spec fn part_start(path: Seq<char>, j: int) -> int
    decreases j,
{
    if 0 < j <= path.len() && path[j - 1] != '/' {
        part_start(path, j - 1)
    } else {
        j
    }
}

/// The last part of a path whose parts are separated by slashes, if it names
/// something: not if there is no part, or if the last part is `.` or `..`.
pub open spec fn last_part_of(path: Seq<char>) -> Option<Seq<char>> {
    let path = without_end(path);
    let part = path.skip(part_start(path, path.len() as int));
    if part.len() == 0 || part == "."@ || part == ".."@ {
        None
    } else {
        Some(part)
    }
}

/// The last part of a path, if it names something.
pub fn last_part(path: &str) -> (r: Option<String>)
    ensures
        match r {
            Some(part) => last_part_of(path@) == Some(part@),
            None => last_part_of(path@) is None,
        },
{
    let len: usize = path.unicode_len();
    let mut end: usize = len;
    let ghost base = without_end(path@);
    assert(path@.take(end as int) =~= path@);
    while end > 0 && (path.get_char(end - 1) == '/' || (end > 1 && path.get_char(end - 1) == '.'
        && path.get_char(end - 2) == '/'))
        invariant
            end <= len,
            len == path@.len(),
            base == without_end(path@.take(end as int)),
        decreases end,
    {
        let ghost here = path@.take(end as int);
        if path.get_char(end - 1) == '/' {
            end -= 1;
        } else {
            end -= 2;
        }
        assert(here.take(end as int) =~= path@.take(end as int));
    }
    assert(base =~= path@.take(end as int));
    let mut start: usize = end;
    while start > 0 && path.get_char(start - 1) != '/'
        invariant
            start <= end <= len,
            len == path@.len(),
            base == path@.take(end as int),
            part_start(base, end as int) == part_start(base, start as int),
        decreases start,
    {
        start -= 1;
    }
    let part = path.substring_char(start, end);
    assert(part@ =~= base.skip(start as int));
    if start == end || same(part, ".") || same(part, "..") {
        None
    } else {
        Some(part.to_owned())
    }
}

/// The name of a program, of the path of its last file. A program that is only run
/// goes by the last part of its path, if there is one.
pub open spec fn name_of(
    output: Option<Seq<char>>,
    destination: Seq<char>,
    path: Seq<char>,
) -> Option<Seq<char>> {
    match output {
        Some(name) => Some(name),
        None => if destination.len() == 0 {
            Some(stem_of(path))
        } else {
            last_part_of(stem_of(path))
        },
    }
}

impl Job {
    /// The file that the program is named after: the last one.
    pub fn primary(&self) -> (r: Option<&String>)
        ensures
            match r {
                Some(f) => self.files@.len() > 0 && *f == self.files@.last(),
                None => self.files@.len() == 0,
            },
    {
        let n: usize = self.files.len();
        if n == 0 {
            None
        } else {
            Some(&self.files[n - 1])
        }
    }

    /// The name of the program. `path` is the path of the file that it is named
    /// after.
    pub fn name(&self, path: &str) -> (r: Option<String>)
        ensures
            match r {
                Some(name) => Some(name@),
                None => None,
            } == name_of(
                match self.output {
                    Some(o) => Some(o@),
                    None => None,
                },
                self.destination@,
                path@,
            ),
    {
        match &self.output {
            Some(o) => Some(o.clone()),
            None => if self.destination.as_str().is_empty() {
                Some(stem(path))
            } else {
                last_part(stem(path).as_str())
            },
        }
    }
}

/// The file that the LLVM code of a program is written to.
pub fn ir_file(name: &str) -> (r: String)
    ensures
        r@ == name@ + ".ll"@,
{
    join(name, ".ll")
}

/// The file that the machine code of a program is written to: it goes by the last part
/// of the program's name, if there is one.
pub fn object_file(name: &str) -> (r: Option<String>)
    ensures
        match last_part_of(name@) {
            Some(part) => r matches Some(file) && file@ == ".build/"@ + part + ".o"@,
            None => r is None,
        },
{
    match last_part(name) {
        Some(part) => Some(join(join(".build/", part.as_str()).as_str(), ".o")),
        None => None,
    }
}

/// The command that runs a program.
pub fn program(name: &str) -> (r: String)
    ensures
        r@ == "./.build/"@ + name@,
{
    join("./.build/", name)
}

/// The command that links a program: `zig cc`, which makes building for other systems
/// easy, where there is one, and the C compiler of the system otherwise.
pub open spec fn linked(
    zig: bool,
    destination: Seq<char>,
    name: Seq<char>,
    object: Seq<char>,
    target: Option<Seq<char>>,
) -> Seq<Seq<char>> {
    let linker = if zig {
        seq!["zig"@, "cc"@]
    } else {
        seq!["cc"@]
    };
    let rest = seq!["-o"@, destination + name, object, "-lm"@];
    match target {
        Some(t) => linker + rest + seq!["-target"@, t],
        None => linker + rest,
    }
}

/// The command that links a program, the name of the linker first.
pub fn link_command(
    zig: bool,
    destination: &str,
    name: &str,
    object: &str,
    target: &Option<String>,
) -> (r: Vec<String>)
    ensures
        ast::names_of(r@) == linked(
            zig,
            destination@,
            name@,
            object@,
            match target {
                Some(t) => Some(t@),
                None => None,
            },
        ),
{
    let mut r: Vec<String> = Vec::new();
    if zig {
        r.push("zig".to_owned());
    }
    r.push("cc".to_owned());
    r.push("-o".to_owned());
    r.push(join(destination, name));
    r.push(object.to_owned());
    r.push("-lm".to_owned());
    if let Some(t) = target {
        r.push("-target".to_owned());
        r.push(t.clone());
    }
    proof {
        let all = linked(
            zig,
            destination@,
            name@,
            object@,
            match target {
                Some(t) => Some(t@),
                None => None,
            },
        );
        assert(ast::names_of(r@).len() == all.len());
        assert(ast::names_of(r@) =~= all);
    }
    r
}

/// Naming a file with or without the ending gives the same program.
pub proof fn lemma_ending_is_optional(path: Seq<char>)
    ensures
        stem_of(path + ".azl"@) == stem_of(path),
{
    reveal_strlit(".azl");
    let whole = path + ".azl"@;
    assert(whole.skip(whole.len() - 4) =~= ".azl"@);
    assert(whole.take(whole.len() - 4) =~= path);
}

/// The path of a program has no ending `.azl` left.
pub proof fn lemma_stem_has_no_ending(path: Seq<char>)
    ensures
        !imports::ends_with(stem_of(path), ".azl"@),
        stem_of(stem_of(path)) == stem_of(path),
    decreases path.len(),
{
    reveal_strlit(".azl");
    if imports::ends_with(path, ".azl"@) {
        lemma_stem_has_no_ending(path.take(path.len() - ".azl"@.len()));
    }
}

} // verus!
