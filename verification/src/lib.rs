//! Azula is a strongly-typed compiled language with an LLVM backend. This library
//! holds the parts of its compiler that compute:
//!
//! - [`source`] and [`resolve`] put the files of a program and all that they import
//!   into one text, and remember where every line came from;
//! - [`modules`] renames the items of files that are imported with a name;
//! - [`generics`] puts types for type parameters and infers them;
//! - [`closures`] finds the variables that closures use from their surroundings;
//! - [`codegen`] translates the syntax tree to the intermediate representation in
//!   [`ir`], as [`translation`] says;
//! - [`llvm`] lowers the intermediate representation to steps for an LLVM module
//!   builder, as [`lowering`] says;
//! - [`command`] decides what a command line asks for, and how a program is linked.
//!
//! [`shape`] and [`labels`] show that generated functions are well formed, and that
//! every variable gets a name of its own. [`traces`] shows that the steps of a lowered
//! program fit together, and [`storage`] that variables get their storage at the start
//! of a function.
//!
//! [`machine`] says what instructions mean. [`running`] shows what generated functions do
//! when they are run: which way control goes, what expressions give, what statements
//! change, and that programs which compute with variables, decide and repeat do what they
//! mean. [`execution`] shows that the steps of a lowered function do what its instructions
//! say. [`layouts`] and [`declarations`] show that a program has the types, functions and
//! globals that its source text declares. [`trees`] sees syntax trees as trees of one kind
//! of node, so that [`generics`] and [`closures`] can say what holds at every place of one.

pub mod assoc;
pub mod ast;
pub mod closures;
pub mod codegen;
pub mod command;
pub mod declarations;
pub mod execution;
pub mod generics;
pub mod imports;
pub mod ir;
pub mod labels;
pub mod layouts;
pub mod llvm;
pub mod lowering;
pub mod machine;
pub mod modules;
pub mod names;
pub mod resolve;
pub mod running;
pub mod scanner;
pub mod shape;
pub mod source;
pub mod storage;
pub mod text;
pub mod traces;
pub mod translation;
pub mod trees;
pub mod types;
