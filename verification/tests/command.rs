//! The command line.

use azula::command::{
    ir_file, last_part, level, link_command, object_file, program, stem, AzulaCLI, Commands,
    OptimizationLevel,
};

fn build(output: Option<String>) -> AzulaCLI {
    AzulaCLI {
        command: Commands::Build {
            files: vec!["lib.azl".to_string(), "src/main.azl".to_string()],
            target: Some("wasm32".to_string()),
            output,
            emit_llvm: true,
            release: true,
            print_azula_ir: false,
        },
    }
}

#[test]
fn builds_are_put_where_the_file_is() {
    let job = build(None).job();
    assert_eq!(job.destination, "");
    assert_eq!(job.target, Some("wasm32".to_string()));
    assert!(job.emit_llvm && !job.run && !job.print_azula_ir);
    assert_eq!(job.level, OptimizationLevel::Aggressive);
    let primary = job.primary().unwrap().clone();
    assert_eq!(primary, "src/main.azl");
    assert_eq!(job.name(&primary), Some("src/main".to_string()));
}

#[test]
fn the_output_can_be_named() {
    let job = build(Some("tool".to_string())).job();
    assert_eq!(job.name("src/main.azl"), Some("tool".to_string()));
}

#[test]
fn programs_that_are_run_go_to_the_build_directory() {
    let job = AzulaCLI {
        command: Commands::Run {
            files: vec!["src/main.azl".to_string()],
            release: false,
            print_azula_ir: true,
        },
    }
    .job();
    assert!(job.run && job.print_azula_ir && !job.emit_llvm);
    assert_eq!(job.level, level(false));
    assert_eq!(job.destination, ".build/");
    assert_eq!(job.name("src/main.azl"), Some("main".to_string()));
    assert_eq!(program("main"), "./.build/main");
}

#[test]
fn a_command_without_files_has_no_primary_file() {
    let job = AzulaCLI {
        command: Commands::Run { files: vec![], release: true, print_azula_ir: false },
    }
    .job();
    assert!(job.primary().is_none());
}

#[test]
fn endings_are_taken_off() {
    assert_eq!(stem("a/b.azl"), "a/b");
    assert_eq!(stem("b"), "b");
    assert_eq!(stem("b.azl.azl"), "b");
    assert_eq!(stem(".azl"), "");
    for path in ["x", "x.azl", "x.az", "azl", "x.azl.azl.txt"] {
        assert_eq!(stem(path), path.trim_end_matches(".azl"));
    }
}

#[test]
fn files_are_named_after_the_program() {
    assert_eq!(object_file("out/main"), Some(".build/main.o".to_string()));
    assert_eq!(ir_file("src/main"), "src/main.ll");
}

#[test]
fn programs_are_linked_with_zig_or_the_system_compiler() {
    assert_eq!(
        link_command(true, ".build/", "main", ".build/main.o", &None),
        vec!["zig", "cc", "-o", ".build/main", ".build/main.o", "-lm"]
    );
    assert_eq!(
        link_command(false, "", "a/main", ".build/main.o", &Some("x86_64-linux".to_string())),
        vec!["cc", "-o", "a/main", ".build/main.o", "-lm", "-target", "x86_64-linux"]
    );
}

#[test]
fn the_last_part_of_a_path_is_that_of_the_standard_library() {
    for path in [
        "main", "src/main", "src/main/", "a/./", "a//.", "./a", "a/..", "..", ".", "./", "/", "/.",
        "", "a/.b", "a.", "a/b.", "é/ü", "a/...", "//x//",
    ] {
        let expected = std::path::Path::new(path)
            .file_name()
            .map(|n| n.to_string_lossy().to_string());
        assert_eq!(last_part(path), expected, "{}", path);
    }
    assert_eq!(object_file(".."), None);
}
