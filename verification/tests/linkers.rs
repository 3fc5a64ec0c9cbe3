use instrument_coverage::linkers::{
    check_and_add_rustflags, check_compiler_linker_args, check_system_compiler, compiler_candidates,
    contains_text, find_bundled_lld, find_bundled_lld_wrapper, split_lines, Error,
    FindBinaryInPathError, Linker, Report, Target,
};

const SELFTEST_TARGET: &str = "x86_64-unknown-linux-gnu";

fn path(components: &[&str]) -> Vec<String> {
    components.iter().map(|c| c.to_string()).collect()
}

fn strings(list: &[&str]) -> Vec<String> {
    list.iter().map(|c| c.to_string()).collect()
}

#[test]
fn do_nothing() {}

#[test]
fn test_find_bundled_lld() {
    let mut reporter = Vec::new();
    let bin = path(&["lib", "rustlib", SELFTEST_TARGET, "bin", "rust-lld"]);
    let found = find_bundled_lld(&mut reporter, SELFTEST_TARGET, |p: &Vec<String>| *p == bin).unwrap();
    assert_eq!(found, bin);
    assert_eq!(reporter, vec![Report::Success("bundled linker detected".to_string())]);
}

#[test]
fn test_find_bundled_lld_missing() {
    let mut reporter = Vec::new();
    match find_bundled_lld(&mut reporter, SELFTEST_TARGET, |_: &Vec<String>| false) {
        Err(Error::BundledLinkerMissing) => {
            // Ok
        }
        other => panic!("unexpected result: {other:?}"),
    }
    assert!(reporter.is_empty());
}

#[test]
fn test_find_bundled_lld_wrapper() {
    let mut reporter = Vec::new();
    let bin = path(&["lib", "rustlib", SELFTEST_TARGET, "bin", "gcc-ld", "ld.lld"]);
    let found =
        find_bundled_lld_wrapper(&mut reporter, SELFTEST_TARGET, |p: &Vec<String>| *p == bin).unwrap();
    assert_eq!(found, bin);
    assert_eq!(reporter, vec![Report::Success("bundled linker-wrapper detected".to_string())]);
}

#[test]
fn test_find_bundled_lld_wrapper_missing() {
    let mut reporter = Vec::new();
    match find_bundled_lld_wrapper(&mut reporter, SELFTEST_TARGET, |_: &Vec<String>| false) {
        Err(Error::BundledLinkerMissing) => {
            // Ok
        }
        other => panic!("unexpected result: {other:?}"),
    }
    assert!(reporter.is_empty());
}

#[test]
fn bundled_programs_are_looked_for_below_the_target() {
    let mut reporter = Vec::new();
    let other = path(&["lib", "rustlib", "aarch64-unknown-none", "bin", "rust-lld"]);
    let res = find_bundled_lld(&mut reporter, SELFTEST_TARGET, |p: &Vec<String>| *p == other);
    assert_eq!(res, Err(Error::BundledLinkerMissing));
    let res = find_bundled_lld(&mut reporter, "aarch64-unknown-none", |p: &Vec<String>| *p == other);
    assert_eq!(res, Ok(other.clone()));
    let res = find_bundled_lld_wrapper(&mut reporter, "aarch64-unknown-none", |p: &Vec<String>| *p == other);
    assert_eq!(res, Err(Error::BundledLinkerMissing));
}

#[test]
fn test_c_compiler_missing() {
    let result = check_system_compiler(
        "some-test-target",
        "missing-cc",
        |name: &str| Err(FindBinaryInPathError::MissingBinary { name: name.to_string() }),
        |_: &String, _: bool| panic!("Should not have found a C compiler"),
        || panic!("Should not have found a C compiler"),
        |_: &String| panic!("Should not have found a C compiler"),
    );
    match result {
        Ok(_) => {
            panic!("Should not have found a C compiler");
        }
        Err(Error::CCompilerNotFound { name, error: FindBinaryInPathError::MissingBinary { .. } }) => {
            assert_eq!(&name, "missing-cc");
        }
        _ => {
            panic!("Unexpected error");
        }
    }
}

#[test]
fn working_compiler_gives_its_path_and_linker_arguments() {
    let result = check_system_compiler(
        "some-test-target",
        "custom-cc",
        |name: &str| Ok(format!("/usr/bin/{name}")),
        |cc: &String, _fake: bool| {
            assert_eq!(cc, "/usr/bin/custom-cc");
            Ok(())
        },
        || Ok("/tmp/args".to_string()),
        |file: &String| {
            assert_eq!(file, "/tmp/args");
            Some("/tmp/ld.lld\r\n-arg1\r\n-arg2\r\n".to_string())
        },
    );
    assert_eq!(result, Ok(("/usr/bin/custom-cc".to_string(), strings(&["/tmp/ld.lld", "-arg1", "-arg2"]))));
}

#[test]
fn failing_step_ends_the_check_of_a_compiler() {
    let broken = Error::SampleProgramCompilationFailed { name: "cc".to_string(), error: "exit 1".to_string() };
    let result = check_system_compiler(
        "t",
        "cc",
        |_: &str| Ok("/usr/bin/cc".to_string()),
        |_: &String, fake: bool| if fake { Err(broken.clone()) } else { Ok(()) },
        || Ok("/tmp/args".to_string()),
        |_: &String| Some("x".to_string()),
    );
    assert_eq!(result, Err(broken.clone()));
    let result = check_system_compiler(
        "t",
        "cc",
        |_: &str| Ok("/usr/bin/cc".to_string()),
        |_: &String, _: bool| Ok(()),
        || Err(Error::WritingSampleProgramFailed { name: "ldlld.c".to_string(), dest: "/tmp".to_string(), error: "full".to_string() }),
        |_: &String| Some("x".to_string()),
    );
    assert_eq!(
        result,
        Err(Error::WritingSampleProgramFailed { name: "ldlld.c".to_string(), dest: "/tmp".to_string(), error: "full".to_string() })
    );
    for captured in [None, Some(String::new())] {
        let result = check_system_compiler(
            "the-target",
            "cc",
            |_: &str| Ok("/usr/bin/cc".to_string()),
            |_: &String, _: bool| Ok(()),
            || Ok("/tmp/args".to_string()),
            |_: &String| captured.clone(),
        );
        assert_eq!(result, Err(Error::LinkerArgsError { target: "the-target".to_string() }));
    }
}

#[test]
fn linker_arguments_are_read_line_by_line() {
    assert_eq!(check_compiler_linker_args("t", Some("a\nb\n")), Ok(strings(&["a", "b"])));
    assert_eq!(check_compiler_linker_args("t", Some("a")), Ok(strings(&["a"])));
    assert_eq!(check_compiler_linker_args("t", Some("\n")), Ok(strings(&[""])));
    assert_eq!(
        check_compiler_linker_args("t", Some("")),
        Err(Error::LinkerArgsError { target: "t".to_string() })
    );
    assert_eq!(check_compiler_linker_args("t", None), Err(Error::LinkerArgsError { target: "t".to_string() }));
}

#[test]
fn lines_end_at_line_feeds() {
    for text in ["", "a", "a\n", "a\nb", "a\r\nb\r\n", "\n\n", "a\rb\n", "a\n\r\nb\r", "\r\n", "é\nü\r\n"] {
        let expected: Vec<String> = text.lines().map(|l| l.to_string()).collect();
        assert_eq!(split_lines(text), expected, "{text:?}");
    }
}

#[test]
fn text_is_searched_for_a_part() {
    assert!(contains_text("/usr/lib/gcc/liblto_plugin.so", "liblto_plugin"));
    assert!(contains_text("liblto_plugin", "liblto_plugin"));
    assert!(contains_text("abc", ""));
    assert!(contains_text("", ""));
    assert!(contains_text("ab", "b"));
    assert!(!contains_text("liblto_plugi", "liblto_plugin"));
    assert!(!contains_text("", "a"));
    assert!(!contains_text("aab", "aba"));
    assert!(contains_text("aüb", "üb"));
}

#[test]
fn compilers_are_tried_prefix_by_prefix() {
    assert_eq!(compiler_candidates(&Linker::BundledLld), None);
    assert_eq!(compiler_candidates(&Linker::HostCC), Some(strings(&["cc", "gcc", "clang"])));
    assert_eq!(
        compiler_candidates(&Linker::CrossCC(&["aarch64-linux-gnu-", "arm-"])),
        Some(strings(&[
            "aarch64-linux-gnu-cc",
            "aarch64-linux-gnu-gcc",
            "aarch64-linux-gnu-clang",
            "arm-cc",
            "arm-gcc",
            "arm-clang"
        ]))
    );
    assert_eq!(compiler_candidates(&Linker::CrossCC(&[])), Some(vec![]));
}

fn targets() -> Vec<Target> {
    vec![
        Target { triple: "bare".to_string(), linker: Linker::BundledLld, rustflags: strings(&["-g"]) },
        Target { triple: "host".to_string(), linker: Linker::HostCC, rustflags: strings(&["-g"]) },
        Target { triple: "cross".to_string(), linker: Linker::CrossCC(&["arm-"]), rustflags: vec![] },
    ]
}

fn all_files(_: &Vec<String>) -> bool {
    true
}

#[test]
fn first_working_compiler_of_each_target_is_taken() {
    let mut reporter = Vec::new();
    let mut list = targets();
    let probe = |triple: &str, name: &str| match (triple, name) {
        ("host", "gcc") => Ok(Ok(strings(&["ld", "-plugin", "/usr/lib/liblto_plugin.so"]))),
        ("cross", "arm-clang") => Ok(Ok(strings(&["ld", "-o"]))),
        _ => Ok(Err(format!("no {name}"))),
    };
    let res = check_and_add_rustflags(&mut reporter, SELFTEST_TARGET, &mut list, false, false, all_files, probe);
    assert_eq!(res, Ok(()));
    assert_eq!(list[0].rustflags, strings(&["-g"]));
    assert_eq!(list[1].rustflags, strings(&["-g", "-Clinker=gcc", "-Clink-arg=-fno-lto"]));
    assert_eq!(list[2].rustflags, strings(&["-Clinker=arm-clang"]));
    assert_eq!(
        reporter,
        vec![
            Report::Success("bundled linker detected".to_string()),
            Report::Success("bundled linker-wrapper detected".to_string()),
            Report::Skipped("Target `bare` does not require a C compiler".to_string()),
            Report::Success("Found C compiler `gcc` for target `host`".to_string()),
            Report::Success("Found C compiler `arm-clang` for target `cross`".to_string()),
        ]
    );
}

#[test]
fn notes_tell_of_failures_and_of_linker_arguments() {
    let mut reporter = Vec::new();
    let mut list = vec![Target { triple: "host".to_string(), linker: Linker::HostCC, rustflags: vec![] }];
    let probe = |_: &str, name: &str| match name {
        "gcc" => Ok(Ok(strings(&["ld", "a \"b\""]))),
        _ => Ok(Err(format!("no {name}"))),
    };
    let res = check_and_add_rustflags(&mut reporter, SELFTEST_TARGET, &mut list, true, true, all_files, probe);
    assert_eq!(res, Ok(()));
    assert_eq!(list[0].rustflags, strings(&["-Clinker=gcc"]));
    assert_eq!(
        reporter[2..],
        [
            Report::Note("`cc` failed with no cc".to_string()),
            Report::Success("Found C compiler `gcc` for target `host`".to_string()),
            Report::Note("`gcc` provides argument \"ld\"".to_string()),
            Report::Note("`gcc` provides argument \"a \\\"b\\\"\"".to_string()),
        ]
    );
}

#[test]
fn target_without_a_working_compiler_fails_the_check() {
    let mut reporter = Vec::new();
    let mut list = targets();
    let probe = |triple: &str, _: &str| match triple {
        "host" => Ok(Ok(strings(&["ld"]))),
        _ => Ok(Err("broken".to_string())),
    };
    let res = check_and_add_rustflags(&mut reporter, SELFTEST_TARGET, &mut list, false, false, all_files, probe);
    assert_eq!(res, Err(Error::SuitableCCompilerNotFound { target: "cross".to_string() }));
    assert_eq!(list[1].rustflags, strings(&["-g", "-Clinker=cc"]));
    assert!(list[2].rustflags.is_empty());
}

#[test]
fn missing_bundled_linker_or_failed_probe_ends_the_check() {
    let mut reporter = Vec::new();
    let mut list = targets();
    let probe = |_: &str, _: &str| Ok(Ok(strings(&["ld"])));
    let res = check_and_add_rustflags(&mut reporter, SELFTEST_TARGET, &mut list, false, false, |_: &Vec<String>| false, probe);
    assert_eq!(res, Err(Error::BundledLinkerMissing));
    assert!(reporter.is_empty());
    let no_wrapper = |p: &Vec<String>| p.last().map(|s| s.as_str()) == Some("rust-lld");
    let res = check_and_add_rustflags(&mut reporter, SELFTEST_TARGET, &mut list, false, false, no_wrapper, probe);
    assert_eq!(res, Err(Error::BundledLinkerMissing));
    assert_eq!(reporter, vec![Report::Success("bundled linker detected".to_string())]);

    let no_temp = |_: &str, _: &str| {
        Err(Error::TemporaryCompilationDirectoryCreationFailed { error: "denied".to_string() })
    };
    let res = check_and_add_rustflags(&mut reporter, SELFTEST_TARGET, &mut list, false, false, all_files, no_temp);
    assert_eq!(res, Err(Error::TemporaryCompilationDirectoryCreationFailed { error: "denied".to_string() }));
    assert_eq!(list[1].rustflags, strings(&["-g"]));
}
