//! Checks that the linkers a toolchain needs are at hand: the linker bundled
//! with the toolchain, and a working C compiler for every target that links
//! through one.
//!
//! Whatever touches the file system or runs a program is handed in as a
//! closure; the checks decide what to look for, in what order, and what
//! follows from the answers.

use vstd::prelude::*;
use vstd::string::StrSliceExecFns;
use vstd::string::StringExecFns;

verus! {

/// What kind of C compiler does a target require
#[derive(Debug)]
pub enum Linker {
    /// No C compiler required
    BundledLld,
    /// The system's native C compiler is required
    HostCC,
    /// Some kind of cross compiler, with one of the given target prefixes
    CrossCC(&'static [&'static str]),
}

/// A line of the report of a check.
#[derive(Clone, Debug, PartialEq, Eq)]
pub enum Report {
    Success(String),
    Skipped(String),
    Note(String),
}

/// Why a program was not found on the search path.
#[derive(Clone, Debug, PartialEq, Eq)]
pub enum FindBinaryInPathError {
    MissingBinary { name: String },
    NoEnvironmentVariable,
}

/// Why a check failed.
#[allow(inconsistent_fields)]
#[derive(Clone, Debug, PartialEq, Eq)]
pub enum Error {
    BundledLinkerMissing,
    CCompilerNotFound { name: String, error: FindBinaryInPathError },
    SuitableCCompilerNotFound { target: String },
    LinkerArgsError { target: String },
    TemporaryCompilationDirectoryCreationFailed { error: String },
    WritingSampleProgramFailed { name: String, dest: String, error: String },
    SampleProgramCompilationFailed { name: String, error: String },
}

/// A target of the toolchain, with the flags that the compiler is given for
/// it.
#[derive(Debug)]
pub struct Target {
    pub triple: String,
    pub linker: Linker,
    pub rustflags: Vec<String>,
}

/// The characters of every string of a list.
pub open spec fn texts(list: Seq<String>) -> Seq<Seq<char>> {
    list.map_values(|text: String| text@)
}

/// The place of a program of the toolchain for `target`, below the root of
/// the toolchain: `lib/rustlib/<target>/bin/`, then `tail`.
pub open spec fn bundled_program_path(target: Seq<char>, tail: Seq<Seq<char>>) -> Seq<Seq<char>> {
    seq!["lib"@, "rustlib"@, target, "bin"@] + tail
}

/// The report `after` is the report `before` with one more line, which
/// tells of a success in the words `text`.
pub open spec fn reports_success(before: Seq<Report>, after: Seq<Report>, text: Seq<char>) -> bool {
    &&& after.len() == before.len() + 1
    &&& after.drop_last() == before
    &&& after.last() matches Report::Success(line) && line@ == text
}

fn bundled_bin_dir(target: &str) -> (path: Vec<String>)
    ensures
        texts(path@) == bundled_program_path(target@, seq![]),
{
    let mut path: Vec<String> = Vec::new();
    path.push(String::from_str("lib"));
    path.push(String::from_str("rustlib"));
    path.push(String::from_str(target));
    path.push(String::from_str("bin"));
    assert(texts(path@) =~= bundled_program_path(target@, seq![]));
    path
}

/// Look for the bundled `rust-lld` program in the given sysroot.
///
/// `is_file` tells whether the path with the given components below the
/// sysroot is a file. The path is returned, and its discovery reported,
/// where it is one.
pub fn find_bundled_lld<F: Fn(&Vec<String>) -> bool>(
    reporter: &mut Vec<Report>,
    target: &str,
    is_file: F,
) -> (res: Result<Vec<String>, Error>)
    requires
        forall|path: &Vec<String>| call_requires(is_file, (path,)),
    ensures
        match res {
            Ok(path) => texts(path@) == bundled_program_path(target@, seq!["rust-lld"@])
                && call_ensures(is_file, (&path,), true) && reports_success(
                old(reporter)@,
                final(reporter)@,
                "bundled linker detected"@,
            ),
            Err(e) => e == Error::BundledLinkerMissing && final(reporter)@ == old(reporter)@
                && exists|path: Vec<String>|
                texts(path@) == bundled_program_path(target@, seq!["rust-lld"@]) && #[trigger] call_ensures(
                    is_file,
                    (&path,),
                    false,
                ),
        },
{
    let mut path = bundled_bin_dir(target);
    path.push(String::from_str("rust-lld"));
    assert(texts(path@) =~= bundled_program_path(target@, seq!["rust-lld"@]));
    if is_file(&path) {
        reporter.push(Report::Success(String::from_str("bundled linker detected")));
        assert(reporter@.drop_last() =~= old(reporter)@);
        Ok(path)
    } else {
        Err(Error::BundledLinkerMissing)
    }
}

/// Look for the bundled `ld.lld` linker wrapper program in the given sysroot.
///
/// `is_file` tells whether the path with the given components below the
/// sysroot is a file. The path is returned, and its discovery reported,
/// where it is one.
pub fn find_bundled_lld_wrapper<F: Fn(&Vec<String>) -> bool>(
    reporter: &mut Vec<Report>,
    target: &str,
    is_file: F,
) -> (res: Result<Vec<String>, Error>)
    requires
        forall|path: &Vec<String>| call_requires(is_file, (path,)),
    ensures
        match res {
            Ok(path) => texts(path@) == bundled_program_path(
                target@,
                seq!["gcc-ld"@, "ld.lld"@],
            ) && call_ensures(is_file, (&path,), true) && reports_success(
                old(reporter)@,
                final(reporter)@,
                "bundled linker-wrapper detected"@,
            ),
            Err(e) => e == Error::BundledLinkerMissing && final(reporter)@ == old(reporter)@
                && exists|path: Vec<String>|
                texts(path@) == bundled_program_path(target@, seq!["gcc-ld"@, "ld.lld"@])
                    && #[trigger] call_ensures(is_file, (&path,), false),
        },
{
    let mut path = bundled_bin_dir(target);
    path.push(String::from_str("gcc-ld"));
    path.push(String::from_str("ld.lld"));
    assert(texts(path@) =~= bundled_program_path(target@, seq!["gcc-ld"@, "ld.lld"@]));
    if is_file(&path) {
        reporter.push(Report::Success(String::from_str("bundled linker-wrapper detected")));
        assert(reporter@.drop_last() =~= old(reporter)@);
        Ok(path)
    } else {
        Err(Error::BundledLinkerMissing)
    }
}

/// The line of `text` that begins at `start` and ends before `end`, without
/// the carriage return that may end it.
pub open spec fn line_between(text: Seq<char>, start: int, end: int) -> Seq<char> {
    if start < end && text[end - 1] == '\r' {
        text.subrange(start, end - 1)
    } else {
        text.subrange(start, end)
    }
}

/// The lines of the first `upto` characters of `text`, as far as they are
/// ended by a line feed, and the place where the next line begins.
pub open spec fn ended_lines(text: Seq<char>, upto: nat) -> (Seq<Seq<char>>, int)
    decreases upto,
{
    if upto == 0 {
        (seq![], 0)
    } else {
        let (lines, start) = ended_lines(text, (upto - 1) as nat);
        if text[upto - 1] == '\n' {
            (lines.push(line_between(text, start, upto - 1)), upto as int)
        } else {
            (lines, start)
        }
    }
}

/// The lines of `text`. A line ends at a line feed, or at a carriage return
/// followed by one; the last line need not be ended.
pub open spec fn lines_of(text: Seq<char>) -> Seq<Seq<char>> {
    let (lines, start) = ended_lines(text, text.len());
    if start < text.len() {
        lines.push(text.subrange(start, text.len() as int))
    } else {
        lines
    }
}

/// Splits `text` into its lines.
pub fn split_lines(text: &str) -> (lines: Vec<String>)
    ensures
        texts(lines@) == lines_of(text@),
{
    let len = text.unicode_len();
    let mut lines: Vec<String> = Vec::new();
    let mut start: usize = 0;
    let mut i: usize = 0;
    assert(texts(lines@) =~= seq![]);
    while i < len
        invariant
            len == text@.len(),
            i <= len,
            start <= i,
            (texts(lines@), start as int) == ended_lines(text@, i as nat),
        decreases len - i,
    {
        if text.get_char(i) == '\n' {
            let end = if start < i && text.get_char(i - 1) == '\r' {
                i - 1
            } else {
                i
            };
            let ghost before = lines@;
            lines.push(String::from_str(text.substring_char(start, end)));
            assert(texts(lines@) =~= texts(before).push(line_between(text@, start as int, i as int)));
            start = i + 1;
        }
        i = i + 1;
    }
    if start < len {
        let ghost before = lines@;
        lines.push(String::from_str(text.substring_char(start, len)));
        assert(texts(lines@) =~= texts(before).push(text@.subrange(start as int, len as int)));
    }
    lines
}

/// Reads the arguments that a compiler gave to the linker from what the
/// stand-in linker wrote down, one argument per line.
///
/// `captured` is the text that was written, if it could be read. Nothing
/// readable, or no line at all, is an error for `target`.
pub fn check_compiler_linker_args(target: &str, captured: Option<&str>) -> (res: Result<
    Vec<String>,
    Error,
>)
    ensures
        match res {
            Ok(args) => captured matches Some(text) && texts(args@) == lines_of(text@)
                && args@.len() > 0,
            Err(e) => (e matches Error::LinkerArgsError { target: name } && name@ == target@) && (
            captured matches Some(text) ==> lines_of(text@).len() == 0),
        },
{
    let text = match captured {
        Some(text) => text,
        None => {
            return Err(Error::LinkerArgsError { target: String::from_str(target) });
        },
    };
    let args = split_lines(text);
    if args.len() == 0 {
        return Err(Error::LinkerArgsError { target: String::from_str(target) });
    }
    Ok(args)
}

/// Check if the given system C compiler works.
///
/// The compiler is looked up by name, made to build a program with the real
/// linker, and then made to call a stand-in linker that writes down the
/// arguments it is given. Returns the path to the C compiler, and the list
/// of arguments that the C compiler gives to the linker.
///
/// `find_binary_in_path` looks a program up by name. `cross_compile` builds
/// the sample program with the compiler at the given path, through the
/// stand-in linker if the flag is set. `make_fake_linker` builds the
/// stand-in linker and returns the file that it writes to, and
/// `read_captured` reads that file.
pub fn check_system_compiler<F1, F2, F3, F4>(
    target: &str,
    compiler_name: &str,
    find_binary_in_path: F1,
    cross_compile: F2,
    make_fake_linker: F3,
    read_captured: F4,
) -> (res: Result<(String, Vec<String>), Error>) where
    F1: Fn(&str) -> Result<String, FindBinaryInPathError>,
    F2: Fn(&String, bool) -> Result<(), Error>,
    F3: Fn() -> Result<String, Error>,
    F4: Fn(&String) -> Option<String>,

    requires
        forall|name: &str| call_requires(find_binary_in_path, (name,)),
        forall|path: &String, fake: bool| call_requires(cross_compile, (path, fake)),
        call_requires(make_fake_linker, ()),
        forall|path: &String| call_requires(read_captured, (path,)),
    ensures
        match res {
            Ok((cc_path, args)) => call_ensures(find_binary_in_path, (compiler_name,), Ok(cc_path))
                && call_ensures(cross_compile, (&cc_path, false), Ok(())) && call_ensures(
                cross_compile,
                (&cc_path, true),
                Ok(()),
            ) && args@.len() > 0 && exists|file: String, text: String|
                call_ensures(make_fake_linker, (), Ok(file)) && #[trigger] call_ensures(
                    read_captured,
                    (&file,),
                    Some(text),
                ) && texts(args@) == lines_of(text@),
            Err(e) => (e matches Error::CCompilerNotFound { name, error } && name@
                == compiler_name@ && call_ensures(find_binary_in_path, (compiler_name,), Err(error)))
                || exists|cc_path: String| #[trigger]
                call_ensures(find_binary_in_path, (compiler_name,), Ok(cc_path)) && (call_ensures(
                    cross_compile,
                    (&cc_path, false),
                    Err(e),
                ) || call_ensures(make_fake_linker, (), Err(e)) || call_ensures(
                    cross_compile,
                    (&cc_path, true),
                    Err(e),
                ) || (e matches Error::LinkerArgsError { target: name } && name@ == target@)),
        },
{
    let cc_path = match find_binary_in_path(compiler_name) {
        Ok(path) => path,
        Err(error) => {
            return Err(Error::CCompilerNotFound { name: String::from_str(compiler_name), error });
        },
    };
    let built = cross_compile(&cc_path, false);
    match built {
        Ok(unit) => {
            assert(unit == ());
            assert(built == Ok::<(), Error>(()));
        },
        Err(e) => {
            return Err(e);
        },
    }
    let args_file = match make_fake_linker() {
        Ok(file) => file,
        Err(e) => {
            return Err(e);
        },
    };
    let rebuilt = cross_compile(&cc_path, true);
    match rebuilt {
        Ok(unit) => {
            assert(unit == ());
            assert(rebuilt == Ok::<(), Error>(()));
        },
        Err(e) => {
            return Err(e);
        },
    }
    let captured = read_captured(&args_file);
    let text = match captured {
        Some(text) => text,
        None => {
            return Err(Error::LinkerArgsError { target: String::from_str(target) });
        },
    };
    let linker_args = match check_compiler_linker_args(target, Some(text.as_str())) {
        Ok(args) => args,
        Err(e) => {
            return Err(e);
        },
    };
    proof {
        assert(call_ensures(find_binary_in_path, (compiler_name,), Ok(cc_path)));
        assert(call_ensures(cross_compile, (&cc_path, false), Ok(())));
        assert(call_ensures(cross_compile, (&cc_path, true), Ok(())));
        assert(call_ensures(make_fake_linker, (), Ok(args_file)));
        assert(call_ensures(read_captured, (&args_file,), Some(text)));
        assert(texts(linker_args@) == lines_of(text@));
    }
    Ok((cc_path, linker_args))
}

/// Whether `part` occurs in `text`.
pub open spec fn has_substring(text: Seq<char>, part: Seq<char>) -> bool {
    exists|i: int| 0 <= i <= text.len() - part.len() && #[trigger] text.subrange(
        i,
        i + part.len(),
    ) == part
}

fn occurs_at(text: &str, part: &str, i: usize) -> (r: bool)
    requires
        i + part@.len() <= text@.len(),
    ensures
        r == (text@.subrange(i as int, i + part@.len()) == part@),
{
    let n = text.unicode_len();
    let m = part.unicode_len();
    let mut j: usize = 0;
    while j < m
        invariant
            n == text@.len(),
            m == part@.len(),
            i + m <= n,
            j <= m,
            forall|k: int| 0 <= k < j ==> text@[i + k] == part@[k],
        decreases m - j,
    {
        if text.get_char(i + j) != part.get_char(j) {
            assert(text@.subrange(i as int, i + m)[j as int] != part@[j as int]);
            return false;
        }
        j = j + 1;
    }
    assert(text@.subrange(i as int, i + m) =~= part@);
    true
}

/// Tests whether `part` occurs in `text`.
pub fn contains_text(text: &str, part: &str) -> (r: bool)
    ensures
        r == has_substring(text@, part@),
{
    let n = text.unicode_len();
    let m = part.unicode_len();
    if m > n {
        return false;
    }
    let last = n - m;
    let mut i: usize = 0;
    while i < last
        invariant
            n == text@.len(),
            m == part@.len(),
            last == n - m,
            i <= last,
            forall|k: int| 0 <= k < i ==> #[trigger] text@.subrange(k, k + m) != part@,
        decreases last - i,
    {
        if occurs_at(text, part, i) {
            return true;
        }
        i = i + 1;
    }
    occurs_at(text, part, last)
}

/// The flags with which the compiler is told to link through the C compiler
/// `name`: the compiler as linker and, where one of the arguments `args`
/// that it gives to the linker names the plugin for link-time optimisation,
/// that optimisation switched off.
pub open spec fn linker_flags(name: Seq<char>, args: Seq<Seq<char>>) -> Seq<Seq<char>> {
    if exists|i: int| 0 <= i < args.len() && has_substring(#[trigger] args[i], "liblto_plugin"@) {
        seq!["-Clinker="@ + name, "-Clink-arg=-fno-lto"@]
    } else {
        seq!["-Clinker="@ + name]
    }
}

/// Adds the flags for linking through the C compiler `compiler_name` to
/// `rustflags`.
pub fn add_linker_flags(rustflags: &mut Vec<String>, compiler_name: &str, args: &Vec<String>)
    ensures
        texts(final(rustflags)@) == texts(old(rustflags)@) + linker_flags(
            compiler_name@,
            texts(args@),
        ),
{
    let mut need_no_lto = false;
    let mut i: usize = 0;
    while i < args.len()
        invariant
            i <= args@.len(),
            need_no_lto == exists|k: int|
                0 <= k < i && has_substring(#[trigger] texts(args@)[k], "liblto_plugin"@),
        decreases args@.len() - i,
    {
        if contains_text(args[i].as_str(), "liblto_plugin") {
            need_no_lto = true;
            assert(has_substring(texts(args@)[i as int], "liblto_plugin"@));
        }
        i = i + 1;
    }
    let ghost before = rustflags@;
    rustflags.push(String::from_str("-Clinker=").concat(compiler_name));
    if need_no_lto {
        rustflags.push(String::from_str("-Clink-arg=-fno-lto"));
    }
    assert(texts(rustflags@) =~= texts(before) + linker_flags(compiler_name@, texts(args@)));
}

/// The kinds of C compiler that are tried, in this order.
pub open spec fn compiler_kinds() -> Seq<Seq<char>> {
    seq!["cc"@, "gcc"@, "clang"@]
}

/// The names under which a C compiler is looked for: every prefix with every
/// kind, prefix by prefix.
pub open spec fn candidate_names(prefixes: Seq<Seq<char>>) -> Seq<Seq<char>>
    decreases prefixes.len(),
{
    if prefixes.len() == 0 {
        seq![]
    } else {
        candidate_names(prefixes.drop_last()) + seq![
            prefixes.last() + "cc"@,
            prefixes.last() + "gcc"@,
            prefixes.last() + "clang"@,
        ]
    }
}

fn push_candidates(names: &mut Vec<String>, prefix: &str)
    ensures
        texts(final(names)@) == texts(old(names)@) + seq![
            prefix@ + "cc"@,
            prefix@ + "gcc"@,
            prefix@ + "clang"@,
        ],
{
    names.push(String::from_str(prefix).concat("cc"));
    names.push(String::from_str(prefix).concat("gcc"));
    names.push(String::from_str(prefix).concat("clang"));
    assert(texts(names@) =~= texts(old(names)@) + seq![
        prefix@ + "cc"@,
        prefix@ + "gcc"@,
        prefix@ + "clang"@,
    ]);
}

/// The prefixes of the names of the C compilers that can link for `linker`.
pub open spec fn compiler_prefixes(linker: Linker) -> Option<Seq<Seq<char>>> {
    match linker {
        Linker::BundledLld => None,
        Linker::HostCC => Some(seq![""@]),
        Linker::CrossCC(list) => Some(list@.map_values(|prefix: &str| prefix@)),
    }
}

/// The names of the C compilers that are tried for a target that links
/// through `linker`; none where it needs no C compiler.
pub fn compiler_candidates(linker: &Linker) -> (names: Option<Vec<String>>)
    ensures
        match names {
            Some(list) => compiler_prefixes(*linker) matches Some(prefixes) && texts(list@)
                == candidate_names(prefixes),
            None => compiler_prefixes(*linker) is None,
        },
{
    let mut names: Vec<String> = Vec::new();
    match linker {
        Linker::BundledLld => {
            return None;
        },
        Linker::HostCC => {
            push_candidates(&mut names, "");
            proof {
                let prefixes = seq![""@];
                assert(prefixes.drop_last() =~= seq![]);
                assert(candidate_names(prefixes.drop_last()) =~= seq![]);
                assert(prefixes.last() == ""@);
                assert(texts(names@) =~= candidate_names(prefixes));
            }
        },
        Linker::CrossCC(list) => {
            let ghost prefixes = list@.map_values(|prefix: &str| prefix@);
            let mut i: usize = 0;
            assert(prefixes.take(0) =~= seq![]);
            assert(texts(names@) =~= seq![]);
            while i < list.len()
                invariant
                    i <= list@.len(),
                    prefixes == list@.map_values(|prefix: &str| prefix@),
                    texts(names@) == candidate_names(prefixes.take(i as int)),
                decreases list@.len() - i,
            {
                proof {
                    assert(prefixes.take(i + 1).drop_last() =~= prefixes.take(i as int));
                    assert(prefixes.take(i + 1).last() == list@[i as int]@);
                }
                push_candidates(&mut names, list[i]);
                i = i + 1;
            }
            assert(prefixes.take(list@.len() as int) =~= prefixes);
        },
    }
    Some(names)
}

/// The text that the debug format gives for a string.
pub uninterp spec fn debug_text(text: Seq<char>) -> Seq<char>;

/// `alloc::fmt::format` with `{:?}` on a string: the string between double
/// quotes, with the characters escaped that cannot stand there as they are.
/// The contract only gives the result a name.
#[verifier::external_body]
fn debug_quoted(text: &str) -> (quoted: String)
    ensures
        quoted@ == debug_text(text@),
{
    format!("{:?}", text)
}

/// What has become of one target: it is the same target, and its flags are
/// what they were where it needs no C compiler, and else what they were
/// followed by the flags for one of the C compilers that were found to work.
pub open spec fn is_served<P: Fn(&str, &str) -> Result<Result<Vec<String>, String>, Error>>(
    before: Target,
    after: Target,
    probe: P,
) -> bool {
    &&& after.triple == before.triple
    &&& after.linker == before.linker
    &&& match compiler_prefixes(before.linker) {
        None => after.rustflags@ == before.rustflags@,
        Some(prefixes) => exists|triple: &str, name: &str, args: Vec<String>|
            triple@ == before.triple@ && candidate_names(prefixes).contains(name@)
                && #[trigger] call_ensures(probe, (triple, name), Ok(Ok(args))) && texts(
                after.rustflags@,
            ) == texts(before.rustflags@) + linker_flags(name@, texts(args@)),
    }
}

/// Finds a system C compiler for each target and determines what flags should
/// be added when calling `rustc`.
///
/// These flags will include `-Clinker=/path/to/cc` and they will be added to
/// each target's rustflags field.
///
/// `is_file` tells whether a path below the sysroot is a file. `probe` tries
/// a C compiler for a target: it fails where the compiler could not even be
/// tried, and else tells either the arguments that the compiler gives to the
/// linker or why the compiler does not work. The compilers of a target are
/// tried in the order of their names, and the first that works is taken.
pub fn check_and_add_rustflags<F, P>(
    reporter: &mut Vec<Report>,
    host_target: &str,
    targets: &mut Vec<Target>,
    print_linker_args: bool,
    print_detailed_errors: bool,
    is_file: F,
    probe: P,
) -> (res: Result<(), Error>) where
    F: Fn(&Vec<String>) -> bool,
    P: Fn(&str, &str) -> Result<Result<Vec<String>, String>, Error>,

    requires
        forall|path: &Vec<String>| call_requires(is_file, (path,)),
        forall|triple: &str, name: &str| call_requires(probe, (triple, name)),
    ensures
        final(targets)@.len() == old(targets)@.len(),
        old(reporter)@.is_prefix_of(final(reporter)@),
        res is Ok ==> forall|i: int|
            0 <= i < old(targets)@.len() ==> is_served(
                #[trigger] old(targets)@[i],
                final(targets)@[i],
                probe,
            ),
        res matches Err(e) ==> e is BundledLinkerMissing || e is SuitableCCompilerNotFound
            || exists|triple: &str, name: &str| #[trigger]
            call_ensures(probe, (triple, name), Err(e)),
{
    // Step 1. Check we have ld.lld available
    match find_bundled_lld(reporter, host_target, &is_file) {
        Ok(_) => {},
        Err(e) => {
            return Err(e);
        },
    }
    match find_bundled_lld_wrapper(reporter, host_target, &is_file) {
        Ok(_) => {},
        Err(e) => {
            return Err(e);
        },
    }
    // Step 2. Check the C compiler works on each target that needs one
    let count = targets.len();
    let mut t: usize = 0;
    while t < count
        invariant
            old(reporter)@.is_prefix_of(reporter@),
            count == old(targets)@.len(),
            targets@.len() == count,
            t <= count,
            forall|triple: &str, name: &str| call_requires(probe, (triple, name)),
            forall|i: int| 0 <= i < t ==> is_served(#[trigger] old(targets)@[i], targets@[i], probe),
            forall|i: int| t <= i < count ==> targets@[i] == old(targets)@[i],
        decreases count - t,
    {
        let ghost before = targets@[t as int];
        let names = match compiler_candidates(&targets[t].linker) {
            Some(names) => names,
            None => {
                let text = String::from_str("Target `").concat(targets[t].triple.as_str()).concat(
                    "` does not require a C compiler",
                );
                reporter.push(Report::Skipped(text));
                t = t + 1;
                continue ;
            },
        };
        let ghost prefixes = compiler_prefixes(before.linker)->0;
        let mut found = false;
        let mut c: usize = 0;
        while c < names.len() && !found
            invariant
                old(reporter)@.is_prefix_of(reporter@),
                count == old(targets)@.len(),
                targets@.len() == count,
                t < count,
                c <= names@.len(),
                texts(names@) == candidate_names(prefixes),
                compiler_prefixes(before.linker) == Some(prefixes),
                before == old(targets)@[t as int],
                forall|triple: &str, name: &str| call_requires(probe, (triple, name)),
                forall|i: int|
                    0 <= i < t ==> is_served(#[trigger] old(targets)@[i], targets@[i], probe),
                forall|i: int| t < i < count ==> targets@[i] == old(targets)@[i],
                !found ==> targets@[t as int] == before,
                found ==> is_served(before, targets@[t as int], probe),
            decreases names@.len() - c, if found { 0int } else { 1int },
        {
            let compiler_name = names[c].as_str();
            let triple = targets[t].triple.as_str();
            let attempt = probe(triple, compiler_name);
            let outcome = match attempt {
                Ok(outcome) => outcome,
                Err(e) => {
                    return Err(e);
                },
            };
            match outcome {
                Ok(args) => {
                    let text = String::from_str("Found C compiler `").concat(compiler_name).concat(
                        "` for target `",
                    ).concat(targets[t].triple.as_str()).concat("`");
                    reporter.push(Report::Success(text));
                    if print_linker_args {
                        let mut a: usize = 0;
                        while a < args.len()
                            invariant
                                a <= args@.len(),
                                old(reporter)@.is_prefix_of(reporter@),
                            decreases args@.len() - a,
                        {
                            let note = String::from_str("`").concat(compiler_name).concat(
                                "` provides argument ",
                            ).concat(debug_quoted(args[a].as_str()).as_str());
                            reporter.push(Report::Note(note));
                            a = a + 1;
                        }
                    }
                    add_linker_flags(&mut targets[t].rustflags, compiler_name, &args);
                    found = true;
                    proof {
                        assert(texts(names@)[c as int] == names@[c as int]@);
                        assert(candidate_names(prefixes).contains(compiler_name@));
                        assert(call_ensures(probe, (triple, compiler_name), Ok(Ok(args))));
                    }
                },
                Err(why) => {
                    // Try again until we run out of compilers
                    if print_detailed_errors {
                        let note = String::from_str("`").concat(compiler_name).concat(
                            "` failed with ",
                        ).concat(why.as_str());
                        reporter.push(Report::Note(note));
                    }
                    c = c + 1;
                },
            }
        }
        if !found {
            return Err(
                Error::SuitableCCompilerNotFound {
                    target: String::from_str(targets[t].triple.as_str()),
                },
            );
        }
        t = t + 1;
    }
    Ok(())
}

} // verus!
