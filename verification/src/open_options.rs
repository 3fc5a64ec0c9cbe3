//! A check of chains of calls that set the options for opening a file: it
//! finds options that are set twice and options that make no sense together.

use vstd::prelude::*;
use vstd::string::StrSliceExecFns;

verus! {

/// What is known of the argument of a call that sets an option.
#[derive(Debug, PartialEq, Eq, Clone, Copy, Structural)]
pub enum Argument {
    True,
    False,
    Unknown,
}

/// An option for opening a file.
#[derive(Debug, PartialEq, Eq, Clone, Copy, Structural)]
pub enum OpenOption {
    Write,
    Read,
    Truncate,
    Create,
    Append,
}

/// The first argument of a method call, as far as the check looks at it.
#[derive(Debug, PartialEq, Eq, Clone, Copy, Structural)]
pub enum FirstArgument {
    /// A literal `true` or `false`.
    Bool(bool),
    /// A literal of another type.
    OtherLiteral,
    /// Anything but a literal.
    Other,
}

/// One call in a chain of method calls.
#[derive(Debug, PartialEq, Eq, Clone)]
pub struct MethodCall {
    /// The name of the method.
    pub name: String,
    /// Whether the receiver is a set of options for opening a file.
    pub on_open_options: bool,
    /// The first argument, if the call has any.
    pub first_argument: Option<FirstArgument>,
}

/// What the check finds fault with.
#[derive(Debug, PartialEq, Eq, Clone, Copy, Structural)]
pub enum Finding {
    /// The option is set more than once.
    CalledMoreThanOnce(OpenOption),
    /// The file is truncated though it is opened for reading only.
    TruncateAndRead,
    /// The file is truncated though it is opened for appending.
    AppendAndTruncate,
}

impl Finding {
    /// The finding in words.
    pub fn message(self) -> (text: &'static str)
        ensures
            text@ == (match self {
                Finding::CalledMoreThanOnce(OpenOption::Create) => "the method `create` is called more than once"@,
                Finding::CalledMoreThanOnce(OpenOption::Append) => "the method `append` is called more than once"@,
                Finding::CalledMoreThanOnce(OpenOption::Truncate) => "the method `truncate` is called more than once"@,
                Finding::CalledMoreThanOnce(OpenOption::Read) => "the method `read` is called more than once"@,
                Finding::CalledMoreThanOnce(OpenOption::Write) => "the method `write` is called more than once"@,
                Finding::TruncateAndRead => "file opened with `truncate` and `read`"@,
                Finding::AppendAndTruncate => "file opened with `append` and `truncate`"@,
            }),
    {
        match self {
            Finding::CalledMoreThanOnce(OpenOption::Create) => "the method `create` is called more than once",
            Finding::CalledMoreThanOnce(OpenOption::Append) => "the method `append` is called more than once",
            Finding::CalledMoreThanOnce(OpenOption::Truncate) => "the method `truncate` is called more than once",
            Finding::CalledMoreThanOnce(OpenOption::Read) => "the method `read` is called more than once",
            Finding::CalledMoreThanOnce(OpenOption::Write) => "the method `write` is called more than once",
            Finding::TruncateAndRead => "file opened with `truncate` and `read`",
            Finding::AppendAndTruncate => "file opened with `append` and `truncate`",
        }
    }
}

/// The option that a method of the given name sets, if it sets any.
pub open spec fn option_named(name: Seq<char>) -> Option<OpenOption> {
    if name == "create"@ {
        Some(OpenOption::Create)
    } else if name == "append"@ {
        Some(OpenOption::Append)
    } else if name == "truncate"@ {
        Some(OpenOption::Truncate)
    } else if name == "read"@ {
        Some(OpenOption::Read)
    } else if name == "write"@ {
        Some(OpenOption::Write)
    } else {
        None
    }
}

/// What a first argument says of the value of an option; nothing where it
/// is a literal that is no boolean.
pub open spec fn argument_of(first: FirstArgument) -> Option<Argument> {
    match first {
        FirstArgument::Bool(true) => Some(Argument::True),
        FirstArgument::Bool(false) => Some(Argument::False),
        FirstArgument::OtherLiteral => None,
        FirstArgument::Other => Some(Argument::Unknown),
    }
}

/// The options that the calls `chain[from..]` set, outermost call first.
///
/// The chain is followed as long as its calls are made on options for
/// opening a file and have an argument that is no literal of another type
/// than `bool`.
pub open spec fn options_set(chain: Seq<MethodCall>, from: int) -> Seq<(OpenOption, Argument)>
    decreases chain.len() - from,
{
    if from < 0 || from >= chain.len() {
        seq![]
    } else {
        let call = chain[from];
        if call.on_open_options && call.first_argument is Some && argument_of(
            call.first_argument->0,
        ) is Some {
            let rest = options_set(chain, from + 1);
            match option_named(call.name@) {
                Some(option) => seq![(option, argument_of(call.first_argument->0)->0)] + rest,
                None => rest,
            }
        } else {
            seq![]
        }
    }
}

fn option_of_name(name: &str) -> (r: Option<OpenOption>)
    ensures
        r == option_named(name@),
{
    if same_text(name, "create") {
        Some(OpenOption::Create)
    } else if same_text(name, "append") {
        Some(OpenOption::Append)
    } else if same_text(name, "truncate") {
        Some(OpenOption::Truncate)
    } else if same_text(name, "read") {
        Some(OpenOption::Read)
    } else if same_text(name, "write") {
        Some(OpenOption::Write)
    } else {
        None
    }
}

fn same_text(a: &str, b: &str) -> (r: bool)
    ensures
        r == (a@ == b@),
{
    let n = a.unicode_len();
    if n != b.unicode_len() {
        return false;
    }
    let mut i: usize = 0;
    while i < n
        invariant
            n == a@.len(),
            n == b@.len(),
            i <= n,
            forall|k: int| 0 <= k < i ==> a@[k] == b@[k],
        decreases n - i,
    {
        if a.get_char(i) != b.get_char(i) {
            return false;
        }
        i = i + 1;
    }
    assert(a@ =~= b@);
    true
}

/// Collects the options that a chain of calls sets, outermost call first.
pub fn get_open_options(chain: &Vec<MethodCall>, options: &mut Vec<(OpenOption, Argument)>)
    ensures
        final(options)@ == old(options)@ + options_set(chain@, 0),
{
    let ghost start = options@;
    let mut i: usize = 0;
    let mut followed = true;
    assert(options@ =~= start + seq![]);
    while followed && i < chain.len()
        invariant
            i <= chain@.len(),
            followed ==> start + options_set(chain@, 0) == options@ + options_set(chain@, i as int),
            !followed ==> options@ == start + options_set(chain@, 0),
        decreases chain@.len() - i, if followed { 1int } else { 0int },
    {
        let call = &chain[i];
        let argument = match call.first_argument {
            Some(FirstArgument::Bool(true)) => Some(Argument::True),
            Some(FirstArgument::Bool(false)) => Some(Argument::False),
            Some(FirstArgument::Other) => Some(Argument::Unknown),
            Some(FirstArgument::OtherLiteral) => None,
            None => None,
        };
        let ghost before = options@;
        let ghost rest = options_set(chain@, i + 1);
        match argument {
            Some(argument) if call.on_open_options => {
                match option_of_name(call.name.as_str()) {
                    Some(option) => {
                        options.push((option, argument));
                        assert(options@ + rest =~= before + (seq![(option, argument)] + rest));
                    },
                    None => {},
                }
                i = i + 1;
            },
            _ => {
                followed = false;
                assert(before + seq![] =~= before);
            },
        }
    }
    assert(options@ + seq![] =~= options@);
}

/// Whether one of the first `upto` of `options` sets `option`.
pub open spec fn is_set(options: Seq<(OpenOption, Argument)>, option: OpenOption, upto: int) -> bool {
    exists|j: int| 0 <= j < upto && j < options.len() && (#[trigger] options[j]).0 == option
}

/// Whether one of `options` sets `option` to `true`.
pub open spec fn is_switched_on(options: Seq<(OpenOption, Argument)>, option: OpenOption) -> bool {
    exists|j: int| 0 <= j < options.len() && #[trigger] options[j] == (option, Argument::True)
}

/// For every one of the first `upto` of `options` that sets an option which
/// an earlier one sets as well, the finding that the option is set more than
/// once, in the order of the options.
pub open spec fn repeated_options(options: Seq<(OpenOption, Argument)>, upto: nat) -> Seq<Finding>
    decreases upto,
{
    if upto == 0 {
        seq![]
    } else {
        let before = repeated_options(options, (upto - 1) as nat);
        if is_set(options, options[upto - 1].0, upto - 1) {
            before.push(Finding::CalledMoreThanOnce(options[upto - 1].0))
        } else {
            before
        }
    }
}

/// The findings about options that make no sense together: truncating a
/// file that is opened for reading and not for writing, and truncating a
/// file that is opened for appending.
pub open spec fn senseless_combinations(options: Seq<(OpenOption, Argument)>) -> Seq<Finding> {
    let truncate_and_read: Seq<Finding> = if is_switched_on(options, OpenOption::Read)
        && is_switched_on(options, OpenOption::Truncate) && !is_switched_on(
        options,
        OpenOption::Write,
    ) {
        seq![Finding::TruncateAndRead]
    } else {
        seq![]
    };
    let append_and_truncate: Seq<Finding> = if is_switched_on(options, OpenOption::Append)
        && is_switched_on(options, OpenOption::Truncate) {
        seq![Finding::AppendAndTruncate]
    } else {
        seq![]
    };
    truncate_and_read + append_and_truncate
}

/// All findings about `options`.
pub open spec fn findings(options: Seq<(OpenOption, Argument)>) -> Seq<Finding> {
    repeated_options(options, options.len()) + senseless_combinations(options)
}

/// Finds the options that are set more than once and the options that make
/// no sense together.
pub fn check_open_options(options: &Vec<(OpenOption, Argument)>) -> (found: Vec<Finding>)
    ensures
        found@ == findings(options@),
{
    let mut found: Vec<Finding> = Vec::new();
    let (mut create, mut append, mut truncate, mut read, mut write) = (
        false,
        false,
        false,
        false,
        false,
    );
    let (mut create_arg, mut append_arg, mut truncate_arg, mut read_arg, mut write_arg) = (
        false,
        false,
        false,
        false,
        false,
    );
    let mut i: usize = 0;
    while i < options.len()
        invariant
            i <= options@.len(),
            found@ == repeated_options(options@, i as nat),
            create == is_set(options@, OpenOption::Create, i as int),
            append == is_set(options@, OpenOption::Append, i as int),
            truncate == is_set(options@, OpenOption::Truncate, i as int),
            read == is_set(options@, OpenOption::Read, i as int),
            write == is_set(options@, OpenOption::Write, i as int),
            create_arg == is_switched_on(options@.take(i as int), OpenOption::Create),
            append_arg == is_switched_on(options@.take(i as int), OpenOption::Append),
            truncate_arg == is_switched_on(options@.take(i as int), OpenOption::Truncate),
            read_arg == is_switched_on(options@.take(i as int), OpenOption::Read),
            write_arg == is_switched_on(options@.take(i as int), OpenOption::Write),
        decreases options@.len() - i,
    {
        let (option, arg) = options[i];
        let on = match arg {
            Argument::True => true,
            _ => false,
        };
        proof {
            lemma_one_more(options@, i as int, OpenOption::Create);
            lemma_one_more(options@, i as int, OpenOption::Append);
            lemma_one_more(options@, i as int, OpenOption::Truncate);
            lemma_one_more(options@, i as int, OpenOption::Read);
            lemma_one_more(options@, i as int, OpenOption::Write);
        }
        match option {
            OpenOption::Create => {
                if create {
                    found.push(Finding::CalledMoreThanOnce(OpenOption::Create));
                } else {
                    create = true;
                }
                create_arg = create_arg || on;
            },
            OpenOption::Append => {
                if append {
                    found.push(Finding::CalledMoreThanOnce(OpenOption::Append));
                } else {
                    append = true;
                }
                append_arg = append_arg || on;
            },
            OpenOption::Truncate => {
                if truncate {
                    found.push(Finding::CalledMoreThanOnce(OpenOption::Truncate));
                } else {
                    truncate = true;
                }
                truncate_arg = truncate_arg || on;
            },
            OpenOption::Read => {
                if read {
                    found.push(Finding::CalledMoreThanOnce(OpenOption::Read));
                } else {
                    read = true;
                }
                read_arg = read_arg || on;
            },
            OpenOption::Write => {
                if write {
                    found.push(Finding::CalledMoreThanOnce(OpenOption::Write));
                } else {
                    write = true;
                }
                write_arg = write_arg || on;
            },
        }
        i = i + 1;
    }
    assert(options@.take(options@.len() as int) =~= options@);
    let ghost repeated = found@;
    if read && truncate && read_arg && truncate_arg && !(write && write_arg) {
        found.push(Finding::TruncateAndRead);
    }
    if append && truncate && append_arg && truncate_arg {
        found.push(Finding::AppendAndTruncate);
    }
    assert(found@ =~= repeated + senseless_combinations(options@));
    found
}

/// What one more option adds to those that are set and to those that are
/// switched on.
proof fn lemma_one_more(options: Seq<(OpenOption, Argument)>, i: int, option: OpenOption)
    requires
        0 <= i < options.len(),
    ensures
        is_set(options, option, i + 1) == (is_set(options, option, i) || options[i].0 == option),
        is_switched_on(options.take(i + 1), option) == (is_switched_on(options.take(i), option)
            || options[i] == (option, Argument::True)),
{
    let shorter = options.take(i);
    let longer = options.take(i + 1);
    if is_set(options, option, i) {
        let j = choose|j: int| 0 <= j < i && j < options.len() && (#[trigger] options[j]).0 == option;
        assert(options[j].0 == option);
    }
    if options[i].0 == option {
        assert(is_set(options, option, i + 1));
    }
    if is_switched_on(shorter, option) {
        let j = choose|j: int| 0 <= j < shorter.len() && #[trigger] shorter[j] == (option, Argument::True);
        assert(longer[j] == (option, Argument::True));
    }
    if options[i] == (option, Argument::True) {
        assert(longer[i] == (option, Argument::True));
    }
    if is_switched_on(longer, option) {
        let j = choose|j: int| 0 <= j < longer.len() && #[trigger] longer[j] == (option, Argument::True);
        if j < i {
            assert(shorter[j] == (option, Argument::True));
        }
    }
}

/// Checks the options that a chain of calls sets, where the chain ends in a
/// method of the options for opening a file.
pub fn check(is_open_options_method: bool, chain: &Vec<MethodCall>) -> (found: Vec<Finding>)
    ensures
        found@ == if is_open_options_method {
            findings(options_set(chain@, 0))
        } else {
            seq![]
        },
{
    if is_open_options_method {
        let mut options = Vec::new();
        get_open_options(chain, &mut options);
        assert(options@ =~= options_set(chain@, 0));
        check_open_options(&options)
    } else {
        Vec::new()
    }
}

} // verus!
