use instrument_coverage::open_options::{
    check, check_open_options, get_open_options, Argument, Finding, FirstArgument, MethodCall, OpenOption,
};

fn call(name: &str, first_argument: Option<FirstArgument>) -> MethodCall {
    MethodCall { name: name.to_string(), on_open_options: true, first_argument }
}

fn on(name: &str) -> MethodCall {
    call(name, Some(FirstArgument::Bool(true)))
}

fn off(name: &str) -> MethodCall {
    call(name, Some(FirstArgument::Bool(false)))
}

#[test]
fn sensible_options_are_not_found_fault_with() {
    assert_eq!(check_open_options(&vec![]), vec![]);
    assert_eq!(
        check_open_options(&vec![
            (OpenOption::Read, Argument::True),
            (OpenOption::Write, Argument::True),
            (OpenOption::Create, Argument::True),
            (OpenOption::Truncate, Argument::True),
        ]),
        vec![]
    );
    assert_eq!(
        check_open_options(&vec![(OpenOption::Read, Argument::True), (OpenOption::Truncate, Argument::False)]),
        vec![]
    );
    assert_eq!(
        check_open_options(&vec![(OpenOption::Append, Argument::Unknown), (OpenOption::Truncate, Argument::True)]),
        vec![]
    );
}

#[test]
fn option_set_twice_is_found_each_further_time() {
    assert_eq!(
        check_open_options(&vec![
            (OpenOption::Read, Argument::True),
            (OpenOption::Create, Argument::False),
            (OpenOption::Read, Argument::False),
            (OpenOption::Read, Argument::Unknown),
            (OpenOption::Create, Argument::True),
        ]),
        vec![
            Finding::CalledMoreThanOnce(OpenOption::Read),
            Finding::CalledMoreThanOnce(OpenOption::Read),
            Finding::CalledMoreThanOnce(OpenOption::Create),
        ]
    );
    for option in [OpenOption::Write, OpenOption::Read, OpenOption::Truncate, OpenOption::Create, OpenOption::Append] {
        assert_eq!(
            check_open_options(&vec![(option, Argument::False), (option, Argument::False)]),
            vec![Finding::CalledMoreThanOnce(option)]
        );
    }
}

#[test]
fn truncating_what_is_only_read_or_appended_to_is_found() {
    let read = (OpenOption::Read, Argument::True);
    let truncate = (OpenOption::Truncate, Argument::True);
    let append = (OpenOption::Append, Argument::True);
    assert_eq!(check_open_options(&vec![read, truncate]), vec![Finding::TruncateAndRead]);
    assert_eq!(check_open_options(&vec![truncate, append]), vec![Finding::AppendAndTruncate]);
    assert_eq!(
        check_open_options(&vec![append, read, truncate]),
        vec![Finding::TruncateAndRead, Finding::AppendAndTruncate]
    );
    // Writing makes truncating sensible, unless it is switched off.
    assert_eq!(check_open_options(&vec![read, truncate, (OpenOption::Write, Argument::True)]), vec![]);
    assert_eq!(
        check_open_options(&vec![read, truncate, (OpenOption::Write, Argument::False)]),
        vec![Finding::TruncateAndRead]
    );
    // An option that is switched on once counts as switched on.
    assert_eq!(
        check_open_options(&vec![(OpenOption::Read, Argument::False), truncate, read]),
        vec![Finding::CalledMoreThanOnce(OpenOption::Read), Finding::TruncateAndRead]
    );
}

#[test]
fn findings_in_words() {
    assert_eq!(
        Finding::CalledMoreThanOnce(OpenOption::Create).message(),
        "the method `create` is called more than once"
    );
    assert_eq!(
        Finding::CalledMoreThanOnce(OpenOption::Append).message(),
        "the method `append` is called more than once"
    );
    assert_eq!(
        Finding::CalledMoreThanOnce(OpenOption::Truncate).message(),
        "the method `truncate` is called more than once"
    );
    assert_eq!(
        Finding::CalledMoreThanOnce(OpenOption::Read).message(),
        "the method `read` is called more than once"
    );
    assert_eq!(
        Finding::CalledMoreThanOnce(OpenOption::Write).message(),
        "the method `write` is called more than once"
    );
    assert_eq!(Finding::TruncateAndRead.message(), "file opened with `truncate` and `read`");
    assert_eq!(Finding::AppendAndTruncate.message(), "file opened with `append` and `truncate`");
}

#[test]
fn options_are_collected_along_the_chain() {
    // OpenOptions::new().read(true).mode(x).write(false).open(..), seen from
    // the call before `open` inward.
    let chain = vec![
        off("write"),
        call("mode", Some(FirstArgument::Other)),
        on("read"),
        call("new", None),
    ];
    let mut options = vec![(OpenOption::Create, Argument::Unknown)];
    get_open_options(&chain, &mut options);
    assert_eq!(
        options,
        vec![
            (OpenOption::Create, Argument::Unknown),
            (OpenOption::Write, Argument::False),
            (OpenOption::Read, Argument::True),
        ]
    );
}

#[test]
fn chain_is_followed_to_the_first_call_that_does_not_fit() {
    let mut options = Vec::new();
    get_open_options(&vec![on("read"), call("append", Some(FirstArgument::OtherLiteral)), on("write")], &mut options);
    assert_eq!(options, vec![(OpenOption::Read, Argument::True)]);

    let mut elsewhere = on("truncate");
    elsewhere.on_open_options = false;
    let mut options = Vec::new();
    get_open_options(&vec![call("create", Some(FirstArgument::Other)), elsewhere, on("write")], &mut options);
    assert_eq!(options, vec![(OpenOption::Create, Argument::Unknown)]);

    let mut options = Vec::new();
    get_open_options(&vec![], &mut options);
    assert!(options.is_empty());
}

#[test]
fn only_chains_that_end_in_the_options_are_checked() {
    let chain = vec![on("truncate"), on("read"), on("read")];
    assert_eq!(
        check(true, &chain),
        vec![Finding::CalledMoreThanOnce(OpenOption::Read), Finding::TruncateAndRead]
    );
    assert_eq!(check(false, &chain), vec![]);
}
