use not_asteroids::options::{launch, parse_number, plan, BadArgument, Launch, LaunchError};

fn started_with(args: &[&str]) -> Result<Launch, LaunchError> {
    let mut line = vec!["not-asteroids".to_string()];
    for arg in args {
        line.push(arg.to_string());
    }
    launch(&line)
}

fn refused(args: &[&str]) -> (BadArgument, String) {
    match started_with(args) {
        Err(LaunchError::Arguments(what, option)) => (what, option),
        other => panic!("{:?}", other),
    }
}

fn server(args: &[&str]) -> (String, usize, bool) {
    match started_with(args) {
        Ok(Launch::Server { location, num_teams, dedicated }) => (location, num_teams, dedicated),
        other => panic!("{:?}", other),
    }
}

#[test]
fn no_arguments_start_a_listen_server() {
    assert_eq!(server(&[]), ("127.0.0.1:55555".to_string(), 2, false));
}

#[test]
fn a_server_takes_its_options() {
    assert_eq!(
        server(&["--serve", "0.0.0.0:1", "-d", "--teams=5"]),
        ("0.0.0.0:1".to_string(), 5, true)
    );
    assert_eq!(
        server(&["-s", "[::]:2", "--dedicated", "-t", "+10"]),
        ("[::]:2".to_string(), 10, true)
    );
    assert_eq!(server(&["-t0", "-p", "many"]), ("127.0.0.1:55555".to_string(), 0, false));
}

#[test]
fn a_client_needs_only_the_server() {
    assert!(matches!(
        started_with(&["-c", "example.org:55555"]),
        Ok(Launch::Client(ref remote)) if remote == "example.org:55555"
    ));
    assert!(matches!(
        started_with(&["--connect", "here:1", "-d", "-s", "there:2", "-t", "3"]),
        Ok(Launch::Client(ref remote)) if remote == "here:1"
    ));
}

#[test]
fn the_number_of_teams_has_to_be_a_number() {
    assert!(matches!(started_with(&["-t", "two"]), Err(LaunchError::Teams)));
    assert!(matches!(started_with(&["-t", "2 "]), Err(LaunchError::Teams)));
    assert!(matches!(started_with(&["-c", "x:1", "--teams", ""]), Err(LaunchError::Teams)));
}

#[test]
fn bad_arguments_are_refused() {
    assert_eq!(refused(&["-t"]), (BadArgument::ValueMissing, "t".to_string()));
    assert_eq!(refused(&["--nope"]), (BadArgument::Unrecognized, "nope".to_string()));
    assert_eq!(refused(&["-d", "-d"]), (BadArgument::Duplicated, "dedicated".to_string()));
    assert_eq!(
        refused(&["--dedicated=yes"]),
        (BadArgument::ValueUnexpected, "dedicated".to_string())
    );
}

#[test]
fn plan_follows_the_options() {
    let none = || None::<String>;
    assert!(matches!(
        plan(none(), Some("7".to_string()), true, Some("a:1".to_string())),
        Ok(Launch::Server { ref location, num_teams: 7, dedicated: true }) if location == "a:1"
    ));
    assert!(matches!(
        plan(Some("b:2".to_string()), none(), true, none()),
        Ok(Launch::Client(ref remote)) if remote == "b:2"
    ));
    assert!(matches!(
        plan(Some("b:2".to_string()), Some("-1".to_string()), false, none()),
        Err(LaunchError::Teams)
    ));
}

#[test]
fn numbers_are_read_as_by_the_standard_library() {
    let texts = vec![
        "0", "7", "42", "+42", "007", "", "+", "-1", "++1", "1+", " 1", "1 ", "1_000", "0x10",
        "18446744073709551615", "18446744073709551616", "99999999999999999999999", "\u{0663}",
    ];
    for text in texts {
        assert_eq!(parse_number(text), text.parse::<usize>().ok(), "{:?}", text);
    }
}
