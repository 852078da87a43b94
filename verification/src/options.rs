//! The command line.
use getopts::{Fail, Matches, Options};
use vstd::prelude::*;
use vstd::string::StrSliceExecFns;

verus! {

/// The set of options that a command line may hold, of the crate `getopts`.
#[verifier::external_type_specification]
#[verifier::external_body]
pub struct ExOptions(getopts::Options);

/// The options that a command line held, of the crate `getopts`.
#[verifier::external_type_specification]
#[verifier::external_body]
pub struct ExMatches(getopts::Matches);

/// The options that a set holds, in order: short name, long name, and whether a value follows.
/// A set is described only where each of its options has both names, may be left out and may be
/// given at most once, and where the set was not told to parse in another than the usual way.
pub uninterp spec fn declared(options: Options) -> Option<Seq<(Seq<char>, Seq<char>, bool)>>;

/// For each name of an option, the times that the option was given, each with its value if it
/// has one.
pub uninterp spec fn given(matches: Matches) -> Map<Seq<char>, Seq<Option<Seq<char>>>>;

/// What `Options::parse` makes of some arguments, given the options that there are.
pub uninterp spec fn parsed(
    options: Seq<(Seq<char>, Seq<char>, bool)>,
    args: Seq<Seq<char>>,
) -> Result<Map<Seq<char>, Seq<Option<Seq<char>>>>, (BadArgument, Seq<char>)>;

/// What is wrong with an argument.
#[derive(Clone, Copy, Debug, PartialEq, Eq, Structural)]
pub enum BadArgument {
    /// The option needs a value.
    ValueMissing,
    /// There is no such option.
    Unrecognized,
    /// The option has to be given.
    OptionMissing,
    /// The option is given twice.
    Duplicated,
    /// The option takes no value.
    ValueUnexpected,
}

/// Whether a name can be the short name of an option: one ASCII character.
pub open spec fn is_short_name(name: Seq<char>) -> bool {
    name.len() == 1 && (name[0] as u32) < 128
}

/// Whether a name can be the long name of an option: two characters or more.
pub open spec fn is_long_name(name: Seq<char>) -> bool {
    name.len() >= 2
}

/// The contents of some strings.
pub open spec fn texts(strings: Seq<String>) -> Seq<Seq<char>> {
    strings.map_values(|s: String| s@)
}

/// Trusted: `Options::new` holds no options.
#[verifier::external_body]
fn no_options() -> (options: Options)
    ensures
        declared(options) == Some(Seq::<(Seq<char>, Seq<char>, bool)>::empty()),
{
    Options::new()
}

/// Trusted: `Options::optflag` adds an option without a value. It panics on names that are not
/// a short name and a long name.
#[verifier::external_body]
fn add_flag(options: &mut Options, short: &str, long: &str, description: &str)
    requires
        is_short_name(short@),
        is_long_name(long@),
        declared(*old(options)) is Some,
    ensures
        declared(*final(options)) == Some(
            declared(*old(options))->0.push((short@, long@, false)),
        ),
{
    options.optflag(short, long, description);
}

/// Trusted: `Options::optopt` adds an option with a value. It panics on names that are not a
/// short name and a long name.
#[verifier::external_body]
fn add_option(options: &mut Options, short: &str, long: &str, description: &str, hint: &str)
    requires
        is_short_name(short@),
        is_long_name(long@),
        declared(*old(options)) is Some,
    ensures
        declared(*final(options)) == Some(declared(*old(options))->0.push((short@, long@, true))),
{
    options.optopt(short, long, description, hint);
}

/// Trusted: what `Options::parse` returns is determined by the options, which have to be of the
/// kind that `declared` describes, and by the arguments. On success every long name is the name
/// of an option, and nothing is given twice. No arguments at all are parsed successfully, and no
/// option is given then. What the arguments have to look like otherwise is not stated.
#[verifier::external_body]
fn parse(options: &Options, args: &[String]) -> (outcome: Result<Matches, (BadArgument, String)>)
    requires
        declared(*options) is Some,
    ensures
        match outcome {
            Ok(matches) => {
                &&& parsed(declared(*options)->0, texts(args@)) == Ok::<
                    Map<Seq<char>, Seq<Option<Seq<char>>>>,
                    (BadArgument, Seq<char>),
                >(given(matches))
                &&& forall|i: int|
                    0 <= i < declared(*options)->0.len() ==> given(matches).contains_key(
                        (#[trigger] (declared(*options)->0)[i]).1,
                    )
                &&& forall|name: Seq<char>| #[trigger]
                    given(matches).contains_key(name) ==> given(matches)[name].len() <= if args@.len()
                        == 0 {
                        0nat
                    } else {
                        1nat
                    }
            },
            Err((what, option)) => {
                &&& parsed(declared(*options)->0, texts(args@)) == Err::<
                    Map<Seq<char>, Seq<Option<Seq<char>>>>,
                    (BadArgument, Seq<char>),
                >((what, option@))
                &&& args@.len() > 0
            },
        },
{
    options.parse(args).map_err(|fail| match fail {
        Fail::ArgumentMissing(option) => (BadArgument::ValueMissing, option),
        Fail::UnrecognizedOption(option) => (BadArgument::Unrecognized, option),
        Fail::OptionMissing(option) => (BadArgument::OptionMissing, option),
        Fail::OptionDuplicated(option) => (BadArgument::Duplicated, option),
        Fail::UnexpectedArgument(option) => (BadArgument::ValueUnexpected, option),
    })
}

/// The value of the first time that an option was given.
pub open spec fn value_of(
    given: Map<Seq<char>, Seq<Option<Seq<char>>>>,
    name: Seq<char>,
) -> Option<Seq<char>> {
    if given[name].len() == 0 {
        None
    } else {
        given[name][0]
    }
}

/// Whether an option was given.
pub open spec fn is_given(given: Map<Seq<char>, Seq<Option<Seq<char>>>>, name: Seq<char>) -> bool {
    given[name].len() > 0
}

/// The contents of a string that may be there.
pub open spec fn text(string: Option<String>) -> Option<Seq<char>> {
    match string {
        Some(s) => Some(s@),
        None => None,
    }
}

/// Trusted: `Matches::opt_str` gives the value of the first time that an option was given. It
/// panics on a name that is not the name of an option.
#[verifier::external_body]
fn option_value(matches: &Matches, name: &str) -> (value: Option<String>)
    requires
        given(*matches).contains_key(name@),
    ensures
        text(value) == value_of(given(*matches), name@),
{
    matches.opt_str(name)
}

/// Trusted: `Matches::opt_present` says whether an option was given. It panics on a name that
/// is not the name of an option.
#[verifier::external_body]
fn option_given(matches: &Matches, name: &str) -> (is: bool)
    requires
        given(*matches).contains_key(name@),
    ensures
        is == is_given(given(*matches), name@),
{
    matches.opt_present(name)
}

/// Whether a character is a decimal digit.
pub open spec fn is_digit(c: char) -> bool {
    '0' <= c <= '9'
}

/// Whether a text is a decimal number: digits, at least one of them.
pub open spec fn is_decimal(digits: Seq<char>) -> bool {
    digits.len() > 0 && forall|i: int| 0 <= i < digits.len() ==> is_digit(#[trigger] digits[i])
}

/// The number that decimal digits stand for.
pub open spec fn decimal_value(digits: Seq<char>) -> nat
    decreases digits.len(),
{
    if digits.len() == 0 {
        0
    } else {
        10 * decimal_value(digits.drop_last()) + (digits.last() as nat - '0' as nat) as nat
    }
}

/// The digits of a number, without the plus sign that may stand before them.
pub open spec fn digits_of(text: Seq<char>) -> Seq<char> {
    if text.len() > 0 && text[0] == '+' {
        text.drop_first()
    } else {
        text
    }
}

/// The number that a text stands for, if it is one that a machine word holds.
pub open spec fn number_in(text: Seq<char>) -> Option<usize> {
    let digits = digits_of(text);
    if is_decimal(digits) && decimal_value(digits) <= usize::MAX {
        Some(decimal_value(digits) as usize)
    } else {
        None
    }
}

proof fn lemma_prefix_value(digits: Seq<char>, n: int)
    requires
        0 <= n <= digits.len(),
        is_decimal(digits),
    ensures
        decimal_value(digits.take(n)) <= decimal_value(digits),
    decreases digits.len() - n,
{
    if n < digits.len() {
        lemma_prefix_value(digits, n + 1);
        assert(digits.take(n + 1).drop_last() =~= digits.take(n));
        assert(is_digit(digits[n]));
    } else {
        assert(digits.take(n) =~= digits);
    }
}

/// Reads a number: decimal digits, which a plus sign may precede.
pub fn parse_number(text: &str) -> (number: Option<usize>)
    ensures
        number == number_in(text@),
{
    let len: usize = text.unicode_len();
    let ghost digits = digits_of(text@);
    let start: usize = if len > 0 && text.get_char(0) == '+' {
        1
    } else {
        0
    };
    if start == len {
        return None;
    }
    let mut value: usize = 0;
    let mut i: usize = start;
    assert(digits.take(0) =~= Seq::empty());
    while i < len
        invariant
            start <= 1,
            start <= i <= len,
            len == text@.len(),
            digits == digits_of(text@),
            digits.len() == len - start,
            digits.len() > 0,
            forall|j: int| start <= j < len ==> #[trigger] text@[j] == digits[j - start],
            forall|j: int| 0 <= j < i - start ==> is_digit(#[trigger] digits[j]),
            value == decimal_value(digits.take(i - start)),
        decreases len - i,
    {
        let c: char = text.get_char(i);
        let ghost n = i - start;
        proof {
            assert(text@[i as int] == digits[n]);
            assert(digits.take(n + 1).drop_last() =~= digits.take(n));
            assert(digits.take(n + 1).last() == c);
        }
        if !('0' <= c && c <= '9') {
            assert(!is_digit(digits[n]));
            return None;
        }
        let digit: usize = c as usize - '0' as usize;
        proof {
            if is_decimal(digits) {
                lemma_prefix_value(digits, n + 1);
            }
        }
        match value.checked_mul(10) {
            Some(tenfold) => match tenfold.checked_add(digit) {
                Some(sum) => {
                    value = sum;
                },
                None => {
                    return None;
                },
            },
            None => {
                return None;
            },
        }
        i = i + 1;
    }
    assert(digits.take(len - start) =~= digits);
    Some(value)
}

/// Where a server listens unless it is told otherwise.
pub const DEFAULT_SERVER_LOCATION: &'static str = "127.0.0.1:55555";

/// What the program is asked to be.
#[derive(Debug)]
pub enum Launch {
    /// A client of the server at the given place.
    Client(String),
    /// A server.
    Server {
        location: String,
        num_teams: usize,
        /// Whether it runs without a client of its own.
        dedicated: bool,
    },
}

/// Why the command line does not say what the program is asked to be.
#[derive(Debug)]
pub enum LaunchError {
    /// The options cannot be parsed.
    Arguments(BadArgument, String),
    /// The number of teams is no number.
    Teams,
}

/// What the program is asked to be, with texts for strings.
pub enum LaunchView {
    Client(Seq<char>),
    Server { location: Seq<char>, num_teams: usize, dedicated: bool },
}

/// Why the command line does not say so, with texts for strings.
pub enum LaunchErrorView {
    Arguments(BadArgument, Seq<char>),
    Teams,
}

impl View for Launch {
    type V = LaunchView;

    open spec fn view(&self) -> LaunchView {
        match *self {
            Launch::Client(remote) => LaunchView::Client(remote@),
            Launch::Server { location, num_teams, dedicated } => LaunchView::Server {
                location: location@,
                num_teams,
                dedicated,
            },
        }
    }
}

impl View for LaunchError {
    type V = LaunchErrorView;

    open spec fn view(&self) -> LaunchErrorView {
        match *self {
            LaunchError::Arguments(what, option) => LaunchErrorView::Arguments(what, option@),
            LaunchError::Teams => LaunchErrorView::Teams,
        }
    }
}

/// A launch or an error, with texts for strings.
pub open spec fn launch_text(launch: Result<Launch, LaunchError>) -> Result<
    LaunchView,
    LaunchErrorView,
> {
    match launch {
        Ok(launch) => Ok(launch@),
        Err(error) => Err(error@),
    }
}

/// What the program is asked to be, given the values of the options. The number of teams has to
/// be a number even where it has no use.
pub open spec fn launch_for(
    connect: Option<Seq<char>>,
    teams: Option<Seq<char>>,
    dedicated: bool,
    serve: Option<Seq<char>>,
) -> Result<LaunchView, LaunchErrorView> {
    let num_teams = match teams {
        Some(teams) => number_in(teams),
        None => Some(2usize),
    };
    match (num_teams, connect) {
        (None, _) => Err(LaunchErrorView::Teams),
        (Some(_), Some(remote)) => Ok(LaunchView::Client(remote)),
        (Some(num_teams), None) => Ok(
            LaunchView::Server {
                location: match serve {
                    Some(location) => location,
                    None => DEFAULT_SERVER_LOCATION@,
                },
                num_teams,
                dedicated,
            },
        ),
    }
}

/// Decides what the program is asked to be, given the values of the options.
pub fn plan(
    connect: Option<String>,
    teams: Option<String>,
    dedicated: bool,
    serve: Option<String>,
) -> (launch: Result<Launch, LaunchError>)
    ensures
        launch_text(launch) == launch_for(text(connect), text(teams), dedicated, text(serve)),
{
    let num_teams: usize = match teams {
        Some(teams) => match parse_number(teams.as_str()) {
            Some(number) => number,
            None => {
                return Err(LaunchError::Teams);
            },
        },
        None => 2,
    };
    match connect {
        Some(remote) => Ok(Launch::Client(remote)),
        None => {
            let location: String = match serve {
                Some(location) => location,
                None => DEFAULT_SERVER_LOCATION.to_owned(),
            };
            Ok(Launch::Server { location, num_teams, dedicated })
        },
    }
}

/// The options of the program.
pub open spec fn program_options() -> Seq<(Seq<char>, Seq<char>, bool)> {
    seq![
        ("d"@, "dedicated"@, false),
        ("s"@, "serve"@, true),
        ("c"@, "connect"@, true),
        ("t"@, "teams"@, true),
        ("p"@, "players"@, true),
    ]
}

fn declare_options() -> (options: Options)
    ensures
        declared(options) == Some(program_options()),
{
    proof {
        reveal_strlit("d");
        reveal_strlit("dedicated");
        reveal_strlit("s");
        reveal_strlit("serve");
        reveal_strlit("c");
        reveal_strlit("connect");
        reveal_strlit("t");
        reveal_strlit("teams");
        reveal_strlit("p");
        reveal_strlit("players");
    }
    let mut options = no_options();
    add_flag(&mut options, "d", "dedicated", "Start the server in dedicated mode");
    add_option(&mut options, "s", "serve", "Start a listen server", "SERVER_LOCATION");
    add_option(&mut options, "c", "connect", "Connect to a remote server", "REMOTE_SERVER");
    add_option(&mut options, "t", "teams", "Number of teams (for the server)", "TEAMS");
    add_option(
        &mut options,
        "p",
        "players",
        "Number of players on this client (currently ignored and set to 1)",
        "PLAYERS",
    );
    assert(declared(options)->0 =~= program_options());
    options
}

/// What the program is asked to be by options that have been parsed.
pub open spec fn launch_given(
    outcome: Result<Map<Seq<char>, Seq<Option<Seq<char>>>>, (BadArgument, Seq<char>)>,
) -> Result<LaunchView, LaunchErrorView> {
    match outcome {
        Ok(given) => launch_for(
            value_of(given, "connect"@),
            value_of(given, "teams"@),
            is_given(given, "dedicated"@),
            value_of(given, "serve"@),
        ),
        Err((what, option)) => Err(LaunchErrorView::Arguments(what, option)),
    }
}

/// Decides what the program is asked to be by its command line, the first part of which is the
/// name of the program.
pub fn launch(args: &Vec<String>) -> (launch: Result<Launch, LaunchError>)
    requires
        args@.len() > 0,
    ensures
        launch_text(launch) == launch_given(
            parsed(program_options(), texts(args@.drop_first())),
        ),
        args@.len() == 1 ==> launch_text(launch) == launch_for(None, None, false, None),
{
    let options = declare_options();
    let rest = vstd::slice::slice_subrange(args.as_slice(), 1, args.len());
    assert(rest@ =~= args@.drop_first());
    match parse(&options, rest) {
        Ok(matches) => {
            proof {
                let names = program_options();
                assert(given(matches).contains_key(names[0].1));
                assert(given(matches).contains_key(names[1].1));
                assert(given(matches).contains_key(names[2].1));
                assert(given(matches).contains_key(names[3].1));
            }
            let connect = option_value(&matches, "connect");
            let teams = option_value(&matches, "teams");
            let dedicated = option_given(&matches, "dedicated");
            let serve = option_value(&matches, "serve");
            plan(connect, teams, dedicated, serve)
        },
        Err((what, option)) => Err(LaunchError::Arguments(what, option)),
    }
}

} // verus!
