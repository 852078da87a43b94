//! What numbers on the command line are, and what the options ask for.
use crate::options::{
    decimal_value, digits_of, is_decimal, is_digit, launch_for, launch_given, number_in,
    program_options, BadArgument, LaunchErrorView, LaunchView,
};
use vstd::prelude::*;

verus! {

/// What a digit adds to a number.
pub open spec fn digit_value(c: char) -> int {
    c as int - 48
}

/// One character is a number exactly where it is one of the ten digits, and is its value then.
/// No characters at all, or a plus sign alone, are no number.
pub proof fn single_digits_are_numbers(c: char)
    ensures
        number_in(seq![c]) is Some <==> '0' <= c <= '9',
        number_in(seq![c]) matches Some(n) ==> n == digit_value(c),
        number_in(Seq::empty()) is None,
{
    let text = seq![c];
    if c == '+' {
        assert(digits_of(text) =~= Seq::empty());
    } else {
        assert(text.drop_last() =~= Seq::empty());
        reveal_with_fuel(decimal_value, 2);
        assert(text[0] == c);
        if is_digit(c) {
            assert(is_decimal(text));
        }
    }
}

proof fn lemma_push(text: Seq<char>, c: char)
    requires
        text.len() > 0,
        digits_of(text).len() > 0,
    ensures
        digits_of(text.push(c)) == digits_of(text).push(c),
        is_decimal(digits_of(text.push(c))) <==> is_decimal(digits_of(text)) && is_digit(c),
        decimal_value(digits_of(text.push(c))) == 10 * decimal_value(digits_of(text)) + (c as nat
            - '0' as nat) as nat,
{
    let digits = digits_of(text);
    assert(text.push(c)[0] == text[0]);
    assert(digits_of(text.push(c)) =~= digits.push(c));
    assert(digits.push(c).drop_last() =~= digits);
    if is_decimal(digits.push(c)) {
        assert forall|i: int| 0 <= i < digits.len() implies is_digit(#[trigger] digits[i]) by {
            assert(is_digit(digits.push(c)[i]));
        }
        assert(is_digit(digits.push(c)[digits.len() as int]));
    }
    if is_decimal(digits) && is_digit(c) {
        assert forall|i: int| 0 <= i < digits.push(c).len() implies is_digit(
            #[trigger] digits.push(c)[i],
        ) by {
            if i < digits.len() {
                assert(is_digit(digits[i]));
            }
        }
    }
}

/// One more digit behind a number makes it ten times as large and adds the digit. Where that
/// exceeds the largest machine word, it is no number any more, and neither is it with anything
/// else behind it.
pub proof fn digits_add_up(text: Seq<char>, c: char)
    requires
        number_in(text) is Some,
    ensures
        ({
            let longer = 10 * number_in(text)->0 + digit_value(c);
            if '0' <= c <= '9' && longer <= usize::MAX {
                number_in(text.push(c)) == Some(longer as usize)
            } else {
                number_in(text.push(c)) is None
            }
        }),
{
    lemma_push(text, c);
}

/// What is no number does not become one by more characters, unless it is empty or a plus sign
/// alone.
pub proof fn what_is_no_number_stays_none(text: Seq<char>, c: char)
    requires
        number_in(text) is None,
        text.len() > 1 || text.len() == 1 && text[0] != '+',
    ensures
        number_in(text.push(c)) is None,
{
    if text[0] == '+' {
        assert(digits_of(text).len() > 0);
    }
    lemma_push(text, c);
    if is_decimal(digits_of(text)) {
        assert(decimal_value(digits_of(text)) > usize::MAX);
    }
}

/// A plus sign before a text that has none changes nothing.
pub proof fn a_plus_sign_changes_nothing(text: Seq<char>)
    requires
        text.len() == 0 || text[0] != '+',
    ensures
        number_in(seq!['+'] + text) == number_in(text),
{
    assert((seq!['+'] + text).drop_first() =~= text);
}

/// The program is asked to be a client exactly where it is told what to connect to, whatever the
/// other options say; otherwise it is a server, at 127.0.0.1:55555 and with two teams unless it
/// is told otherwise. Only a number of teams that is none is an error, also for a client.
pub proof fn options_ask_for_what_they_say(
    connect: Option<Seq<char>>,
    teams: Option<Seq<char>>,
    dedicated: bool,
    serve: Option<Seq<char>>,
)
    ensures
        ({
            let launch = launch_for(connect, teams, dedicated, serve);
            &&& launch is Err <==> teams is Some && number_in(teams->0) is None
            &&& launch matches Err(error) ==> error == LaunchErrorView::Teams
            &&& launch matches Ok(launch) ==> match launch {
                LaunchView::Client(remote) => connect == Some(remote),
                LaunchView::Server { location, num_teams, dedicated: alone } => {
                    &&& connect is None
                    &&& alone == dedicated
                    &&& match serve {
                        Some(place) => location == place,
                        None => location == "127.0.0.1:55555"@,
                    }
                    &&& match teams {
                        Some(text) => Some(num_teams) == number_in(text),
                        None => num_teams == 2,
                    }
                },
            }
        }),
{
}

/// What was given first under an option's long name, if anything was.
pub open spec fn first_given(
    given: Map<Seq<char>, Seq<Option<Seq<char>>>>,
    name: Seq<char>,
) -> Option<Seq<char>> {
    if given[name].len() > 0 {
        given[name][0]
    } else {
        None
    }
}

/// Options that cannot be parsed are an error that says so; of those that can be, each has its
/// effect under its own name.
pub proof fn parsed_options_have_their_effect(
    outcome: Result<Map<Seq<char>, Seq<Option<Seq<char>>>>, (BadArgument, Seq<char>)>,
)
    ensures
        match outcome {
            Err((what, option)) => launch_given(outcome) == Err::<LaunchView, LaunchErrorView>(
                LaunchErrorView::Arguments(what, option),
            ),
            Ok(given) => {
                let teams = first_given(given, "teams"@);
                &&& launch_given(outcome) is Err <==> teams is Some && number_in(teams->0) is None
                &&& launch_given(outcome) matches Ok(LaunchView::Client(remote)) ==> first_given(
                    given,
                    "connect"@,
                ) == Some(remote)
                &&& launch_given(outcome) matches Ok(
                    LaunchView::Server { location, num_teams, dedicated },
                ) ==> {
                    &&& first_given(given, "connect"@) is None
                    &&& dedicated <==> given["dedicated"@].len() > 0
                    &&& match first_given(given, "serve"@) {
                        Some(place) => location == place,
                        None => location == "127.0.0.1:55555"@,
                    }
                    &&& match teams {
                        Some(text) => Some(num_teams) == number_in(text),
                        None => num_teams == 2,
                    }
                }
            },
        },
{
}

/// The program knows five options, each by one letter and by a name: of these only `dedicated`
/// takes no value.
pub proof fn there_are_five_options()
    ensures
        program_options().len() == 5,
        program_options().contains(("d"@, "dedicated"@, false)),
        program_options().contains(("s"@, "serve"@, true)),
        program_options().contains(("c"@, "connect"@, true)),
        program_options().contains(("t"@, "teams"@, true)),
        program_options().contains(("p"@, "players"@, true)),
{
    let all = program_options();
    assert(all[0] == ("d"@, "dedicated"@, false));
    assert(all[1] == ("s"@, "serve"@, true));
    assert(all[2] == ("c"@, "connect"@, true));
    assert(all[3] == ("t"@, "teams"@, true));
    assert(all[4] == ("p"@, "players"@, true));
}

} // verus!
