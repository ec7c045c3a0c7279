//! Text commands for the auxiliary network helper: a request either names
//! an action outright or carries a JSON object whose "teams" field gives a
//! team count. The listener itself (sockets, threads) lives with the
//! caller; only the parsing is here.

use vstd::prelude::*;

use crate::strutil::{contains_seq, contains_str, find_char, rfind_char_below};

verus! {

#[derive(Debug, PartialEq, Eq, Structural)]
pub enum Command {
    Setup,
    Start,
    Teams(usize),
}

/// The "teams" number of the JSON object a text holds, if the text is a
/// JSON object with an unsigned "teams" field; a function of the text
/// alone, named rather than spelled out.
pub uninterp spec fn teams_field_of(s: Seq<char>) -> Option<u64>;

/// Relies on serde_json::from_str, Value::get and Value::as_u64: parses
/// the text as JSON and reads its "teams" field as an unsigned number;
/// the result depends on the text alone.
#[verifier::external_body]
fn json_teams_field(json_str: &str) -> (r: Option<u64>)
    ensures
        r == teams_field_of(json_str@),
{
    match serde_json::from_str::<serde_json::Value>(json_str) {
        Ok(v) => v.get("teams").and_then(|t| t.as_u64()),
        Err(_) => None,
    }
}

/// `i` is the first opening brace of the text.
pub open spec fn is_first_open_brace(s: Seq<char>, i: int) -> bool {
    &&& 0 <= i < s.len()
    &&& s[i] == '{'
    &&& forall|k: int| 0 <= k < i ==> s[k] != '{'
}

/// `i` is the last closing brace of the text.
pub open spec fn is_last_close_brace(s: Seq<char>, i: int) -> bool {
    &&& 0 <= i < s.len()
    &&& s[i] == '}'
    &&& forall|k: int| i < k < s.len() ==> s[k] != '}'
}

/// The team count of a request: the slice from the first "{" to the last
/// "}" inclusive, read as a JSON object's "teams" field. Without such a
/// non-empty slice there is no count.
pub open spec fn spec_extract_teams_count(s: Seq<char>) -> Option<usize> {
    if (exists|a: int| #[trigger] is_first_open_brace(s, a)) && (exists|b: int|
        #[trigger] is_last_close_brace(s, b)) {
        let a = choose|a: int| #[trigger] is_first_open_brace(s, a);
        let b = choose|b: int| #[trigger] is_last_close_brace(s, b);
        if a <= b {
            match teams_field_of(s.subrange(a, b + 1)) {
                Option::Some(n) => Option::Some(n as usize),
                Option::None => Option::None,
            }
        } else {
            Option::None
        }
    } else {
        Option::None
    }
}

/// What a request text means: "setup" anywhere wins, then "start", then a
/// braced JSON object carrying a "teams" count; anything else is no
/// command.
pub open spec fn spec_parse_command(s: Seq<char>) -> Option<Command> {
    if contains_seq(s, "setup"@) {
        Option::Some(Command::Setup)
    } else if contains_seq(s, "start"@) {
        Option::Some(Command::Start)
    } else {
        match spec_extract_teams_count(s) {
            Option::Some(n) => Option::Some(Command::Teams(n)),
            Option::None => Option::None,
        }
    }
}

/// Read the team count out of a request's braced JSON slice, if any.
pub fn extract_teams_count(request_str: &str) -> (r: Option<usize>)
    ensures
        r == spec_extract_teams_count(request_str@),
{
    let n: usize = request_str.unicode_len();
    match find_char(request_str, '{') {
        Option::None => {
            proof {
                if exists|a: int| #[trigger] is_first_open_brace(request_str@, a) {
                    let a = choose|a: int| #[trigger] is_first_open_brace(request_str@, a);
                    assert(request_str@[a] != '{');
                    assert(false);
                }
            }
            None
        },
        Option::Some(a) => {
            match rfind_char_below(request_str, '}', n) {
                Option::None => {
                    proof {
                        if exists|b: int| #[trigger] is_last_close_brace(request_str@, b) {
                            let b = choose|b: int| #[trigger] is_last_close_brace(request_str@, b);
                            assert(request_str@[b] != '}');
                            assert(false);
                        }
                    }
                    None
                },
                Option::Some(b) => {
                    proof {
                        assert(is_first_open_brace(request_str@, a as int));
                        assert(is_last_close_brace(request_str@, b as int));
                        let a2 = choose|x: int| #[trigger] is_first_open_brace(request_str@, x);
                        let b2 = choose|x: int| #[trigger] is_last_close_brace(request_str@, x);
                        if a2 != a as int {
                            if a2 < a as int {
                                assert(request_str@[a2] != '{');
                            } else {
                                assert(request_str@[a as int] != '{');
                            }
                            assert(false);
                        }
                        if b2 != b as int {
                            if b2 < b as int {
                                assert(request_str@[b2] != '}');
                            } else {
                                assert(request_str@[b as int] != '}');
                            }
                            assert(false);
                        }
                    }
                    if a <= b {
                        let json_str = request_str.substring_char(a, b + 1);
                        match json_teams_field(json_str) {
                            Option::Some(t) => Some(#[verifier::truncate] (t as usize)),
                            Option::None => None,
                        }
                    } else {
                        None
                    }
                },
            }
        },
    }
}

/// Parse one request text into a command, if it carries one.
pub fn parse_command(request_str: &str) -> (r: Option<Command>)
    ensures
        r == spec_parse_command(request_str@),
{
    if contains_str(request_str, "setup") {
        Some(Command::Setup)
    } else if contains_str(request_str, "start") {
        Some(Command::Start)
    } else {
        match extract_teams_count(request_str) {
            Option::Some(teams_count) => Some(Command::Teams(teams_count)),
            Option::None => None,
        }
    }
}

} // verus!
