//! The read commands served from the usage store, as a closed enumeration
//! dispatched exhaustively.

use vstd::prelude::*;
use vstd::string::StringExecFns;
use crate::clock::current_unix_timestamp;
use crate::ranking::{num_tracked, render_page, rendered_page};
use crate::store::{count_matching, count_matching_before, UsageStore};
use crate::text::{decimal_of, u64_to_string};

verus! {

/// How many entries one leaderboard page holds.
pub const MAX_EMOTES_PER_PAGE: usize = 25;

/// A read command, with its typed arguments.
pub enum Command {
    /// The count of every event whose canonical key contains the query.
    CountEmote(String),
    /// The first page of the ranked leaderboard.
    CountAllEmotes,
    /// Like `CountEmote`, restricted to events recorded before now.
    CountEmoteFrom(String),
}

/// The reply to a count query.
pub open spec fn count_reply(query: Seq<char>, n: nat) -> Seq<char> {
    ("Count of ")@ + query + (" is: ")@ + decimal_of(n)
}

fn format_count_reply(query: &str, n: u64) -> (reply: String)
    ensures
        reply@ == count_reply(query@, n as nat),
{
    proof {
        reveal_strlit("Count of ");
        reveal_strlit(" is: ");
    }
    let mut reply = String::from_str("Count of ");
    reply.append(query);
    reply.append(" is: ");
    let digits = u64_to_string(n);
    reply.append(digits.as_str());
    proof {
        assert(reply@ =~= count_reply(query@, n as nat));
    }
    reply
}

/// Serves one read command. A count query answers with the number of
/// matching events; the leaderboard query answers with the first ranked
/// page. Failures never surface: an unknown emote counts zero.
pub fn run_command(store: &UsageStore, command: &Command) -> (reply: String)
    ensures
        command matches Command::CountEmote(query) ==> reply@ == count_reply(
            query@,
            count_matching(store@, query@),
        ),
        command is CountAllEmotes ==> rendered_page(
            store@,
            0,
            MAX_EMOTES_PER_PAGE as int,
            reply@,
        ) && (reply@.len() == 0 <==> num_tracked(store@) == 0),
        command matches Command::CountEmoteFrom(query) ==> exists|now: i64|
            reply@ == count_reply(query@, count_matching_before(store@, query@, now)),
{
    match command {
        Command::CountEmote(query) => {
            let n = store.count_for(query.as_str());
            format_count_reply(query.as_str(), n)
        },
        Command::CountAllEmotes => render_page(store, 0, MAX_EMOTES_PER_PAGE),
        Command::CountEmoteFrom(query) => {
            let now = current_unix_timestamp();
            let n = store.count_for_before(query.as_str(), now);
            format_count_reply(query.as_str(), n)
        },
    }
}

} // verus!
