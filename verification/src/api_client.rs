//! What a request for a player's battle log looks like, and what its
//! answer's status means. Sending the request is left to the caller.

use vstd::prelude::*;
use vstd::string::StringExecFns;

verus! {

/// The root of the game API.
pub const API_BASE_URL: &'static str = "https://api.clashroyale.com/v1";

/// The player tag as it stands in a URL: each `#` is written `%23`, every
/// other character as it is.
pub open spec fn encoded_tag(tag: Seq<char>) -> Seq<char>
    decreases tag.len(),
{
    if tag.len() == 0 {
        Seq::empty()
    } else if tag.last() == '#' {
        encoded_tag(tag.drop_last()) + seq!['%', '2', '3']
    } else {
        encoded_tag(tag.drop_last()).push(tag.last())
    }
}

/// The URL of a player's battle log.
pub open spec fn battle_log_url_of(tag: Seq<char>) -> Seq<char> {
    API_BASE_URL@ + "/players/"@ + encoded_tag(tag) + "/battlelog"@
}

/// Escapes the player tag for use in a URL.
pub fn encode_player_tag(player_tag: &str) -> (encoded: String)
    ensures
        encoded@ == encoded_tag(player_tag@),
{
    let mut encoded = String::new();
    for c in it: player_tag.chars()
        invariant
            it.seq() == player_tag@,
            encoded@ == encoded_tag(player_tag@.take(it.index() as int)),
    {
        proof {
            let next = player_tag@.take(it.index() + 1);
            assert(next.drop_last() =~= player_tag@.take(it.index() as int));
            assert(next.last() == c);
        }
        if c == '#' {
            encoded.push('%');
            encoded.push('2');
            encoded.push('3');
            proof {
                let before = encoded_tag(player_tag@.take(it.index() as int));
                assert(before.push('%').push('2').push('3') =~= before + seq!['%', '2', '3']);
            }
        } else {
            encoded.push(c);
        }
    }
    proof {
        assert(player_tag@.take(player_tag@.len() as int) =~= player_tag@);
    }
    encoded
}

/// The URL from which the battle log of the player is fetched.
pub fn battle_log_url(player_tag: &str) -> (url: String)
    ensures
        url@ == battle_log_url_of(player_tag@),
{
    let mut url = String::new();
    url.append(API_BASE_URL);
    url.append("/players/");
    let encoded = encode_player_tag(player_tag);
    url.append(encoded.as_str());
    url.append("/battlelog");
    proof {
        assert(url@ =~= battle_log_url_of(player_tag@));
    }
    url
}

/// No `#` is left in an escaped tag, and a tag without `#` is left as it
/// is.
pub proof fn law_encoded_tag_has_no_hash_mark(tag: Seq<char>)
    ensures
        !encoded_tag(tag).contains('#'),
        !tag.contains('#') ==> encoded_tag(tag) == tag,
    decreases tag.len(),
{
    if tag.len() > 0 {
        let init = tag.drop_last();
        law_encoded_tag_has_no_hash_mark(init);
        let encoded = encoded_tag(tag);
        assert forall|i: int| 0 <= i < encoded.len() implies encoded[i] != '#' by {
            if i < encoded_tag(init).len() {
                assert(encoded_tag(init).contains(encoded[i]));
            }
        }
        if !tag.contains('#') {
            assert(tag.last() == tag[tag.len() - 1]);
            assert forall|i: int| 0 <= i < init.len() implies init[i] != '#' by {
                assert(init[i] == tag[i]);
            }
            assert(init.push(tag.last()) =~= tag);
        }
    } else {
        assert(encoded_tag(tag) =~= tag);
    }
}

/// Why a fetch failed.
#[derive(Debug, Clone, Copy, PartialEq, Eq, Structural)]
pub enum FetchFailure {
    /// The API key was refused: status 401 or 403.
    Unauthorized,
    /// No such player: status 404.
    NotFound,
    /// Too many requests: status 429.
    RateLimited,
    /// Another status from 400 to 599.
    Status(u16),
    /// No usable answer came: the connection failed, the request timed out,
    /// or the body could not be read as a battle log.
    Transport,
}

/// What a status code means for a fetch. Codes from 400 to 599 are
/// failures, every other code is none.
pub open spec fn failure_of_status(status: u16) -> Option<FetchFailure> {
    if status < 400 || status >= 600 {
        None
    } else if status == 401 || status == 403 {
        Some(FetchFailure::Unauthorized)
    } else if status == 404 {
        Some(FetchFailure::NotFound)
    } else if status == 429 {
        Some(FetchFailure::RateLimited)
    } else {
        Some(FetchFailure::Status(status))
    }
}

/// The failure that an answer with this status code amounts to, if any.
pub fn classify_status(status: u16) -> (failure: Option<FetchFailure>)
    ensures
        failure == failure_of_status(status),
{
    if status < 400 || status >= 600 {
        None
    } else {
        match status {
            401 => Some(FetchFailure::Unauthorized),
            403 => Some(FetchFailure::Unauthorized),
            404 => Some(FetchFailure::NotFound),
            429 => Some(FetchFailure::RateLimited),
            _ => Some(FetchFailure::Status(status)),
        }
    }
}

/// The failure that a failed request amounts to, by the status code that
/// came with it. A failure without a status code, or with one that is no
/// failure by itself, is a transport failure.
pub fn classify_failure(status: Option<u16>) -> (failure: FetchFailure)
    ensures
        failure == match status {
            Some(code) => match failure_of_status(code) {
                Some(f) => f,
                None => FetchFailure::Transport,
            },
            None => FetchFailure::Transport,
        },
{
    match status {
        Some(code) => match classify_status(code) {
            Some(f) => f,
            None => FetchFailure::Transport,
        },
        None => FetchFailure::Transport,
    }
}

} // verus!
