//! Resolution of a disband vote.
use vstd::prelude::*;

use crate::types::DisbandVote;

verus! {

/// How many votes on one side end a vote in a room of `n` members.
pub open spec fn vote_half(n: int) -> int {
    (n + 1) / 2
}

/// Whether a vote has ended, and whether it passed, given the room's member
/// count, the sizes of the two sides, the tick the vote started, the tick now
/// and how long a vote may stay open.
pub open spec fn vote_outcome(
    n: int,
    approve: int,
    reject: int,
    start: int,
    now: int,
    expire: int,
) -> (bool, bool) {
    let half = vote_half(n);
    if approve >= half || reject >= half {
        (true, approve >= half)
    } else {
        let diff = if approve >= reject {
            approve - reject
        } else {
            reject - approve
        };
        if 5 * diff > n {
            (true, approve >= reject)
        } else if now > start + expire {
            (true, false)
        } else {
            (false, false)
        }
    }
}

/// Resolves a disband vote: the first component says whether it has ended,
/// the second whether it passed.
pub fn is_vote_end(
    total_count: u32,
    vote_info: &DisbandVote,
    start_time: u64,
    now: u64,
    vote_expire: u64,
) -> (r: (bool, bool))
    requires
        vote_info.wf(),
    ensures
        r == vote_outcome(
            total_count as int,
            vote_info.approve_man@.len() as int,
            vote_info.reject_man@.len() as int,
            start_time as int,
            now as int,
            vote_expire as int,
        ),
{
    let half: u64 = ((total_count as u64) + 1) / 2;
    let approve = vote_info.approve_man.len() as u64;
    let reject = vote_info.reject_man.len() as u64;
    if approve >= half || reject >= half {
        (true, approve >= half)
    } else {
        let diff: u64 = if approve >= reject {
            approve - reject
        } else {
            reject - approve
        };
        if (diff as u128) * 5 > total_count as u128 {
            (true, approve >= reject)
        } else if now > start_time && now - start_time > vote_expire {
            (true, false)
        } else {
            (false, false)
        }
    }
}

} // verus!
