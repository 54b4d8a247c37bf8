//! Disband votes: opening one, voting, and what a passed or failed vote does.
use vstd::prelude::*;

use crate::account_set::AccountSet;
use crate::error::Error;
use crate::fees::{percent, percent_of};
use crate::platform::{Listen, credit, cooling, is_cooling, room_pool};
use crate::red_packet::refund_to;
use crate::table::{sum_by, Table};
use crate::types::{
    AccountId, BlockNumber, DisbandVote, GroupInfo, RoomId, RoomRewardInfo, SessionIndex, VoteType,
};
use crate::vote::{is_vote_end, vote_outcome};

verus! {

impl Listen {
    /// Why `ask_for_disband_room` refuses, if it does.
    pub open spec fn ask_error(&self, who: AccountId, group_id: RoomId, now: BlockNumber) -> Option<Error> {
        let g = self.room(group_id);
        if !self.room_exists(group_id) {
            Some(Error::RoomNotExists)
        } else if !self.members(group_id).contains(who) {
            Some(Error::NotInRoom)
        } else if cooling(g.last_disband_end_hight, now, self.disband_interval.spec_get(g.max_members)) {
            Some(Error::NotUntilDisbandTime)
        } else if g.is_voting {
            Some(Error::IsVoting)
        } else if self.balance_of(who) < percent_of(g.create_payment as int, 10) {
            Some(Error::FreeAmountNotEnough)
        } else {
            None
        }
    }

    /// Member `who` opens a disband vote in room `group_id`, paying a tenth of
    /// the room's creation fee to the treasury, and votes for it.
    pub fn ask_for_disband_room(&mut self, who: AccountId, group_id: RoomId, now: BlockNumber) -> (r: Result<(), Error>)
        requires
            old(self).inv(),
        ensures
            final(self).inv(),
            final(self).value() == old(self).value(),
            match old(self).ask_error(who, group_id, now) {
                Some(e) => r == Err::<(), Error>(e) && *final(self) == *old(self),
                None => {
                    let g0 = old(self).room(group_id);
                    let g = final(self).room(group_id);
                    let bond = percent_of(g0.create_payment as int, 10);
                    &&& r.is_ok()
                    &&& final(self).all_room@ == old(self).all_room@.insert(group_id, g)
                    &&& g.is_voting
                    &&& g.this_disband_start_time == now
                    &&& g.disband_vote.approve_man@ == set![who]
                    &&& g.disband_vote.reject_man@ == Set::<AccountId>::empty()
                    &&& g.total_balances == g0.total_balances
                    &&& g.group_manager_balances == g0.group_manager_balances
                    &&& g.now_members_number == g0.now_members_number
                    &&& g.group_manager == g0.group_manager
                    &&& g.last_disband_end_hight == g0.last_disband_end_hight
                    &&& forall|b: AccountId| #[trigger] final(self).balance_of(b) == old(self).balance_of(b)
                        - credit(b, who, bond) + credit(b, old(self).config.treasury, bond)
                    &&& final(self).listeners_of_room == old(self).listeners_of_room
                    &&& final(self).all_listeners == old(self).all_listeners
                    &&& final(self).red_packet_of_room == old(self).red_packet_of_room
                    &&& final(self).info_of_disband_room == old(self).info_of_disband_room
                },
            },
    {
        match self.is_in_room(group_id, who) {
            Ok(true) => {},
            Ok(false) => return Err(Error::NotInRoom),
            Err(e) => return Err(e),
        }
        let (last, tier, voting, create_payment) = match self.all_room.get(group_id) {
            Some(g) => (g.last_disband_end_hight, g.max_members, g.is_voting, g.create_payment),
            None => return Err(Error::RoomNotExists),
        };
        if is_cooling(last, now, self.disband_interval.get(tier)) {
            return Err(Error::NotUntilDisbandTime);
        }
        if voting {
            return Err(Error::IsVoting);
        }
        let bond = percent(create_payment, 10);
        let ghost s0 = *old(self);
        proof {
            s0.lemma_value_parts_nonneg();
        }
        let treasury = self.config.treasury;
        let t = self.ledger.transfer(who, treasury, bond);
        if t.is_err() {
            assert(*self == s0);
            return Err(Error::FreeAmountNotEnough);
        }
        let mut room = self.all_room.remove(group_id).unwrap();
        room.is_voting = true;
        room.this_disband_start_time = now;
        let mut approve_man = AccountSet::new();
        approve_man.insert(who);
        room.disband_vote = DisbandVote { approve_man, reject_man: AccountSet::new() };
        self.all_room.insert(group_id, room);
        proof {
            assert(self.room(group_id).disband_vote.approve_man@.disjoint(self.room(group_id).disband_vote.reject_man@));
            assert forall|a: AccountId, x: RoomId| #[trigger] self.in_list(a, x) implies x < self.group_id by {
                assert(s0.in_list(a, x));
            }
            assert forall|x: RoomId| #[trigger] self.all_room@.contains_key(x) implies self.room_ok(x) by {
                assert(s0.room_ok(x));
                assert forall|a: AccountId| #[trigger] self.members(x).contains(a) == self.in_list(a, x) by {
                    assert(s0.members(x).contains(a) == s0.in_list(a, x));
                }
            }
            assert forall|b: AccountId| #[trigger] self.balance_of(b) == s0.balance_of(b)
                - credit(b, who, bond as int) + credit(b, treasury, bond as int) by {}
        }
        Ok(())
    }

    /// Why `vote` refuses, if it does.
    pub open spec fn vote_error(&self, who: AccountId, group_id: RoomId, choice: VoteType) -> Option<Error> {
        let v = self.room(group_id).disband_vote;
        if !self.room_exists(group_id) {
            Some(Error::RoomNotExists)
        } else if !self.members(group_id).contains(who) {
            Some(Error::NotInRoom)
        } else if !self.room(group_id).is_voting {
            Some(Error::NotVoting)
        } else if (choice == VoteType::Approve && v.approve_man@.contains(who)) || (choice
            == VoteType::Reject && v.reject_man@.contains(who)) {
            Some(Error::RepeatVote)
        } else {
            None
        }
    }

    /// The approving and rejecting sides of the vote in room `group_id` once
    /// `who` has voted `choice`.
    pub open spec fn sides_after(&self, who: AccountId, group_id: RoomId, choice: VoteType) -> (
        Set<AccountId>,
        Set<AccountId>,
    ) {
        let v = self.room(group_id).disband_vote;
        match choice {
            VoteType::Approve => (v.approve_man@.insert(who), v.reject_man@.remove(who)),
            VoteType::Reject => (v.approve_man@.remove(who), v.reject_man@.insert(who)),
        }
    }

    /// Whether the vote in room `group_id` ends, and passes, once `who` has
    /// voted `choice` at tick `now`.
    pub open spec fn outcome_after(
        &self,
        who: AccountId,
        group_id: RoomId,
        choice: VoteType,
        now: BlockNumber,
    ) -> (bool, bool) {
        let g = self.room(group_id);
        let (a, r) = self.sides_after(who, group_id, choice);
        vote_outcome(
            g.now_members_number as int,
            a.len() as int,
            r.len() as int,
            g.this_disband_start_time as int,
            now as int,
            self.config.vote_expire as int,
        )
    }

    /// What a passed vote files for the members of a room: the pool less
    /// the manager's part, shared evenly.
    pub open spec fn reward_of(g: GroupInfo) -> RoomRewardInfo {
        let listener = (g.total_balances - g.group_manager_balances) as u128;
        RoomRewardInfo {
            total_person: g.now_members_number,
            already_get_count: 0,
            total_reward: listener,
            already_get_reward: 0,
            per_man_reward: (listener / (g.now_members_number as u128)) as u128,
        }
    }

    /// Member `who` votes `choice` on the disband vote of room `group_id` at
    /// tick `now`, in session `session`; a vote already cast the other way is
    /// withdrawn. If the vote then ends and passes, the room's red packets
    /// are settled, the manager is paid the manager's part, the rest is filed
    /// as a reward under `session`, and the room is removed. If it ends and
    /// fails, the room goes back to idle and its disband cool-down starts.
    pub fn vote(
        &mut self,
        who: AccountId,
        group_id: RoomId,
        choice: VoteType,
        now: BlockNumber,
        session: SessionIndex,
    ) -> (r: Result<(), Error>)
        requires
            old(self).inv(),
        ensures
            final(self).inv(),
            final(self).value() == old(self).value(),
            final(self).listeners_of_room == old(self).listeners_of_room,
            final(self).all_listeners == old(self).all_listeners,
            match old(self).vote_error(who, group_id, choice) {
                Some(e) => r == Err::<(), Error>(e) && *final(self) == *old(self),
                None => {
                    let g0 = old(self).room(group_id);
                    let g = final(self).room(group_id);
                    let (a, rj) = old(self).sides_after(who, group_id, choice);
                    let (ended, passed) = old(self).outcome_after(who, group_id, choice, now);
                    &&& r.is_ok()
                    &&& !ended ==> {
                        &&& final(self).all_room@ == old(self).all_room@.insert(group_id, g)
                        &&& g.disband_vote.approve_man@ == a
                        &&& g.disband_vote.reject_man@ == rj
                        &&& g.is_voting
                        &&& g.total_balances == g0.total_balances
                        &&& g.group_manager_balances == g0.group_manager_balances
                        &&& g.now_members_number == g0.now_members_number
                        &&& g.this_disband_start_time == g0.this_disband_start_time
                        &&& final(self).ledger == old(self).ledger
                        &&& final(self).red_packet_of_room == old(self).red_packet_of_room
                        &&& final(self).info_of_disband_room == old(self).info_of_disband_room
                    }
                    &&& ended && !passed ==> {
                        &&& final(self).all_room@ == old(self).all_room@.insert(group_id, g)
                        &&& !g.is_voting
                        &&& g.last_disband_end_hight == now
                        &&& g.this_disband_start_time == 0
                        &&& g.disband_vote.approve_man@ == Set::<AccountId>::empty()
                        &&& g.disband_vote.reject_man@ == Set::<AccountId>::empty()
                        &&& g.total_balances == g0.total_balances
                        &&& g.group_manager_balances == g0.group_manager_balances
                        &&& g.now_members_number == g0.now_members_number
                        &&& final(self).ledger == old(self).ledger
                        &&& final(self).red_packet_of_room == old(self).red_packet_of_room
                        &&& final(self).info_of_disband_room == old(self).info_of_disband_room
                    }
                    &&& ended && passed ==> {
                        &&& final(self).all_room@ == old(self).all_room@.remove(group_id)
                        &&& !final(self).red_packet_of_room@.contains_key(group_id)
                        &&& forall|x: RoomId| x != group_id ==> #[trigger] final(self).packets(x) == old(self).packets(x)
                        &&& final(self).info_of_disband_room@.contains_key(session as u64)
                        &&& final(self).info_of_disband_room@[session as u64]@.contains_key(group_id)
                        &&& final(self).info_of_disband_room@[session as u64]@[group_id] == Self::reward_of(g0)
                        &&& final(self).all_session_index@ == if old(self).all_session_index@.len() > 0
                            && old(self).all_session_index@.last() == session {
                            old(self).all_session_index@
                        } else {
                            old(self).all_session_index@.push(session)
                        }
                        &&& forall|b: AccountId| #[trigger] final(self).balance_of(b) == old(self).balance_of(b)
                            + credit(b, g0.group_manager, g0.group_manager_balances as int)
                            + sum_by(old(self).packets(group_id), refund_to(b, true, now))
                    }
                },
            },
    {
        match self.is_in_room(group_id, who) {
            Ok(true) => {},
            Ok(false) => return Err(Error::NotInRoom),
            Err(e) => return Err(e),
        }
        match self.all_room.get(group_id) {
            Some(g) => {
                if !g.is_voting {
                    return Err(Error::NotVoting);
                }
                match choice {
                    VoteType::Approve => {
                        if g.disband_vote.approve_man.contains(who) {
                            return Err(Error::RepeatVote);
                        }
                    },
                    VoteType::Reject => {
                        if g.disband_vote.reject_man.contains(who) {
                            return Err(Error::RepeatVote);
                        }
                    },
                }
            },
            None => return Err(Error::RoomNotExists),
        }
        let ghost s0 = *old(self);
        proof {
            assert(s0.room_ok(group_id));
            s0.lemma_value_parts_nonneg();
            s0.all_room.lemma_total_bounds(group_id, group_id, room_pool());
        }
        let mut room = self.all_room.remove(group_id).unwrap();
        match choice {
            VoteType::Approve => {
                room.disband_vote.approve_man.insert(who);
                room.disband_vote.reject_man.remove(who);
            },
            VoteType::Reject => {
                room.disband_vote.reject_man.insert(who);
                room.disband_vote.approve_man.remove(who);
            },
        }
        let (ended, passed) = is_vote_end(
            room.now_members_number,
            &room.disband_vote,
            room.this_disband_start_time,
            now,
            self.config.vote_expire,
        );
        if !ended || !passed {
            if ended {
                room.is_voting = false;
                room.last_disband_end_hight = now;
                room.this_disband_start_time = 0;
                room.disband_vote = DisbandVote::new();
            }
            self.all_room.insert(group_id, room);
            proof {
                assert forall|a: AccountId, x: RoomId| #[trigger] self.in_list(a, x) implies x < self.group_id by {
                    assert(s0.in_list(a, x));
                }
                assert forall|x: RoomId| #[trigger] self.all_room@.contains_key(x) implies self.room_ok(x) by {
                    assert(s0.room_ok(x));
                    assert forall|a: AccountId| #[trigger] self.members(x).contains(a) == self.in_list(a, x) by {
                        assert(s0.members(x).contains(a) == s0.in_list(a, x));
                    }
                }
            }
            return Ok(());
        }
        // The vote passed: the room is dissolved.
        let ghost sr = *self;
        proof {
            assert forall|a: AccountId, x: RoomId| #[trigger] self.in_list(a, x) implies x < self.group_id by {
                assert(s0.in_list(a, x));
            }
            assert forall|x: RoomId| #[trigger] self.all_room@.contains_key(x) implies self.room_ok(x) by {
                assert(s0.room_ok(x));
                assert forall|a: AccountId| #[trigger] self.members(x).contains(a) == self.in_list(a, x) by {
                    assert(s0.members(x).contains(a) == s0.in_list(a, x));
                }
            }
        }
        self.remove_redpacket_by_room_id(group_id, true, now);
        let ghost s1 = *self;
        let len = self.all_session_index.len();
        if len == 0 || self.all_session_index[len - 1] != session {
            self.all_session_index.push(session);
        }
        let manager = room.group_manager;
        let manager_reward = room.group_manager_balances;
        proof {
            s1.lemma_value_parts_nonneg();
        }
        self.ledger.deposit(manager, manager_reward);
        let listener_reward = room.total_balances - room.group_manager_balances;
        let n = room.now_members_number as u128;
        let per_man_reward = listener_reward / n;
        proof {
            assert(n * (listener_reward / n) <= listener_reward) by (nonlinear_arith)
                requires
                    n > 0,
            ;
        }
        let info = RoomRewardInfo {
            total_person: room.now_members_number,
            already_get_count: 0,
            total_reward: listener_reward,
            already_get_reward: 0,
            per_man_reward,
        };
        let key = session as u64;
        let mut infos = match self.info_of_disband_room.remove(key) {
            Some(t) => t,
            None => Table::new(),
        };
        let ghost t0 = infos;
        proof {
            if s1.info_of_disband_room@.contains_key(key) {
                assert(t0 == s1.info_of_disband_room@[key]);
                assert(!t0@.contains_key(group_id));
            }
        }
        infos.insert(group_id, info);
        self.info_of_disband_room.insert(key, infos);
        proof {
            assert(self.value() == s0.value());
            assert forall|ss: u64| #[trigger] self.info_of_disband_room@.contains_key(ss)
                implies self.info_of_disband_room@[ss].wf() by {
                if ss != key {
                    assert(s1.info_of_disband_room@.contains_key(ss));
                }
            }
            assert forall|ss: u64, x: RoomId|
                self.info_of_disband_room@.contains_key(ss) && #[trigger] self.info_of_disband_room@[ss]@.contains_key(x)
                    implies self.info_of_disband_room@[ss]@[x].wf() && !self.all_room@.contains_key(x) && x < self.group_id by {
                if ss != key || x != group_id {
                    if ss == key {
                        assert(t0@.contains_key(x));
                        assert(s1.info_of_disband_room@.contains_key(ss));
                    } else {
                        assert(s1.info_of_disband_room@.contains_key(ss));
                    }
                }
            }
            s1.lemma_rooms_frame(self);
            assert forall|b: AccountId| #[trigger] self.balance_of(b) == s0.balance_of(b)
                + credit(b, manager, manager_reward as int)
                + sum_by(s0.packets(group_id), refund_to(b, true, now)) by {
                assert(sr.packets(group_id) == s0.packets(group_id));
                assert(sr.balance_of(b) == s0.balance_of(b));
                assert(s1.balance_of(b) == sr.balance_of(b) + sum_by(sr.packets(group_id), refund_to(b, true, now)));
                if b != manager {
                    assert(self.balance_of(b) == s1.balance_of(b));
                }
            }
            assert forall|x: RoomId| x != group_id implies #[trigger] self.packets(x) == s0.packets(x) by {
                assert(s1.packets(x) == sr.packets(x));
            }
        }
        Ok(())
    }

    /// Once a disband vote has ended, the room being gone or idle, a further
    /// vote on it is refused; `vote` then leaves the state as it was.
    pub proof fn lemma_ended_vote_is_inert(&self, who: AccountId, r: RoomId, choice: VoteType)
        requires
            !self.room_exists(r) || !self.room(r).is_voting,
        ensures
            self.vote_error(who, r, choice).is_some(),
    {
    }

    /// No account is counted on both sides of a disband vote.
    pub proof fn lemma_votes_disjoint(&self, r: RoomId, a: AccountId)
        requires
            self.inv(),
            self.room_exists(r),
        ensures
            !(self.room(r).disband_vote.approve_man@.contains(a) && self.room(r).disband_vote.reject_man@.contains(
                a,
            )),
    {
        assert(self.room_ok(r));
    }
}

} // verus!
