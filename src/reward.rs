//! Rewards of disbanded rooms: claims by former members and the retention
//! sweep.
use vstd::prelude::*;

use crate::error::Error;
use crate::platform::{Listen, credit, info_value, session_value};
use crate::table::{sum_by, Table};
use crate::types::{
    ids_unique, room_ids, AccountId, RewardStatus, RoomId, RoomRewardInfo, SessionIndex,
};

verus! {

/// How many sessions back, the current one included, a former member may
/// claim the reward of a disbanded room.
pub const REWARD_LOOKBACK: u32 = 20;

/// How many sessions the rewards of a session are kept.
pub const REWARD_RETENTION: u32 = 84;

/// How many rewards one sweep removes at most.
pub const SWEEP_LIMIT: usize = 200;

/// What `find_session` finds is filed.
proof fn lemma_find_session_found(st: Listen, r: RoomId, session: int, i: int)
    requires
        st.find_session(r, session, i).is_some(),
    ensures
        st.has_info(st.find_session(r, session, i).unwrap(), r),
    decreases REWARD_LOOKBACK - i,
{
    if i < REWARD_LOOKBACK && i >= 0 && session - i >= 0 && !st.has_info(session - i, r) {
        lemma_find_session_found(st, r, session, i + 1);
    }
}

/// Two states with rewards filed under the same sessions and rooms find the
/// same session.
proof fn lemma_find_session_same(pre: Listen, post: Listen, r: RoomId, session: int, i: int)
    requires
        forall|s: int, x: RoomId| #[trigger] pre.has_info(s, x) == post.has_info(s, x),
    ensures
        post.find_session(r, session, i) == pre.find_session(r, session, i),
    decreases REWARD_LOOKBACK - i,
{
    if i < REWARD_LOOKBACK && i >= 0 && session - i >= 0 {
        assert(pre.has_info(session - i, r) == post.has_info(session - i, r));
        lemma_find_session_same(pre, post, r, session, i + 1);
    }
}

impl Listen {
    /// A reward of room `r` is filed under session `s`.
    pub open spec fn has_info(&self, s: int, r: RoomId) -> bool {
        &&& 0 <= s <= u32::MAX
        &&& self.info_of_disband_room@.contains_key(s as u64)
        &&& self.info_of_disband_room@[s as u64]@.contains_key(r)
    }

    pub open spec fn info(&self, s: int, r: RoomId) -> RoomRewardInfo {
        self.info_of_disband_room@[s as u64]@[r]
    }

    /// The latest session, from `session - i` back to `session - 19`, under
    /// which a reward of room `r` is filed.
    pub open spec fn find_session(&self, r: RoomId, session: int, i: int) -> Option<int>
        decreases REWARD_LOOKBACK - i,
    {
        if i >= REWARD_LOOKBACK || i < 0 || session - i < 0 {
            None
        } else if self.has_info(session - i, r) {
            Some(session - i)
        } else {
            self.find_session(r, session, i + 1)
        }
    }

    /// Entry `e` of a room list waits for the reward of a disbanded room.
    pub open spec fn pending(&self, e: (RoomId, RewardStatus)) -> bool {
        e.1 == RewardStatus::NotGet && !self.room_exists(e.0)
    }

    /// Entry `e` waits for a reward that `find_session` finds from
    /// `session`, with a share left.
    pub open spec fn claimable(&self, e: (RoomId, RewardStatus), session: int) -> bool {
        &&& self.pending(e)
        &&& self.find_session(e.0, session, 0).is_some()
        &&& self.info(self.find_session(e.0, session, 0).unwrap(), e.0).already_get_count < self.info(
            self.find_session(e.0, session, 0).unwrap(),
            e.0,
        ).total_person
    }

    /// What `pay_out` pays for each entry of a room list.
    pub open spec fn reward_share(&self, session: int) -> spec_fn((RoomId, RewardStatus)) -> int {
        |e: (RoomId, RewardStatus)|
            if self.claimable(e, session) {
                self.info(self.find_session(e.0, session, 0).unwrap(), e.0).per_man_reward as int
            } else {
                0
            }
    }

    /// Every filed reward has paid out at most its pool, to at most as many
    /// former members as it was shared among.
    pub proof fn lemma_reward_bounded(&self, s: int, r: RoomId)
        requires
            self.inv(),
            self.has_info(s, r),
        ensures
            self.info(s, r).already_get_reward <= self.info(s, r).total_reward,
            self.info(s, r).already_get_count <= self.info(s, r).total_person,
    {
        assert(self.info_of_disband_room@[s as u64]@[r].wf());
    }

    fn has_info_exec(&self, s: u64, r: RoomId) -> (b: bool)
        requires
            self.wf(),
            s <= u32::MAX,
        ensures
            b == self.has_info(s as int, r),
    {
        match self.info_of_disband_room.get(s) {
            Some(t) => t.contains_key(r),
            None => false,
        }
    }

    /// Pays `who` its share of the reward of disbanded room `r`, found by
    /// `find_session` from `session`, if the reward still has shares left;
    /// says whether it paid.
    fn claim_reward(&mut self, who: AccountId, r: RoomId, session: SessionIndex) -> (got: bool)
        requires
            old(self).wf(),
            !old(self).room_exists(r),
        ensures
            final(self).total_issuance == old(self).total_issuance,
            final(self).wf(),
            final(self).value() == old(self).value(),
            final(self).all_room == old(self).all_room,
            final(self).all_listeners == old(self).all_listeners,
            final(self).red_packet_of_room == old(self).red_packet_of_room,
            final(self).group_id == old(self).group_id,
            forall|s: int, x: RoomId| #[trigger] final(self).has_info(s, x) == old(self).has_info(s, x),
            forall|s: int, x: RoomId| x != r && old(self).has_info(s, x) ==> #[trigger] final(self).info(s, x)
                == old(self).info(s, x),
            match old(self).find_session(r, session as int, 0) {
                None => !got && *final(self) == *old(self),
                Some(c) => {
                    let i = old(self).info(c, r);
                    &&& got == (i.already_get_count < i.total_person)
                    &&& !got ==> *final(self) == *old(self)
                    &&& got ==> {
                        &&& final(self).has_info(c, r)
                        &&& final(self).info(c, r).already_get_count == i.already_get_count + 1
                        &&& final(self).info(c, r).already_get_reward == i.already_get_reward + i.per_man_reward
                        &&& final(self).info(c, r).total_person == i.total_person
                        &&& final(self).info(c, r).per_man_reward == i.per_man_reward
                        &&& final(self).info(c, r).total_reward == i.total_reward
                        &&& forall|b: AccountId| #[trigger] final(self).balance_of(b) == old(self).balance_of(b)
                            + credit(b, who, i.per_man_reward as int)
                        &&& final(self).members(r) == if i.already_get_count + 1 == i.total_person {
                            Set::<AccountId>::empty()
                        } else {
                            old(self).members(r).remove(who)
                        }
                    }
                },
            },
    {
        let mut i: u32 = 0;
        let mut found: Option<u64> = None;
        while i < REWARD_LOOKBACK && found.is_none() && i <= session
            invariant
                i <= REWARD_LOOKBACK,
                self.wf(),
                found.is_none() ==> self.find_session(r, session as int, 0) == self.find_session(
                    r,
                    session as int,
                    i as int,
                ),
                found.is_some() ==> self.find_session(r, session as int, 0) == Some(found.unwrap() as int)
                    && self.has_info(found.unwrap() as int, r),
            decreases REWARD_LOOKBACK - i,
        {
            let cur = (session - i) as u64;
            if self.has_info_exec(cur, r) {
                found = Some(cur);
            }
            i = i + 1;
        }
        let c = match found {
            Some(c) => c,
            None => return false,
        };
        let info = match self.info_of_disband_room.get(c) {
            Some(t) => match t.get(r) {
                Some(x) => *x,
                None => return false,
            },
            None => return false,
        };
        if info.already_get_count >= info.total_person {
            return false;
        }
        let ghost s0 = *old(self);
        let per = info.per_man_reward;
        proof {
            assert(info.wf());
            assert(info.already_get_reward + per <= info.total_reward) by (nonlinear_arith)
                requires
                    info.already_get_reward == info.already_get_count * per,
                    info.total_person * per <= info.total_reward,
                    info.already_get_count < info.total_person,
                    per >= 0,
            ;
            s0.lemma_value_parts_nonneg();
            let t = s0.info_of_disband_room@[c];
            assert(forall|x: RoomRewardInfo| #[trigger] info_value()(x) >= 0);
            t.lemma_total_bounds(r, r, info_value());
            s0.info_of_disband_room.lemma_total_bounds(c, c, session_value());
        }
        self.ledger.deposit(who, per);
        let mut t = self.info_of_disband_room.remove(c).unwrap();
        let new_info = RoomRewardInfo {
            total_person: info.total_person,
            already_get_count: info.already_get_count + 1,
            total_reward: info.total_reward,
            already_get_reward: info.already_get_reward + per,
            per_man_reward: per,
        };
        proof {
            assert(new_info.already_get_reward == new_info.already_get_count * per) by (nonlinear_arith)
                requires
                    info.already_get_reward == info.already_get_count * per,
                    new_info.already_get_reward == info.already_get_reward + per,
                    new_info.already_get_count == info.already_get_count + 1,
            ;
        }
        let ghost t0 = t;
        t.insert(r, new_info);
        self.info_of_disband_room.insert(c, t);
        let ghost s1 = *self;
        match self.listeners_of_room.remove(r) {
            Some(mut members) => {
                if new_info.already_get_count < new_info.total_person {
                    members.remove(who);
                    self.listeners_of_room.insert(r, members);
                }
            },
            None => {},
        }
        proof {
            assert(self.value() == s0.value());
            assert forall|ss: u64| #[trigger] self.info_of_disband_room@.contains_key(ss)
                implies self.info_of_disband_room@[ss].wf() by {
                if ss != c {
                    assert(s0.info_of_disband_room@.contains_key(ss));
                }
            }
            assert forall|ss: u64, x: RoomId|
                self.info_of_disband_room@.contains_key(ss) && #[trigger] self.info_of_disband_room@[ss]@.contains_key(x)
                    implies self.info_of_disband_room@[ss]@[x].wf() && !self.all_room@.contains_key(x) && x < self.group_id by {
                if ss == c {
                    assert(t0@.contains_key(x));
                }
                assert(s0.info_of_disband_room@.contains_key(ss));
            }
            assert forall|a: AccountId, x: RoomId| #[trigger] self.in_list(a, x) implies x < self.group_id by {
                assert(s0.in_list(a, x));
            }
            assert forall|x: RoomId| #[trigger] self.all_room@.contains_key(x) implies self.room_ok(x) by {
                assert(s0.room_ok(x));
                assert(x != r);
                assert forall|a: AccountId| #[trigger] self.members(x).contains(a) == self.in_list(a, x) by {
                    assert(s0.members(x).contains(a) == s0.in_list(a, x));
                }
            }
            assert forall|x: RoomId| #[trigger] self.listeners_of_room@.contains_key(x) implies
                self.listeners_of_room@[x].wf() && x < self.group_id by {
                assert(s0.listeners_of_room@.contains_key(x));
            }
            assert forall|ss: int, x: RoomId| #[trigger] self.has_info(ss, x) == s0.has_info(ss, x) by {
                if 0 <= ss <= u32::MAX && ss as u64 == c {
                    assert(t0@.contains_key(x) == self.info_of_disband_room@[c]@.contains_key(x));
                }
            }
            assert forall|ss: int, x: RoomId| x != r && s0.has_info(ss, x) implies #[trigger] self.info(ss, x)
                == s0.info(ss, x) by {
                if ss as u64 == c {
                    assert(t0@[x] == s0.info_of_disband_room@[c]@[x]);
                }
            }
            if new_info.already_get_count == new_info.total_person {
                assert(self.members(r) =~= Set::<AccountId>::empty());
            } else if !s0.listeners_of_room@.contains_key(r) {
                assert(self.members(r) =~= s0.members(r).remove(who));
            }
        }
        true
    }

    /// `who` claims the rewards of the disbanded rooms in its room list not
    /// claimed yet, looking from session `session` back. An entry whose
    /// reward is found, with a share left, is paid and marked `Get`; one
    /// whose reward is not found within the lookback, or has no share left,
    /// is marked `Expire`.
    pub fn pay_out(&mut self, who: AccountId, session: SessionIndex) -> (r: Result<(), Error>)
        requires
            old(self).inv(),
        ensures
            final(self).inv(),
            final(self).value() == old(self).value(),
            old(self).room_list(who).len() == 0 ==> r == Err::<(), Error>(Error::NotIntoAnyRoom)
                && *final(self) == *old(self),
            old(self).room_list(who).len() > 0 ==> {
                let l0 = old(self).room_list(who);
                let l = final(self).room_list(who);
                &&& r.is_ok()
                &&& l.len() == l0.len()
                &&& forall|k: int| 0 <= k < l.len() ==> (#[trigger] l[k]).0 == l0[k].0
                &&& forall|k: int| 0 <= k < l.len() ==> (#[trigger] l[k]).1 == if old(self).claimable(
                    l0[k],
                    session as int,
                ) {
                    RewardStatus::Get
                } else if old(self).pending(l0[k]) {
                    RewardStatus::Expire
                } else {
                    l0[k].1
                }
                &&& final(self).balance_of(who) == old(self).balance_of(who) + sum_by(
                    l0,
                    old(self).reward_share(session as int),
                )
                &&& forall|b: AccountId| b != who ==> #[trigger] final(self).balance_of(b) == old(self).balance_of(b)
                &&& final(self).all_room == old(self).all_room
            },
    {
        let entries: Vec<(RoomId, RewardStatus)> = match self.all_listeners.get(who) {
            Some(p) => {
                let mut e: Vec<(RoomId, RewardStatus)> = Vec::new();
                let mut k: usize = 0;
                while k < p.rooms.len()
                    invariant
                        k <= p.rooms@.len(),
                        e@ == p.rooms@.subrange(0, k as int),
                    decreases p.rooms@.len() - k,
                {
                    e.push(p.rooms[k]);
                    k = k + 1;
                }
                assert(e@ =~= p.rooms@);
                e
            },
            None => Vec::new(),
        };
        if entries.len() == 0 {
            return Err(Error::NotIntoAnyRoom);
        }
        let ghost s0 = *old(self);
        let ghost l0 = entries@;
        let mut statuses: Vec<(RoomId, RewardStatus)> = Vec::new();
        let mut k: usize = 0;
        proof {
            assert(ids_unique(l0));
            assert(l0.subrange(0, 0) =~= Seq::<(RoomId, RewardStatus)>::empty());
        }
        while k < entries.len()
            invariant
                l0 == entries@,
                l0 == s0.room_list(who),
                ids_unique(l0),
                k <= l0.len(),
                self.wf(),
                self.value() == s0.value(),
                self.all_room == s0.all_room,
                self.all_listeners == s0.all_listeners,
                self.group_id == s0.group_id,
                self.total_issuance == s0.total_issuance,
                statuses@.len() == k,
                forall|j: int| 0 <= j < k ==> (#[trigger] statuses@[j]).0 == l0[j].0,
                forall|j: int| 0 <= j < k ==> (#[trigger] statuses@[j]).1 == if s0.claimable(l0[j], session as int) {
                    RewardStatus::Get
                } else if s0.pending(l0[j]) {
                    RewardStatus::Expire
                } else {
                    l0[j].1
                },
                forall|s: int, x: RoomId| #[trigger] self.has_info(s, x) == s0.has_info(s, x),
                forall|j: int, s: int| k <= j < l0.len() && #[trigger] s0.has_info(s, l0[j].0)
                    ==> self.info(s, l0[j].0) == s0.info(s, l0[j].0),
                self.balance_of(who) == s0.balance_of(who) + sum_by(l0.subrange(0, k as int), s0.reward_share(session as int)),
                forall|b: AccountId| b != who ==> #[trigger] self.balance_of(b) == s0.balance_of(b),
            decreases l0.len() - k,
        {
            let (room_id, status) = entries[k];
            let ghost before = *self;
            let mut new_status = status;
            if status == RewardStatus::NotGet && !self.all_room.contains_key(room_id) {
                let got = self.claim_reward(who, room_id, session);
                new_status = if got {
                    RewardStatus::Get
                } else {
                    RewardStatus::Expire
                };
            }
            proof {
                let e = l0[k as int];
                lemma_find_session_same(s0, before, room_id, session as int, 0);
                let f = s0.reward_share(session as int);
                let pre = l0.subrange(0, k as int);
                assert(l0.subrange(0, k + 1) == pre.push(e));
                crate::table::lemma_sum_push(pre, e, f);
                match s0.find_session(room_id, session as int, 0) {
                    Some(c) => {
                        assert(s0.has_info(c, room_id)) by {
                            lemma_find_session_found(s0, room_id, session as int, 0);
                        }
                        assert(before.info(c, room_id) == s0.info(c, room_id));
                    },
                    None => {},
                }
                assert forall|j: int, ss: int| k + 1 <= j < l0.len() && #[trigger] s0.has_info(ss, l0[j].0)
                    implies self.info(ss, l0[j].0) == s0.info(ss, l0[j].0) by {
                    assert(l0[j].0 != room_id);
                    assert(before.info(ss, l0[j].0) == s0.info(ss, l0[j].0));
                }
                assert forall|b: AccountId| b != who implies #[trigger] self.balance_of(b) == s0.balance_of(b) by {
                    assert(before.balance_of(b) == s0.balance_of(b));
                }
            }
            statuses.push((room_id, new_status));
            k = k + 1;
        }
        proof {
            assert(l0.subrange(0, l0.len() as int) == l0);
        }
        let ghost s1 = *self;
        let mut person = self.all_listeners.remove(who).unwrap();
        proof {
            assert(room_ids(statuses@) =~= room_ids(person.rooms@)) by {
                assert forall|x: RoomId| #[trigger] room_ids(statuses@).contains(x) == room_ids(person.rooms@).contains(x) by {
                    if room_ids(statuses@).contains(x) {
                        let j = choose|j: int| 0 <= j < statuses@.len() && statuses@[j].0 == x;
                        assert(person.rooms@[j].0 == x);
                    }
                    if room_ids(person.rooms@).contains(x) {
                        let j = choose|j: int| 0 <= j < person.rooms@.len() && person.rooms@[j].0 == x;
                        assert(statuses@[j].0 == x);
                    }
                }
            }
        }
        person.rooms = statuses;
        self.all_listeners.insert(who, person);
        proof {
            assert forall|b: AccountId| b != who implies #[trigger] self.balance_of(b) == s0.balance_of(b) by {
                assert(s1.balance_of(b) == s0.balance_of(b));
            }
            assert forall|a: AccountId, x: RoomId| #[trigger] self.in_list(a, x) implies x < self.group_id by {
                assert(s1.in_list(a, x));
            }
            assert forall|x: RoomId| #[trigger] self.all_room@.contains_key(x) implies self.room_ok(x) by {
                assert(s1.room_ok(x));
                assert forall|a: AccountId| #[trigger] self.members(x).contains(a) == self.in_list(a, x) by {
                    assert(s1.members(x).contains(a) == s1.in_list(a, x));
                }
            }
        }
        Ok(())
    }

    /// What the rewards filed under session key `s` still hold.
    pub open spec fn session_total(&self, s: u64) -> int {
        if self.info_of_disband_room@.contains_key(s) {
            self.info_of_disband_room@[s].total(info_value())
        } else {
            0
        }
    }

    /// The oldest session with rewards is swept once `session` is at least
    /// `REWARD_RETENTION` sessions past it.
    pub open spec fn sweep_due(&self, session: SessionIndex) -> bool {
        &&& self.all_session_index@.len() > 0
        &&& session >= self.all_session_index@[0]
        &&& session - self.all_session_index@[0] >= REWARD_RETENTION
    }

    /// Removes up to `SWEEP_LIMIT` rewards of the oldest session with rewards,
    /// once it is `REWARD_RETENTION` sessions old at session `session`: what
    /// they still hold goes to the treasury, and the member sets of their
    /// rooms are dropped. A session left with no rewards leaves the list.
    #[verifier::loop_isolation(false)]
    pub fn remove_expire_disband_info(&mut self, session: SessionIndex)
        requires
            old(self).inv(),
        ensures
            final(self).inv(),
            final(self).value() == old(self).value(),
            !old(self).sweep_due(session) ==> *final(self) == *old(self),
            old(self).sweep_due(session) ==> {
                let idx = old(self).all_session_index@[0] as u64;
                let t = old(self).config.treasury;
                &&& final(self).balance_of(t) == old(self).balance_of(t) + old(self).session_total(idx)
                    - final(self).session_total(idx)
                &&& forall|b: AccountId| b != t ==> #[trigger] final(self).balance_of(b) == old(self).balance_of(b)
                &&& forall|x: RoomId| #[trigger] final(self).has_info(idx as int, x) ==> old(self).has_info(idx as int, x)
                    && final(self).info(idx as int, x) == old(self).info(idx as int, x)
                &&& forall|ss: u64| ss != idx ==> #[trigger] final(self).info_of_disband_room@.contains_key(ss)
                    == old(self).info_of_disband_room@.contains_key(ss)
                    && (final(self).info_of_disband_room@.contains_key(ss) ==> final(self).info_of_disband_room@[ss]
                    == old(self).info_of_disband_room@[ss])
                &&& final(self).all_room == old(self).all_room
                &&& final(self).all_listeners == old(self).all_listeners
                &&& final(self).red_packet_of_room == old(self).red_packet_of_room
                &&& (old(self).info_of_disband_room@.contains_key(idx)
                    && old(self).info_of_disband_room@[idx]@.dom().len() > SWEEP_LIMIT) ==> {
                    &&& final(self).info_of_disband_room@.contains_key(idx)
                    &&& final(self).info_of_disband_room@[idx]@.dom().len()
                        == old(self).info_of_disband_room@[idx]@.dom().len() - SWEEP_LIMIT
                    &&& final(self).all_session_index == old(self).all_session_index
                }
                &&& (old(self).info_of_disband_room@.contains_key(idx)
                    ==> old(self).info_of_disband_room@[idx]@.dom().len() <= SWEEP_LIMIT)
                    ==> !final(self).info_of_disband_room@.contains_key(idx)
                    && final(self).all_session_index@ == old(self).all_session_index@.subrange(
                    1,
                    old(self).all_session_index@.len() as int,
                )
            },
    {
        if self.all_session_index.len() == 0 {
            return;
        }
        let index = self.all_session_index[0];
        if session < index || session - index < REWARD_RETENTION {
            return;
        }
        let key = index as u64;
        let ghost s0 = *old(self);
        proof {
            s0.lemma_value_parts_nonneg();
            if s0.info_of_disband_room@.contains_key(key) {
                s0.info_of_disband_room.lemma_total_bounds(key, key, session_value());
            }
        }
        let mut t = match self.info_of_disband_room.remove(key) {
            Some(t) => t,
            None => Table::new(),
        };
        let ghost t0 = t;
        let ghost mid = *self;
        let keys = t.keys();
        let limit: usize = if keys.len() < SWEEP_LIMIT {
            keys.len()
        } else {
            SWEEP_LIMIT
        };
        let treasury = self.config.treasury;
        let mut j: usize = 0;
        proof {
            t.lemma_dom_finite();
            assert(forall|x: RoomRewardInfo| #[trigger] info_value()(x) >= 0);
            assert(t0 == if s0.info_of_disband_room@.contains_key(key) {
                s0.info_of_disband_room@[key]
            } else {
                t0
            });
            if s0.info_of_disband_room@.contains_key(key) {
                assert(s0.session_total(key) == t0.total(info_value()));
            } else {
                assert(t0@ == Map::<RoomId, RoomRewardInfo>::empty());
            }
        }
        while j < limit
            invariant
                j <= limit <= keys@.len(),
                keys@.len() == t0@.dom().len(),
                t@.dom().finite(),
                t@.dom().len() == t0@.dom().len() - j,
                keys@.no_duplicates(),
                forall|k: u64| #[trigger] keys@.contains(k) == t0@.contains_key(k),
                t.wf(),
                forall|x: RoomId| #[trigger] t@.contains_key(x) == (t0@.contains_key(x) && !keys@.subrange(0, j as int).contains(x)),
                forall|x: RoomId| #[trigger] t@.contains_key(x) ==> t@[x] == t0@[x],
                forall|x: RoomId| t@.contains_key(x) ==> (#[trigger] t@[x]).wf(),
                self.ledger.wf(),
                self.ledger.total() + t.total(info_value()) == mid.ledger.total() + t0.total(info_value()),
                mid.ledger.total() + t0.total(info_value()) <= u128::MAX,
                self.balance_of(treasury) == mid.balance_of(treasury) + t0.total(info_value()) - t.total(info_value()),
                forall|b: AccountId| b != treasury ==> #[trigger] self.balance_of(b) == mid.balance_of(b),
                forall|x: RoomRewardInfo| #[trigger] info_value()(x) >= 0,
                self.listeners_of_room.wf(),
                forall|x: RoomId| #[trigger] self.listeners_of_room@.contains_key(x)
                    ==> mid.listeners_of_room@.contains_key(x) && self.listeners_of_room@[x] == mid.listeners_of_room@[x],
                forall|x: RoomId| #[trigger] mid.listeners_of_room@.contains_key(x) && !t0@.contains_key(x)
                    ==> self.listeners_of_room@.contains_key(x),
                treasury == mid.config.treasury,
                self.info_of_disband_room == mid.info_of_disband_room,
                self.all_room == mid.all_room,
                self.all_listeners == mid.all_listeners,
                self.red_packet_of_room == mid.red_packet_of_room,
                self.config == mid.config,
                self.group_id == mid.group_id,
                self.red_packet_id == mid.red_packet_id,
                self.burned == mid.burned,
                self.total_issuance == mid.total_issuance,
                self.multisig == mid.multisig,
                self.server_id == mid.server_id,
                self.already_air_drop_list == mid.already_air_drop_list,
                self.all_session_index == mid.all_session_index,
                self.create_payment == mid.create_payment,
            decreases limit - j,
        {
            let room_id = keys[j];
            let ghost sb = *self;
            let info = match t.get(room_id) {
                Some(x) => *x,
                None => RoomRewardInfo {
                    total_person: 0,
                    already_get_count: 0,
                    total_reward: 0,
                    already_get_reward: 0,
                    per_man_reward: 0,
                },
            };
            proof {
                assert(keys@.contains(room_id));
                assert(!keys@.subrange(0, j as int).contains(room_id)) by {
                    if keys@.subrange(0, j as int).contains(room_id) {
                        let m = choose|m: int| 0 <= m < j && keys@.subrange(0, j as int)[m] == room_id;
                        assert(keys@[m] == keys@[j as int]);
                    }
                }
                assert(t@.contains_key(room_id));
                t.lemma_total_bounds(room_id, room_id, info_value());
                self.ledger.lemma_total_nonneg();
            }
            self.listeners_of_room.remove(room_id);
            let remain = info.total_reward - info.already_get_reward;
            let ghost lb = self.ledger;
            self.ledger.deposit(treasury, remain);
            t.remove(room_id);
            proof {
                assert forall|b: AccountId| b != treasury implies #[trigger] self.balance_of(b) == mid.balance_of(b) by {
                    assert(self.ledger.balance_of(b) == lb.balance_of(b));
                    assert(sb.balance_of(b) == mid.balance_of(b));
                }
                let sub0 = keys@.subrange(0, j as int);
                let sub1 = keys@.subrange(0, j + 1);
                assert(sub1 == sub0.push(room_id));
                assert forall|x: RoomId| #[trigger] t@.contains_key(x) == (t0@.contains_key(x)
                    && !sub1.contains(x)) by {
                    if sub0.contains(x) {
                        let m = choose|m: int| 0 <= m < sub0.len() && sub0[m] == x;
                        assert(sub1[m] == x);
                    }
                    if sub1.contains(x) && x != room_id {
                        let m = choose|m: int| 0 <= m < sub1.len() && sub1[m] == x;
                        assert(sub0[m] == x);
                    }
                    assert(sub1[j as int] == room_id);
                }
            }
            j = j + 1;
        }
        let ghost se = *self;
        let rest_keys = t.keys();
        let empty = rest_keys.len() == 0;
        let ghost t1 = t;
        proof {
            if limit == keys.len() {
                assert forall|x: RoomId| !(#[trigger] t1@.contains_key(x)) by {
                    if t1@.contains_key(x) {
                        assert(keys@.subrange(0, limit as int) == keys@);
                    }
                }
                if rest_keys@.len() > 0 {
                    assert(rest_keys@.contains(rest_keys@[0]));
                }
            }
        }
        if empty {
            self.all_session_index.remove(0);
        } else {
            self.info_of_disband_room.insert(key, t);
        }
        proof {
            if empty {
                assert forall|x: RoomId| !(#[trigger] t1@.contains_key(x)) by {
                    if t1@.contains_key(x) {
                        assert(rest_keys@.contains(x));
                    }
                }
            }
            assert(self.value() == s0.value()) by {
                if empty {
                    assert(t1@ =~= Map::<RoomId, RoomRewardInfo>::empty());
                    t1.lemma_total_empty(info_value());
                }
            }
            assert forall|b: AccountId| b != treasury implies #[trigger] self.balance_of(b) == s0.balance_of(b) by {
                assert(se.balance_of(b) == mid.balance_of(b));
            }
            assert forall|ss: u64| #[trigger] self.info_of_disband_room@.contains_key(ss)
                implies self.info_of_disband_room@[ss].wf() by {
                if ss != key {
                    assert(s0.info_of_disband_room@.contains_key(ss));
                }
            }
            assert forall|ss: u64, x: RoomId|
                self.info_of_disband_room@.contains_key(ss) && #[trigger] self.info_of_disband_room@[ss]@.contains_key(x)
                    implies self.info_of_disband_room@[ss]@[x].wf() && !self.all_room@.contains_key(x) && x < self.group_id by {
                assert(s0.info_of_disband_room@.contains_key(ss));
                if ss == key {
                    assert(t0@.contains_key(x));
                }
            }
            assert forall|a: AccountId, x: RoomId| #[trigger] self.in_list(a, x) implies x < self.group_id by {
                assert(s0.in_list(a, x));
            }
            assert forall|x: RoomId| #[trigger] self.all_room@.contains_key(x) implies self.room_ok(x) by {
                assert(s0.room_ok(x));
                assert(s0.listeners_of_room@.contains_key(x));
                if t0@.contains_key(x) {
                    assert(s0.info_of_disband_room@.contains_key(key));
                    assert(s0.info_of_disband_room@[key]@.contains_key(x));
                }
                assert(!t0@.contains_key(x));
                assert(mid.listeners_of_room@.contains_key(x));
                assert(self.listeners_of_room@.contains_key(x));
                assert(self.listeners_of_room@[x] == s0.listeners_of_room@[x]);
                assert(self.members(x) == s0.members(x));
                assert forall|a: AccountId| #[trigger] self.members(x).contains(a) == self.in_list(a, x) by {
                    assert(s0.members(x).contains(a) == s0.in_list(a, x));
                }
            }
            assert forall|x: RoomId| #[trigger] self.listeners_of_room@.contains_key(x) implies
                self.listeners_of_room@[x].wf() && x < self.group_id by {
                assert(s0.listeners_of_room@.contains_key(x));
            }
        }
    }
}

} // verus!
