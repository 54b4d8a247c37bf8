//! The room platform's state and the operations on it.
use vstd::prelude::*;

use crate::account_set::AccountSet;
use crate::error::Error;
use crate::ledger::Ledger;
use crate::sort::{sort_account_id, strictly_sorted};
use crate::table::{sum_by, Table};
use crate::types::{
    ids_unique, room_ids, AccountId, AudioCost, Balance, BlockNumber, CreateCost, DisbandTime,
    GroupInfo, GroupMaxMembers, PersonInfo, PropsCost, RedPacket, RemoveTime, RewardStatus, RoomId,
    RoomRewardInfo, SessionIndex,
};

verus! {

/// `amount` where `b` is `a`, else nothing.
pub open spec fn credit(b: AccountId, a: AccountId, amount: int) -> int {
    if b == a {
        amount
    } else {
        0
    }
}

/// A cool-down of `interval` ticks since `last` (zero: never) still runs at
/// tick `now`.
pub open spec fn cooling(last: BlockNumber, now: BlockNumber, interval: BlockNumber) -> bool {
    last > 0 && now <= last + interval
}

pub(crate) fn is_cooling(last: BlockNumber, now: BlockNumber, interval: BlockNumber) -> (r: bool)
    ensures
        r == cooling(last, now, interval),
{
    last > 0 && (now <= last || now - last <= interval)
}

/// Parameters fixed when the platform is set up.
#[derive(Clone, Copy, Debug, PartialEq, Eq, Structural)]
pub struct Config {
    /// The account that receives fees and swept rewards.
    pub treasury: AccountId,
    /// What one air drop pays.
    pub air_drop_amount: Balance,
    /// How many ticks a disband vote may stay open.
    pub vote_expire: BlockNumber,
    /// The least amount one claim of a red packet may take.
    pub red_packet_min_amount: Balance,
    /// How many ticks a red packet lives.
    pub red_pack_expire: BlockNumber,
}

pub open spec fn room_pool() -> spec_fn(GroupInfo) -> int {
    |g: GroupInfo| g.total_balances as int
}

pub open spec fn packet_value() -> spec_fn(RedPacket) -> int {
    |p: RedPacket| p.remaining()
}

pub open spec fn packets_value() -> spec_fn(Vec<RedPacket>) -> int {
    |ps: Vec<RedPacket>| sum_by(ps@, packet_value())
}

pub open spec fn info_value() -> spec_fn(RoomRewardInfo) -> int {
    |i: RoomRewardInfo| i.remaining()
}

pub open spec fn session_value() -> spec_fn(Table<RoomRewardInfo>) -> int {
    |t: Table<RoomRewardInfo>| t.total(info_value())
}

/// The whole state of the platform.
pub struct Listen {
    pub config: Config,
    /// The accounts' free balances.
    pub ledger: Ledger,
    /// What purchases have paid into the sink.
    pub burned: Balance,
    /// All value that has entered the platform.
    pub total_issuance: Balance,
    /// Accounts that have had their air drop.
    pub already_air_drop_list: AccountSet,
    /// The id the next room gets.
    pub group_id: u64,
    pub create_payment: CreateCost,
    /// The id the next red packet gets.
    pub red_packet_id: u128,
    /// The active rooms.
    pub all_room: Table<GroupInfo>,
    /// The members of each room, kept after a disband until all are paid.
    pub listeners_of_room: Table<AccountSet>,
    /// What is recorded of each account.
    pub all_listeners: Table<PersonInfo>,
    /// Rewards of disbanded rooms, by session and then by room.
    pub info_of_disband_room: Table<Table<RoomRewardInfo>>,
    /// The sessions that hold rewards, oldest first.
    pub all_session_index: Vec<SessionIndex>,
    /// The red packets of each room.
    pub red_packet_of_room: Table<Vec<RedPacket>>,
    /// The multisig members, its threshold and its account.
    pub multisig: Option<(Vec<AccountId>, u16, AccountId)>,
    /// The relay account that claims red packets on members' behalf.
    pub server_id: Option<AccountId>,
    pub remove_interval: RemoveTime,
    pub disband_interval: DisbandTime,
    pub props_payment: PropsCost,
    pub audio_payment: AudioCost,
}

impl Listen {
    /// All value the platform holds: balances, room pools, unclaimed red
    /// packets, unpaid rewards and the sink.
    pub open spec fn value(&self) -> int {
        self.ledger.total() + self.all_room.total(room_pool()) + self.red_packet_of_room.total(
            packets_value(),
        ) + self.info_of_disband_room.total(session_value()) + self.burned
    }

    pub open spec fn balance_of(&self, a: AccountId) -> int {
        self.ledger.balance_of(a)
    }

    pub open spec fn room_exists(&self, r: RoomId) -> bool {
        self.all_room@.contains_key(r)
    }

    pub open spec fn room(&self, r: RoomId) -> GroupInfo {
        self.all_room@[r]
    }

    /// The members of room `r`.
    pub open spec fn members(&self, r: RoomId) -> Set<AccountId> {
        if self.listeners_of_room@.contains_key(r) {
            self.listeners_of_room@[r]@
        } else {
            Set::empty()
        }
    }

    /// Room `r` is in the room list of account `a`.
    pub open spec fn in_list(&self, a: AccountId, r: RoomId) -> bool {
        self.all_listeners@.contains_key(a) && room_ids(self.all_listeners@[a].rooms@).contains(r)
    }

    pub open spec fn room_list(&self, a: AccountId) -> Seq<(RoomId, RewardStatus)> {
        if self.all_listeners@.contains_key(a) {
            self.all_listeners@[a].rooms@
        } else {
            Seq::empty()
        }
    }

    pub open spec fn packets(&self, r: RoomId) -> Seq<RedPacket> {
        if self.red_packet_of_room@.contains_key(r) {
            self.red_packet_of_room@[r]@
        } else {
            Seq::empty()
        }
    }

    /// What holds of each active room.
    pub open spec fn room_ok(&self, r: RoomId) -> bool {
        let g = self.all_room@[r];
        &&& g.group_id == r
        &&& r < self.group_id
        &&& g.group_manager_balances <= g.total_balances
        &&& 1 <= g.now_members_number <= g.max_members.capacity()
        &&& g.disband_vote.wf()
        &&& self.listeners_of_room@.contains_key(r)
        &&& self.listeners_of_room@[r]@.len() == g.now_members_number
        &&& self.listeners_of_room@[r]@.contains(g.group_manager)
        &&& forall|a: AccountId| #[trigger] self.members(r).contains(a) == self.in_list(a, r)
    }

    /// Membership holds together: a room's member set and its members' room
    /// lists agree.
    pub open spec fn rooms_ok(&self) -> bool {
        &&& self.all_room.wf()
        &&& self.listeners_of_room.wf()
        &&& self.all_listeners.wf()
        &&& forall|r: RoomId| #[trigger] self.all_room@.contains_key(r) ==> self.room_ok(r)
        &&& forall|r: RoomId| #[trigger]
            self.listeners_of_room@.contains_key(r) ==> self.listeners_of_room@[r].wf()
                && r < self.group_id
        &&& forall|a: AccountId, r: RoomId| #[trigger] self.in_list(a, r) ==> r < self.group_id
        &&& forall|a: AccountId| #[trigger]
            self.all_listeners@.contains_key(a) ==> ids_unique(self.all_listeners@[a].rooms@)
    }

    pub open spec fn packets_ok(&self) -> bool {
        &&& self.red_packet_of_room.wf()
        &&& forall|r: RoomId, i: int| #[trigger]
            self.red_packet_of_room@.contains_key(r) && 0 <= i < self.red_packet_of_room@[r]@.len()
                ==> (#[trigger] self.red_packet_of_room@[r]@[i]).wf()
                && self.red_packet_of_room@[r]@[i].id < self.red_packet_id
    }

    pub open spec fn rewards_ok(&self) -> bool {
        &&& self.info_of_disband_room.wf()
        &&& forall|s: u64| #[trigger]
            self.info_of_disband_room@.contains_key(s) ==> self.info_of_disband_room@[s].wf()
        &&& forall|s: u64, r: RoomId|
            self.info_of_disband_room@.contains_key(s) && #[trigger] self.info_of_disband_room@[s]@.contains_key(r)
                ==> self.info_of_disband_room@[s]@[r].wf() && !self.all_room@.contains_key(r) && r < self.group_id
    }

    /// The invariant of the platform.
    pub open spec fn wf(&self) -> bool {
        &&& self.ledger.wf()
        &&& self.already_air_drop_list.wf()
        &&& self.rooms_ok()
        &&& self.packets_ok()
        &&& self.rewards_ok()
        &&& self.value() <= u128::MAX
    }

    /// The multisig account, if one is set.
    pub open spec fn multisig_account(&self) -> Option<AccountId> {
        match self.multisig {
            Some(m) => Some(m.2),
            None => None,
        }
    }

    /// Membership holds together in a state whose membership tables are
    /// those of one where it does.
    pub proof fn lemma_rooms_frame(&self, post: &Self)
        requires
            self.rooms_ok(),
            post.all_room == self.all_room,
            post.listeners_of_room == self.listeners_of_room,
            post.all_listeners == self.all_listeners,
            post.group_id == self.group_id,
        ensures
            post.rooms_ok(),
    {
        assert forall|a: AccountId, r: RoomId| #[trigger] post.in_list(a, r) implies r < post.group_id by {
            assert(self.in_list(a, r));
        }
        assert forall|r: RoomId| #[trigger] post.all_room@.contains_key(r) implies post.room_ok(r) by {
            assert(self.room_ok(r));
            assert forall|a: AccountId| #[trigger] post.members(r).contains(a) == post.in_list(a, r) by {
                assert(self.members(r).contains(a) == self.in_list(a, r));
            }
        }
    }

    /// The invariant, with the platform's value accounted for by
    /// `total_issuance`.
    pub open spec fn inv(&self) -> bool {
        &&& self.wf()
        &&& self.value() == self.total_issuance as int
    }

    /// The value functions never go below zero.
    pub proof fn lemma_value_parts_nonneg(&self)
        ensures
            self.ledger.total() >= 0,
            self.all_room.total(room_pool()) >= 0,
            self.red_packet_of_room.total(packets_value()) >= 0,
            self.info_of_disband_room.total(session_value()) >= 0,
            forall|g: GroupInfo| #[trigger] room_pool()(g) >= 0,
            forall|ps: Vec<RedPacket>| #[trigger] packets_value()(ps) >= 0,
            forall|t: Table<RoomRewardInfo>| #[trigger] session_value()(t) >= 0,
    {
        assert forall|ps: Vec<RedPacket>| #[trigger] packets_value()(ps) >= 0 by {
            crate::table::lemma_sum_nonneg(ps@, packet_value());
        }
        assert forall|t: Table<RoomRewardInfo>| #[trigger] session_value()(t) >= 0 by {
            t.lemma_total_nonneg(info_value());
        }
        self.ledger.lemma_total_nonneg();
        self.all_room.lemma_total_nonneg(room_pool());
        self.red_packet_of_room.lemma_total_nonneg(packets_value());
        self.info_of_disband_room.lemma_total_nonneg(session_value());
    }

    /// A platform with nothing in it.
    pub fn new(config: Config) -> (r: Self)
        ensures
            r.inv(),
            r.value() == 0,
            r.config == config,
            r.group_id == 1,
            r.red_packet_id == 1,
            r.create_payment.ten == crate::types::DOLLARS,
            r.ledger.total() == 0,
    {
        let r = Listen {
            config,
            ledger: Ledger::new(),
            burned: 0,
            total_issuance: 0,
            already_air_drop_list: AccountSet::new(),
            group_id: 1,
            create_payment: CreateCost::default(),
            red_packet_id: 1,
            all_room: Table::new(),
            listeners_of_room: Table::new(),
            all_listeners: Table::new(),
            info_of_disband_room: Table::new(),
            all_session_index: Vec::new(),
            red_packet_of_room: Table::new(),
            multisig: None,
            server_id: None,
            remove_interval: RemoveTime::default(),
            disband_interval: DisbandTime::default(),
            props_payment: PropsCost::default(),
            audio_payment: AudioCost::default(),
        };
        r
    }

    /// Whether `who` is a member of room `group_id`.
    pub fn is_in_room(&self, group_id: RoomId, who: AccountId) -> (r: Result<bool, Error>)
        requires
            self.wf(),
        ensures
            !self.room_exists(group_id) ==> r == Err::<bool, Error>(Error::RoomNotExists),
            self.room_exists(group_id) ==> r == Ok::<bool, Error>(self.members(group_id).contains(who)),
    {
        if !self.all_room.contains_key(group_id) {
            return Err(Error::RoomNotExists);
        }
        match self.listeners_of_room.get(group_id) {
            Some(l) => {
                if l.len() == 0 {
                    Err(Error::RoomEmpty)
                } else {
                    Ok(l.contains(who))
                }
            },
            None => Err(Error::RoomEmpty),
        }
    }

    /// Credits `amount` to `who` from outside the platform: the one way value
    /// enters it. Refused where the platform's value would exceed `u128`.
    pub fn deposit(&mut self, who: AccountId, amount: Balance) -> (r: Result<(), Error>)
        requires
            old(self).inv(),
        ensures
            final(self).inv(),
            old(self).value() + amount > u128::MAX ==> r == Err::<(), Error>(Error::Overflow)
                && *final(self) == *old(self),
            old(self).value() + amount <= u128::MAX ==> {
                &&& r.is_ok()
                &&& final(self).value() == old(self).value() + amount
                &&& final(self).balance_of(who) == old(self).balance_of(who) + amount
                &&& forall|b: AccountId| b != who ==> #[trigger] final(self).balance_of(b) == old(self).balance_of(b)
                &&& final(self).all_room == old(self).all_room
                &&& final(self).red_packet_of_room == old(self).red_packet_of_room
                &&& final(self).info_of_disband_room == old(self).info_of_disband_room
            },
    {
        let issued = match self.total_issuance.checked_add(amount) {
            Some(x) => x,
            None => return Err(Error::Overflow),
        };
        let ghost s0 = *old(self);
        proof {
            s0.lemma_value_parts_nonneg();
        }
        self.ledger.deposit(who, amount);
        self.total_issuance = issued;
        proof {
            s0.lemma_rooms_frame(self);
        }
        Ok(())
    }

    /// The free balance of `who`.
    pub fn balance(&self, who: AccountId) -> (r: Balance)
        requires
            self.wf(),
        ensures
            r == self.balance_of(who),
    {
        self.ledger.balance(who)
    }

    /// Sets the creation fee of tier `max_members`.
    pub fn set_create_cost(&mut self, max_members: GroupMaxMembers, amount: Balance)
        requires
            old(self).inv(),
        ensures
            final(self).inv(),
            final(self).create_payment.spec_get(max_members) == amount,
            forall|t: GroupMaxMembers| t != max_members ==> #[trigger] final(self).create_payment.spec_get(t)
                == old(self).create_payment.spec_get(t),
    {
        let ghost s0 = *old(self);
        self.create_payment.set(max_members, amount);
        proof {
            s0.lemma_rooms_frame(self);
        }
    }

    /// Sets the unit prices of the audio credits.
    pub fn set_audio_price(&mut self, cost: AudioCost)
        requires
            old(self).inv(),
        ensures
            final(self).inv(),
            final(self).audio_payment == cost,
    {
        let ghost s0 = *old(self);
        self.audio_payment = cost;
        proof {
            s0.lemma_rooms_frame(self);
        }
    }

    /// Sets the unit prices of the props.
    pub fn set_props_price(&mut self, cost: PropsCost)
        requires
            old(self).inv(),
        ensures
            final(self).inv(),
            final(self).props_payment == cost,
    {
        let ghost s0 = *old(self);
        self.props_payment = cost;
        proof {
            s0.lemma_rooms_frame(self);
        }
    }

    /// Sets the removal cool-downs.
    pub fn set_remove_interval(&mut self, time: RemoveTime)
        requires
            old(self).inv(),
        ensures
            final(self).inv(),
            final(self).remove_interval == time,
    {
        let ghost s0 = *old(self);
        self.remove_interval = time;
        proof {
            s0.lemma_rooms_frame(self);
        }
    }

    /// Sets the disband cool-downs.
    pub fn set_disband_interval(&mut self, time: DisbandTime)
        requires
            old(self).inv(),
        ensures
            final(self).inv(),
            final(self).disband_interval == time,
    {
        let ghost s0 = *old(self);
        self.disband_interval = time;
        proof {
            s0.lemma_rooms_frame(self);
        }
    }

    /// Sets the multisig that runs air drops and admissions: its members
    /// `who`, sorted, its threshold, and its account `multisig_id`, derived
    /// from the sorted members and the threshold.
    pub fn set_multisig(&mut self, who: Vec<AccountId>, threshould: u16, multisig_id: AccountId) -> (r: Result<
        (),
        Error,
    >)
        requires
            old(self).inv(),
        ensures
            final(self).inv(),
            who@.len() == 0 ==> r == Err::<(), Error>(Error::VecEmpty),
            who@.len() > 0 && !who@.no_duplicates() ==> r == Err::<(), Error>(Error::MemberDuplicate),
            who@.len() > 0 && who@.no_duplicates() && (threshould == 0 || threshould > who@.len())
                ==> r == Err::<(), Error>(Error::ThreshouldErr),
            r.is_err() ==> *final(self) == *old(self),
            who@.len() > 0 && who@.no_duplicates() && 0 < threshould <= who@.len() ==> {
                let m = final(self).multisig.unwrap();
                &&& r.is_ok()
                &&& final(self).multisig.is_some()
                &&& strictly_sorted(m.0@)
                &&& m.0@.len() == who@.len()
                &&& forall|a: AccountId| #[trigger] m.0@.contains(a) == who@.contains(a)
                &&& m.1 == threshould
                &&& m.2 == multisig_id
                &&& final(self).multisig_account() == Some(multisig_id)
            },
    {
        let sorted = match sort_account_id(who) {
            Ok(v) => v,
            Err(e) => return Err(e),
        };
        if threshould == 0 || (threshould as usize) > sorted.len() {
            return Err(Error::ThreshouldErr);
        }
        let ghost s0 = *old(self);
        self.multisig = Some((sorted, threshould, multisig_id));
        proof {
            s0.lemma_rooms_frame(self);
        }
        Ok(())
    }

    /// The multisig account `caller` names the relay account that claims red
    /// packets on members' behalf.
    pub fn set_server_id(&mut self, caller: AccountId, account_id: AccountId) -> (r: Result<(), Error>)
        requires
            old(self).inv(),
        ensures
            final(self).inv(),
            old(self).multisig_account().is_none() ==> r == Err::<(), Error>(Error::MultisigIdIsNone),
            old(self).multisig_account().is_some() && old(self).multisig_account().unwrap() != caller
                ==> r == Err::<(), Error>(Error::NotMultisigId),
            r.is_err() ==> *final(self) == *old(self),
            old(self).multisig_account() == Some(caller) ==> r.is_ok() && final(self).server_id == Some(account_id),
    {
        let multisig_id = match &self.multisig {
            Some(m) => m.2,
            None => return Err(Error::MultisigIdIsNone),
        };
        if caller != multisig_id {
            return Err(Error::NotMultisigId);
        }
        let ghost s0 = *old(self);
        self.server_id = Some(account_id);
        proof {
            s0.lemma_rooms_frame(self);
        }
        Ok(())
    }

    /// Why `air_drop` refuses, if it does.
    pub open spec fn air_drop_error(&self, caller: AccountId, des: AccountId) -> Option<Error> {
        if self.multisig_account().is_none() {
            Some(Error::MultisigIdIsNone)
        } else if caller != self.multisig_account().unwrap() {
            Some(Error::NotMultisigId)
        } else if self.already_air_drop_list@.contains(des) {
            Some(Error::AlreadyAirDrop)
        } else if self.balance_of(self.config.treasury) < self.config.air_drop_amount {
            Some(Error::FreeAmountNotEnough)
        } else {
            None
        }
    }

    /// The multisig account `caller` has the treasury pay `des` the air
    /// drop, once per account.
    pub fn air_drop(&mut self, caller: AccountId, des: AccountId) -> (r: Result<(), Error>)
        requires
            old(self).inv(),
        ensures
            final(self).inv(),
            match old(self).air_drop_error(caller, des) {
                Some(e) => r == Err::<(), Error>(e) && *final(self) == *old(self),
                None => {
                    let t = old(self).config.treasury;
                    let amount = old(self).config.air_drop_amount as int;
                    &&& r.is_ok()
                    &&& final(self).already_air_drop_list@ == old(self).already_air_drop_list@.insert(des)
                    &&& forall|b: AccountId| #[trigger] final(self).balance_of(b) == old(self).balance_of(b)
                        - credit(b, t, amount) + credit(b, des, amount)
                },
            },
    {
        let multisig_id = match &self.multisig {
            Some(m) => m.2,
            None => return Err(Error::MultisigIdIsNone),
        };
        if caller != multisig_id {
            return Err(Error::NotMultisigId);
        }
        if self.already_air_drop_list.contains(des) {
            return Err(Error::AlreadyAirDrop);
        }
        let ghost s0 = *old(self);
        proof {
            s0.lemma_value_parts_nonneg();
        }
        let treasury = self.config.treasury;
        let amount = self.config.air_drop_amount;
        let t = self.ledger.transfer(treasury, des, amount);
        if t.is_err() {
            assert(*self == s0);
            return Err(Error::FreeAmountNotEnough);
        }
        self.already_air_drop_list.insert(des);
        proof {
            s0.lemma_rooms_frame(self);
        }
        Ok(())
    }
}

} // verus!
