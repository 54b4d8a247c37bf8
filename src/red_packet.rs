//! Red packets: escrowed amounts that members of a room claim through the
//! relay account, and their settlement.
use vstd::prelude::*;

use crate::account_set::AccountSet;
use crate::error::Error;
use crate::platform::{Listen, credit, packet_value, packets_value};
use crate::table::sum_by;
use crate::types::{AccountId, Balance, BlockNumber, RedPacket, RoomId};

verus! {

/// Whether a settlement sweep, of all packets or only of expired ones at
/// tick `now`, settles packet `p`.
pub open spec fn settled(p: RedPacket, all: bool, now: BlockNumber) -> bool {
    all || p.end_time < now
}

pub open spec fn kept_pred(all: bool, now: BlockNumber) -> spec_fn(RedPacket) -> bool {
    |p: RedPacket| !settled(p, all, now)
}

/// What a sweep refunds to account `b` for packet `p`.
pub open spec fn refund_to(b: AccountId, all: bool, now: BlockNumber) -> spec_fn(RedPacket) -> int {
    |p: RedPacket|
        if settled(p, all, now) && p.boss == b {
            p.remaining()
        } else {
            0
        }
}

/// What a sweep refunds for packet `p`, to whomever.
pub open spec fn refund_all(all: bool, now: BlockNumber) -> spec_fn(RedPacket) -> int {
    |p: RedPacket|
        if settled(p, all, now) {
            p.remaining()
        } else {
            0
        }
}

/// `i` is the first position of packet `id` in `s`.
pub open spec fn is_first_packet(s: Seq<RedPacket>, id: u128, i: int) -> bool {
    &&& 0 <= i < s.len()
    &&& s[i].id == id
    &&& forall|j: int| 0 <= j < i ==> (#[trigger] s[j]).id != id
}

pub open spec fn has_packet(s: Seq<RedPacket>, id: u128) -> bool {
    exists|i: int| 0 <= i < s.len() && (#[trigger] s[i]).id == id
}

/// The first position of packet `id` in `s`.
pub open spec fn packet_pos(s: Seq<RedPacket>, id: u128) -> int {
    choose|i: int| is_first_packet(s, id, i)
}

/// Finds the first packet `id` in `v`.
fn find_packet(v: &Vec<RedPacket>, id: u128) -> (r: Option<usize>)
    ensures
        r.is_some() == has_packet(v@, id),
        r.is_some() ==> r.unwrap() == packet_pos(v@, id) && is_first_packet(v@, id, r.unwrap() as int),
{
    let mut i: usize = 0;
    while i < v.len()
        invariant
            i <= v@.len(),
            forall|j: int| 0 <= j < i ==> (#[trigger] v@[j]).id != id,
        decreases v@.len() - i,
    {
        if v[i].id == id {
            proof {
                assert(is_first_packet(v@, id, i as int));
                let k = packet_pos(v@, id);
                assert(is_first_packet(v@, id, k));
                if k < i {
                    assert(v@[k].id != id);
                } else if k > i {
                    assert(v@[i as int].id != id);
                }
            }
            return Some(i);
        }
        i = i + 1;
    }
    None
}

/// A sequence none of whose elements meets `pred` filters to nothing.
proof fn lemma_filter_none<A>(s: Seq<A>, pred: spec_fn(A) -> bool)
    requires
        forall|i: int| 0 <= i < s.len() ==> !pred(#[trigger] s[i]),
    ensures
        s.filter(pred) == Seq::<A>::empty(),
    decreases s.len(),
{
    reveal(Seq::filter);
    if s.len() > 0 {
        assert(!pred(s[s.len() - 1]));
        lemma_filter_none(s.drop_last(), pred);
    }
    assert(s.filter(pred) =~= Seq::<A>::empty());
}

impl Listen {
    /// Every red packet has paid out at most its total, to at most as many
    /// claimants as it allows.
    pub proof fn lemma_red_packet_bounded(&self, r: RoomId, i: int)
        requires
            self.inv(),
            0 <= i < self.packets(r).len(),
        ensures
            self.packets(r)[i].already_get_amount <= self.packets(r)[i].total,
            self.packets(r)[i].already_get_man@.len() <= self.packets(r)[i].lucky_man_number,
    {
        assert(self.red_packet_of_room@.contains_key(r));
        assert(self.red_packet_of_room@[r]@[i].wf());
    }

    /// Settles the red packets of room `room_id`: all of them, or only those
    /// expired at tick `now`. Each settled packet refunds what is left of it
    /// to its issuer and is removed; the others stay, in order.
    pub(crate) fn remove_redpacket_by_room_id(&mut self, room_id: RoomId, all: bool, now: BlockNumber)
        requires
            old(self).wf(),
        ensures
            final(self).all_session_index == old(self).all_session_index,
            final(self).already_air_drop_list == old(self).already_air_drop_list,
            final(self).total_issuance == old(self).total_issuance,
            final(self).wf(),
            final(self).value() == old(self).value(),
            final(self).packets(room_id) == old(self).packets(room_id).filter(kept_pred(all, now)),
            all ==> !final(self).red_packet_of_room@.contains_key(room_id),
            forall|r: RoomId| r != room_id ==> #[trigger] final(self).packets(r) == old(self).packets(r),
            forall|r: RoomId| r != room_id ==> (#[trigger] final(self).red_packet_of_room@.contains_key(r)
                == old(self).red_packet_of_room@.contains_key(r)),
            forall|b: AccountId| #[trigger] final(self).balance_of(b) == old(self).balance_of(b)
                + sum_by(old(self).packets(room_id), refund_to(b, all, now)),
            final(self).all_room == old(self).all_room,
            final(self).listeners_of_room == old(self).listeners_of_room,
            final(self).all_listeners == old(self).all_listeners,
            final(self).info_of_disband_room == old(self).info_of_disband_room,
            final(self).config == old(self).config,
            final(self).group_id == old(self).group_id,
            final(self).red_packet_id == old(self).red_packet_id,
            final(self).burned == old(self).burned,
            final(self).multisig == old(self).multisig,
            final(self).server_id == old(self).server_id,
    {
        let ghost s0 = *old(self);
        let ghost orig = s0.packets(room_id);
        proof {
            s0.lemma_value_parts_nonneg();
            if s0.red_packet_of_room@.contains_key(room_id) {
                s0.red_packet_of_room.lemma_total_bounds(room_id, room_id, packets_value());
            }
        }
        let mut rest = match self.red_packet_of_room.remove(room_id) {
            Some(v) => v,
            None => {
                proof {
                    assert(orig.filter(kept_pred(all, now)) =~= Seq::<RedPacket>::empty());
                    assert(self.red_packet_of_room@ =~= s0.red_packet_of_room@);
                    s0.lemma_rooms_frame(self);
                    assert forall|b: AccountId| #[trigger] self.balance_of(b) == s0.balance_of(b)
                        + sum_by(orig, refund_to(b, all, now)) by {
                    }
                }
                return;
            },
        };
        let ghost l0 = self.ledger;
        let ghost mid = *self;
        let mut kept: Vec<RedPacket> = Vec::new();
        proof {
            assert(forall|a: RedPacket| #[trigger] packet_value()(a) >= 0);
            assert(orig.subrange(0, 0) =~= Seq::<RedPacket>::empty());
        }
        while rest.len() > 0
            invariant
                orig == s0.packets(room_id),
                s0.red_packet_of_room@.contains_key(room_id),
                self.red_packet_of_room == mid.red_packet_of_room,
                self.all_room == mid.all_room,
                self.listeners_of_room == mid.listeners_of_room,
                self.all_listeners == mid.all_listeners,
                self.info_of_disband_room == mid.info_of_disband_room,
                self.config == mid.config,
                self.group_id == mid.group_id,
                self.red_packet_id == mid.red_packet_id,
                self.burned == mid.burned,
                self.total_issuance == mid.total_issuance,
                self.multisig == mid.multisig,
                self.server_id == mid.server_id,
                self.all_session_index == mid.all_session_index,
                self.already_air_drop_list == mid.already_air_drop_list,
                self.ledger.wf(),
                l0.total() + sum_by(orig, packet_value()) <= u128::MAX,
                forall|a: RedPacket| #[trigger] packet_value()(a) >= 0,
                0 <= orig.len() - rest@.len() <= orig.len(),
                rest@ == orig.subrange(orig.len() - rest@.len(), orig.len() as int),
                kept@ == orig.subrange(0, orig.len() - rest@.len()).filter(kept_pred(all, now)),
                self.ledger.total() == l0.total() + sum_by(orig.subrange(0, orig.len() - rest@.len()), refund_all(all, now)),
                forall|b: AccountId| #[trigger] self.ledger.balance_of(b) == l0.balance_of(b)
                    + sum_by(orig.subrange(0, orig.len() - rest@.len()), refund_to(b, all, now)),
                sum_by(orig.subrange(0, orig.len() - rest@.len()), packet_value()) == sum_by(
                    orig.subrange(0, orig.len() - rest@.len()), refund_all(all, now)) + sum_by(kept@, packet_value()),
                forall|i: int| 0 <= i < orig.len() ==> (#[trigger] orig[i]).wf() && orig[i].id < s0.red_packet_id,
                forall|i: int| 0 <= i < kept@.len() ==> (#[trigger] kept@[i]).wf() && kept@[i].id < s0.red_packet_id,
            decreases rest@.len(),
        {
            let ghost i = orig.len() - rest@.len();
            let ghost k0 = kept@;
            let p = rest.remove(0);
            proof {
                reveal(Seq::filter);
                assert(p == orig[i]);
                let pre = orig.subrange(0, i);
                let pre1 = orig.subrange(0, i + 1);
                assert(pre1.drop_last() =~= pre);
                assert(pre1.last() == p);
                assert(rest@ =~= orig.subrange(i + 1, orig.len() as int));
                crate::table::lemma_sum_prefix(orig, i + 1, packet_value());
                crate::table::lemma_sum_nonneg(k0, packet_value());
                crate::table::lemma_sum_push(pre, p, refund_all(all, now));
                crate::table::lemma_sum_push(pre, p, packet_value());
                assert(sum_by(pre1, packet_value()) == sum_by(pre, packet_value()) + p.remaining());
            }
            if all || p.end_time < now {
                let remain = p.total - p.already_get_amount;
                self.ledger.deposit(p.boss, remain);
            } else {
                kept.push(p);
                proof {
                    crate::table::lemma_sum_push(k0, p, packet_value());
                }
            }
            proof {
                let pre = orig.subrange(0, i);
                let pre1 = orig.subrange(0, i + 1);
                assert forall|b: AccountId| #[trigger] self.ledger.balance_of(b) == l0.balance_of(b)
                    + sum_by(pre1, refund_to(b, all, now)) by {
                    crate::table::lemma_sum_push(pre, p, refund_to(b, all, now));
                }
            }
        }
        proof {
            assert(orig.subrange(0, orig.len() as int) =~= orig);
        }
        if !all {
            self.red_packet_of_room.insert(room_id, kept);
        }
        proof {
            assert(self.packets(room_id) == orig.filter(kept_pred(all, now))) by {
                if all {
                    crate::table::lemma_sum_nonneg(kept@, packet_value());
                    assert forall|i: int| 0 <= i < orig.len() implies !kept_pred(all, now)(orig[i]) by {}
                    lemma_filter_none(orig, kept_pred(all, now));
                    assert(kept@ =~= Seq::<RedPacket>::empty());
                    assert(sum_by(kept@, packet_value()) == 0);
                }
            }
            assert(self.value() == s0.value());
            assert forall|r: RoomId, i: int| #[trigger]
                self.red_packet_of_room@.contains_key(r) && 0 <= i < self.red_packet_of_room@[r]@.len()
                    implies (#[trigger] self.red_packet_of_room@[r]@[i]).wf()
                    && self.red_packet_of_room@[r]@[i].id < self.red_packet_id by {
                if r != room_id {
                    assert(s0.red_packet_of_room@.contains_key(r));
                }
            }
            assert forall|a: AccountId, r: RoomId| #[trigger] self.in_list(a, r) implies r < self.group_id by {
                assert(s0.in_list(a, r));
            }
            assert forall|r: RoomId| #[trigger] self.all_room@.contains_key(r) implies self.room_ok(r) by {
                assert(s0.room_ok(r));
                assert forall|a: AccountId| #[trigger] self.members(r).contains(a) == self.in_list(a, r) by {
                    assert(s0.members(r).contains(a) == s0.in_list(a, r));
                }
            }
            assert(self.ledger.wf());
            assert(self.already_air_drop_list.wf());
            assert(self.packets_ok());
            assert(self.rooms_ok());
            assert(self.rewards_ok());
        }
    }

    /// Why `send_redpacket_in_room` refuses, if it does.
    pub open spec fn send_error(
        &self,
        who: AccountId,
        group_id: RoomId,
        lucky_man_number: u32,
        amount: Balance,
        now: BlockNumber,
    ) -> Option<Error> {
        let floor = lucky_man_number * self.config.red_packet_min_amount;
        if !self.room_exists(group_id) {
            Some(Error::RoomNotExists)
        } else if !self.members(group_id).contains(who) {
            Some(Error::NotInRoom)
        } else if floor > u128::MAX {
            Some(Error::Overflow)
        } else if amount < floor {
            Some(Error::AmountTooLow)
        } else if self.red_packet_id == u128::MAX || now + self.config.red_pack_expire > u64::MAX {
            Some(Error::Overflow)
        } else if self.balance_of(who) < amount {
            Some(Error::FreeAmountNotEnough)
        } else {
            None
        }
    }

    /// `who` puts `amount` into a new red packet of room `group_id` that up to
    /// `lucky_man_number` members may claim until `red_pack_expire` ticks
    /// from `now`; then the room's expired packets are settled.
    pub fn send_redpacket_in_room(
        &mut self,
        who: AccountId,
        group_id: RoomId,
        lucky_man_number: u32,
        amount: Balance,
        now: BlockNumber,
    ) -> (r: Result<u128, Error>)
        requires
            old(self).inv(),
        ensures
            final(self).inv(),
            final(self).value() == old(self).value(),
            match old(self).send_error(who, group_id, lucky_man_number, amount, now) {
                Some(e) => r == Err::<u128, Error>(e) && *final(self) == *old(self),
                None => r == Ok::<u128, Error>(old(self).red_packet_id) && {
                    let s = old(self).packets(group_id);
                    let v = final(self).packets(group_id);
                    let p = v.last();
                    &&& final(self).red_packet_id == old(self).red_packet_id + 1
                    &&& v == s.filter(kept_pred(false, now)).push(p)
                    &&& p.id == old(self).red_packet_id
                    &&& p.boss == who
                    &&& p.total == amount
                    &&& p.lucky_man_number == lucky_man_number
                    &&& p.already_get_man@ == Set::<AccountId>::empty()
                    &&& p.min_amount_of_per_man == old(self).config.red_packet_min_amount
                    &&& p.already_get_amount == 0
                    &&& p.end_time == now + old(self).config.red_pack_expire
                    &&& forall|b: AccountId| #[trigger] final(self).balance_of(b) == old(self).balance_of(b)
                        - credit(b, who, amount as int) + sum_by(s, refund_to(b, false, now))
                    &&& forall|x: RoomId| x != group_id ==> #[trigger] final(self).packets(x) == old(self).packets(x)
                    &&& final(self).all_room == old(self).all_room
                    &&& final(self).listeners_of_room == old(self).listeners_of_room
                    &&& final(self).all_listeners == old(self).all_listeners
                    &&& final(self).info_of_disband_room == old(self).info_of_disband_room
                },
            },
    {
        match self.is_in_room(group_id, who) {
            Ok(true) => {},
            Ok(false) => return Err(Error::NotInRoom),
            Err(e) => return Err(e),
        }
        let min = self.config.red_packet_min_amount;
        let floor = match (lucky_man_number as u128).checked_mul(min) {
            Some(f) => f,
            None => return Err(Error::Overflow),
        };
        if amount < floor {
            return Err(Error::AmountTooLow);
        }
        let redpacket_id = self.red_packet_id;
        if redpacket_id == u128::MAX {
            return Err(Error::Overflow);
        }
        let end_time = match now.checked_add(self.config.red_pack_expire) {
            Some(t) => t,
            None => return Err(Error::Overflow),
        };
        let ghost s0 = *old(self);
        let w = self.ledger.withdraw(who, amount);
        if w.is_err() {
            assert(*self == s0);
            return Err(Error::FreeAmountNotEnough);
        }
        let ghost sw = *self;
        proof {
            s0.lemma_rooms_frame(self);
            assert(sw.packets(group_id) == s0.packets(group_id));
        }
        // The new packet cannot be expired yet: settling before adding it
        // leaves the same packets as after.
        self.remove_redpacket_by_room_id(group_id, false, now);
        let ghost s1 = *self;
        let packet = RedPacket {
            id: redpacket_id,
            boss: who,
            total: amount,
            lucky_man_number,
            already_get_man: AccountSet::new(),
            min_amount_of_per_man: min,
            already_get_amount: 0,
            end_time,
        };
        let mut v = match self.red_packet_of_room.remove(group_id) {
            Some(v) => v,
            None => Vec::new(),
        };
        let ghost v0 = v@;
        v.push(packet);
        proof {
            s1.lemma_value_parts_nonneg();
            crate::table::lemma_sum_push(v0, packet, packet_value());
            if s1.red_packet_of_room@.contains_key(group_id) {
                assert(v0 == s1.red_packet_of_room@[group_id]@);
            } else {
                assert(sum_by(v0, packet_value()) == 0);
            }
        }
        self.red_packet_of_room.insert(group_id, v);
        self.red_packet_id = redpacket_id + 1;
        proof {
            assert(self.value() == s0.value());
            s1.lemma_rooms_frame(self);
            assert forall|x: RoomId, i: int| #[trigger]
                self.red_packet_of_room@.contains_key(x) && 0 <= i < self.red_packet_of_room@[x]@.len()
                    implies (#[trigger] self.red_packet_of_room@[x]@[i]).wf()
                    && self.red_packet_of_room@[x]@[i].id < self.red_packet_id by {
                if x != group_id {
                    assert(s1.red_packet_of_room@.contains_key(x));
                    assert(s1.red_packet_of_room@[x]@[i].wf());
                } else if i < v0.len() {
                    assert(v0[i] == s1.red_packet_of_room@[x]@[i]);
                }
            }
            assert forall|x: RoomId| x != group_id implies #[trigger] self.packets(x) == s0.packets(x) by {
                assert(s1.packets(x) == s0.packets(x));
            }
            assert forall|b: AccountId| #[trigger] self.balance_of(b) == s0.balance_of(b)
                - credit(b, who, amount as int) + sum_by(s0.packets(group_id), refund_to(b, false, now)) by {
                assert(self.balance_of(b) == s1.balance_of(b));
                assert(s1.balance_of(b) == sw.balance_of(b) + sum_by(sw.packets(group_id), refund_to(b, false, now)));
                if b != who {
                    assert(sw.balance_of(b) == s0.balance_of(b));
                }
            }
        }
        Ok(redpacket_id)
    }

    /// The packet `id` of room `group_id`.
    pub open spec fn packet(&self, group_id: RoomId, id: u128) -> RedPacket {
        self.packets(group_id)[packet_pos(self.packets(group_id), id)]
    }

    /// Why `get_redpacket_in_room` refuses, if it does.
    pub open spec fn claim_error(
        &self,
        caller: AccountId,
        who: AccountId,
        group_id: RoomId,
        id: u128,
        amount: Balance,
        now: BlockNumber,
    ) -> Option<Error> {
        let p = self.packet(group_id, id);
        if self.server_id.is_none() {
            Some(Error::ServerIdNotExists)
        } else if caller != self.server_id.unwrap() {
            Some(Error::NotServerId)
        } else if !self.room_exists(group_id) {
            Some(Error::RoomNotExists)
        } else if !self.members(group_id).contains(who) {
            Some(Error::NotInRoom)
        } else if !has_packet(self.packets(group_id), id) {
            Some(Error::RedPacketNotExists)
        } else if amount < p.min_amount_of_per_man {
            Some(Error::AmountTooLow)
        } else if p.total - p.already_get_amount < amount {
            Some(Error::AmountNotEnough)
        } else if p.lucky_man_number <= p.already_get_man@.len() {
            Some(Error::ToMaxNumber)
        } else if p.already_get_man@.contains(who) {
            Some(Error::CountErr)
        } else if p.end_time < now {
            Some(Error::Expire)
        } else {
            None
        }
    }

    /// The relay account `caller` pays `amount` of packet `redpacket_id` of
    /// room `group_id` to member `lucky_man`. A packet found expired is
    /// settled instead. A packet that reaches its claim count or its total
    /// refunds what is left to its issuer and is removed. Then the room's
    /// expired packets are settled.
    pub fn get_redpacket_in_room(
        &mut self,
        caller: AccountId,
        lucky_man: AccountId,
        group_id: RoomId,
        redpacket_id: u128,
        amount: Balance,
        now: BlockNumber,
    ) -> (r: Result<(), Error>)
        requires
            old(self).inv(),
        ensures
            final(self).inv(),
            final(self).value() == old(self).value(),
            ({
                let s = old(self).packets(group_id);
                let i = packet_pos(s, redpacket_id);
                let p = s[i];
                let full = p.already_get_man@.len() + 1 == p.lucky_man_number
                    || p.already_get_amount + amount == p.total;
                match old(self).claim_error(caller, lucky_man, group_id, redpacket_id, amount, now) {
                    Some(Error::Expire) => {
                        &&& r == Err::<(), Error>(Error::Expire)
                        &&& final(self).packets(group_id) == s.remove(i)
                        &&& forall|b: AccountId| #[trigger] final(self).balance_of(b)
                            == old(self).balance_of(b) + credit(b, p.boss, p.remaining())
                    },
                    Some(e) => r == Err::<(), Error>(e) && *final(self) == *old(self),
                    None => {
                        &&& r.is_ok()
                        &&& full ==> final(self).packets(group_id) == s.remove(i).filter(kept_pred(false, now))
                        &&& !full ==> exists|q: RedPacket| {
                            &&& q.id == p.id && q.boss == p.boss && q.total == p.total
                            &&& q.lucky_man_number == p.lucky_man_number
                            &&& q.min_amount_of_per_man == p.min_amount_of_per_man
                            &&& q.end_time == p.end_time
                            &&& q.already_get_man@ == p.already_get_man@.insert(lucky_man)
                            &&& q.already_get_amount == p.already_get_amount + amount
                            &&& final(self).packets(group_id) == s.update(i, q).filter(kept_pred(false, now))
                        }
                        &&& forall|b: AccountId| #[trigger] final(self).balance_of(b)
                            == old(self).balance_of(b) + credit(b, lucky_man, amount as int)
                            + credit(b, p.boss, if full { p.total - p.already_get_amount - amount } else { 0 })
                            + sum_by(s, refund_to(b, false, now))
                    },
                }
            }),
            forall|x: RoomId| x != group_id ==> #[trigger] final(self).packets(x) == old(self).packets(x),
            final(self).all_room == old(self).all_room,
            final(self).listeners_of_room == old(self).listeners_of_room,
            final(self).all_listeners == old(self).all_listeners,
            final(self).info_of_disband_room == old(self).info_of_disband_room,
    {
        let server = match self.server_id {
            Some(x) => x,
            None => return Err(Error::ServerIdNotExists),
        };
        if caller != server {
            return Err(Error::NotServerId);
        }
        let who = lucky_man;
        match self.is_in_room(group_id, who) {
            Ok(true) => {},
            Ok(false) => return Err(Error::NotInRoom),
            Err(e) => return Err(e),
        }
        let ghost s0 = *old(self);
        let ghost sq = s0.packets(group_id);
        let i = match self.red_packet_of_room.get(group_id) {
            Some(v) => match find_packet(v, redpacket_id) {
                Some(i) => {
                    let p = &v[i];
                    if amount < p.min_amount_of_per_man {
                        return Err(Error::AmountTooLow);
                    }
                    if p.total - p.already_get_amount < amount {
                        return Err(Error::AmountNotEnough);
                    }
                    if (p.lucky_man_number as usize) <= p.already_get_man.len() {
                        return Err(Error::ToMaxNumber);
                    }
                    if p.already_get_man.contains(who) {
                        return Err(Error::CountErr);
                    }
                    i
                },
                None => return Err(Error::RedPacketNotExists),
            },
            None => {
                assert(!has_packet(sq, redpacket_id));
                return Err(Error::RedPacketNotExists);
            },
        };
        proof {
            s0.lemma_value_parts_nonneg();
            s0.red_packet_of_room.lemma_total_bounds(group_id, group_id, packets_value());
            crate::table::lemma_sum_bounds(sq, i as int, i as int, packet_value());
            assert(sq[i as int].wf());
        }
        let mut v = self.red_packet_of_room.remove(group_id).unwrap();
        let mut p = v.remove(i);
        proof {
            crate::table::lemma_sum_remove(sq, i as int, packet_value());
            p.already_get_man.lemma_finite();
        }
        if p.end_time < now {
            let remain = p.total - p.already_get_amount;
            self.ledger.deposit(p.boss, remain);
            let ghost v1 = v@;
            self.red_packet_of_room.insert(group_id, v);
            proof {
                assert(self.value() == s0.value());
                s0.lemma_rooms_frame(self);
                assert forall|x: RoomId, j: int| #[trigger]
                    self.red_packet_of_room@.contains_key(x) && 0 <= j < self.red_packet_of_room@[x]@.len()
                        implies (#[trigger] self.red_packet_of_room@[x]@[j]).wf()
                        && self.red_packet_of_room@[x]@[j].id < self.red_packet_id by {
                    if x == group_id {
                        if j < i {
                            assert(v1[j] == sq[j]);
                        } else {
                            assert(v1[j] == sq[j + 1]);
                        }
                    } else {
                        assert(s0.red_packet_of_room@.contains_key(x));
                    }
                }
                assert forall|x: RoomId| x != group_id implies #[trigger] self.packets(x) == s0.packets(x) by {}
            }
            return Err(Error::Expire);
        }
        self.ledger.deposit(who, amount);
        p.already_get_man.insert(who);
        p.already_get_amount = p.already_get_amount + amount;
        let full = p.already_get_man.len() == p.lucky_man_number as usize
            || p.already_get_amount == p.total;
        let ghost q = p;
        if full {
            let remain = p.total - p.already_get_amount;
            self.ledger.deposit(p.boss, remain);
        } else {
            v.insert(i, p);
            proof {
                crate::table::lemma_sum_push(sq.remove(i as int), q, packet_value());
                assert(v@ =~= sq.update(i as int, q));
                crate::table::lemma_sum_update(sq, i as int, q, packet_value());
            }
        }
        let ghost v1 = v@;
        self.red_packet_of_room.insert(group_id, v);
        let ghost s1 = *self;
        proof {
            assert(self.value() == s0.value());
            s0.lemma_rooms_frame(self);
            assert forall|x: RoomId, j: int| #[trigger]
                self.red_packet_of_room@.contains_key(x) && 0 <= j < self.red_packet_of_room@[x]@.len()
                    implies (#[trigger] self.red_packet_of_room@[x]@[j]).wf()
                    && self.red_packet_of_room@[x]@[j].id < self.red_packet_id by {
                if x == group_id {
                    if full {
                        if j < i {
                            assert(v1[j] == sq[j]);
                        } else {
                            assert(v1[j] == sq[j + 1]);
                        }
                    } else if j != i {
                        assert(v1[j] == sq[j]);
                    }
                } else {
                    assert(s0.red_packet_of_room@.contains_key(x));
                }
            }
        }
        self.remove_redpacket_by_room_id(group_id, false, now);
        proof {
            let claimed = sq[i as int];
            assert(refund_to(lucky_man, false, now)(claimed) == 0);
            assert forall|b: AccountId| #[trigger] self.balance_of(b)
                == s0.balance_of(b) + credit(b, lucky_man, amount as int)
                + credit(b, claimed.boss, if full { claimed.total - claimed.already_get_amount - amount } else { 0 })
                + sum_by(sq, refund_to(b, false, now)) by {
                if full {
                    crate::table::lemma_sum_remove(sq, i as int, refund_to(b, false, now));
                } else {
                    crate::table::lemma_sum_update(sq, i as int, q, refund_to(b, false, now));
                }
            }
            assert forall|x: RoomId| x != group_id implies #[trigger] self.packets(x) == s0.packets(x) by {
                assert(s1.packets(x) == s0.packets(x));
            }
        }
        Ok(())
    }
}

} // verus!
