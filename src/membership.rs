//! Rooms and their members: creating a room, joining, leaving, removal by
//! the manager, the join cost and purchases inside a room.
use vstd::prelude::*;

use crate::account_set::AccountSet;
use crate::error::Error;
use crate::fees::{audio_cost, audio_price, join_split, pay_for_split, props_cost, props_price};
use crate::platform::{Listen, credit, cooling, is_cooling, room_pool};
use crate::red_packet::refund_to;
use crate::table::sum_by;
use crate::types::{
    ids_unique, room_ids, AccountId, AllProps, Audio, Balance, BlockNumber, DisbandVote, GroupInfo,
    GroupMaxMembers, InvitePaymentType, PersonInfo, RewardStatus, RoomId,
};

verus! {

/// Who pays to let `invite` in: the inviter where one invites and says so,
/// else the one who joins.
pub open spec fn join_payer(
    invite: AccountId,
    inviter: Option<AccountId>,
    payment_type: Option<InvitePaymentType>,
) -> AccountId {
    match (inviter, payment_type) {
        (Some(i), Some(InvitePaymentType::Inviter)) => i,
        _ => invite,
    }
}

/// The counts `a` and `b` added up, where each sum fits in `u32`.
pub open spec fn props_fit(a: AllProps, b: AllProps) -> bool {
    a.picture + b.picture <= u32::MAX && a.text + b.text <= u32::MAX && a.video + b.video <= u32::MAX
}

pub open spec fn audio_fit(a: Audio, b: Audio) -> bool {
    a.ten_seconds + b.ten_seconds <= u32::MAX && a.thirty_seconds + b.thirty_seconds <= u32::MAX
        && a.minutes + b.minutes <= u32::MAX
}

fn add_props(a: AllProps, b: AllProps) -> (r: Option<AllProps>)
    ensures
        props_fit(a, b) ==> r == Some(
            AllProps {
                picture: (a.picture + b.picture) as u32,
                text: (a.text + b.text) as u32,
                video: (a.video + b.video) as u32,
            },
        ),
        !props_fit(a, b) ==> r.is_none(),
{
    let picture = match a.picture.checked_add(b.picture) {
        Some(x) => x,
        None => return None,
    };
    let text = match a.text.checked_add(b.text) {
        Some(x) => x,
        None => return None,
    };
    let video = match a.video.checked_add(b.video) {
        Some(x) => x,
        None => return None,
    };
    Some(AllProps { picture, text, video })
}

fn add_audio(a: Audio, b: Audio) -> (r: Option<Audio>)
    ensures
        audio_fit(a, b) ==> r == Some(
            Audio {
                ten_seconds: (a.ten_seconds + b.ten_seconds) as u32,
                thirty_seconds: (a.thirty_seconds + b.thirty_seconds) as u32,
                minutes: (a.minutes + b.minutes) as u32,
            },
        ),
        !audio_fit(a, b) ==> r.is_none(),
{
    let ten_seconds = match a.ten_seconds.checked_add(b.ten_seconds) {
        Some(x) => x,
        None => return None,
    };
    let thirty_seconds = match a.thirty_seconds.checked_add(b.thirty_seconds) {
        Some(x) => x,
        None => return None,
    };
    let minutes = match a.minutes.checked_add(b.minutes) {
        Some(x) => x,
        None => return None,
    };
    Some(Audio { ten_seconds, thirty_seconds, minutes })
}

impl Listen {
    /// `post` is this state after `you` joined room `group_id`, paid for by
    /// `payer`.
    pub open spec fn joined(&self, post: Self, you: AccountId, group_id: RoomId, payer: AccountId) -> bool {
        let g0 = self.room(group_id);
        let g = post.room(group_id);
        let (now, later, room, rest) = join_split(g0.join_cost as int);
        &&& post.wf()
        &&& post.value() == self.value()
        &&& post.members(group_id) == self.members(group_id).insert(you)
        &&& forall|r: RoomId| r != group_id ==> #[trigger] post.members(r) == self.members(r)
        &&& post.room_list(you) == self.room_list(you).push((group_id, RewardStatus::NotGet))
        &&& forall|a: AccountId| a != you ==> #[trigger] post.room_list(a) == self.room_list(a)
        &&& post.all_room@ == self.all_room@.insert(group_id, g)
        &&& g.now_members_number == g0.now_members_number + 1
        &&& g.total_balances == g0.total_balances + later + room
        &&& g.group_manager_balances == g0.group_manager_balances + later
        &&& g.group_manager == g0.group_manager
        &&& g.max_members == g0.max_members
        &&& g.is_voting == g0.is_voting
        &&& g.join_cost == g0.join_cost
        &&& forall|b: AccountId| #[trigger] post.balance_of(b) == self.balance_of(b)
            - credit(b, payer, g0.join_cost as int) + credit(b, g0.group_manager, now)
            + credit(b, self.config.treasury, rest)
        &&& post.red_packet_of_room == self.red_packet_of_room
        &&& post.info_of_disband_room == self.info_of_disband_room
        &&& post.config == self.config
        &&& post.group_id == self.group_id
    }

    /// Why `into_room` refuses, if it does.
    pub open spec fn into_room_error(
        &self,
        caller: AccountId,
        group_id: RoomId,
        invite: AccountId,
        inviter: Option<AccountId>,
        payment_type: Option<InvitePaymentType>,
    ) -> Option<Error> {
        if self.multisig_account().is_none() {
            Some(Error::MultisigIdIsNone)
        } else if caller != self.multisig_account().unwrap() {
            Some(Error::NotMultisigId)
        } else if inviter.is_some() && inviter.unwrap() == invite {
            Some(Error::IsYourSelf)
        } else if inviter.is_some() && payment_type.is_none() {
            Some(Error::MustHavePaymentType)
        } else if !self.room_exists(group_id) {
            Some(Error::RoomNotExists)
        } else if self.room(group_id).now_members_number >= self.room(group_id).max_members.capacity() {
            Some(Error::MembersNumberToMax)
        } else if self.members(group_id).contains(invite) {
            Some(Error::InRoom)
        } else if self.balance_of(join_payer(invite, inviter, payment_type)) < self.room(
            group_id,
        ).join_cost {
            Some(Error::FreeAmountNotEnough)
        } else {
            None
        }
    }

    /// In every state the operations reach, an account is a member of an
    /// active room exactly when the room is in the account's room list.
    pub proof fn lemma_membership_consistent(&self, a: AccountId, r: RoomId)
        requires
            self.inv(),
            self.room_exists(r),
        ensures
            self.members(r).contains(a) == room_ids(self.room_list(a)).contains(r),
            self.members(r).len() == self.room(r).now_members_number,
    {
        assert(self.room_ok(r));
        assert(self.members(r).contains(a) == self.in_list(a, r));
    }

    /// Creates a room of tier `max_members` managed by `who`, who pays the
    /// tier's creation fee to the treasury and becomes its sole member.
    pub fn create_room(
        &mut self,
        who: AccountId,
        max_members: GroupMaxMembers,
        group_type: Vec<u8>,
        join_cost: Balance,
        create_time: u64,
    ) -> (r: Result<RoomId, Error>)
        requires
            old(self).inv(),
        ensures
            final(self).inv(),
            final(self).value() == old(self).value(),
            old(self).group_id == u64::MAX ==> r == Err::<RoomId, Error>(Error::Overflow),
            old(self).group_id < u64::MAX && old(self).balance_of(who) < old(self).create_payment.spec_get(max_members)
                ==> r == Err::<RoomId, Error>(Error::FreeAmountNotEnough),
            r.is_err() ==> *final(self) == *old(self),
            old(self).group_id < u64::MAX && old(self).balance_of(who) >= old(self).create_payment.spec_get(max_members)
                ==> r == Ok::<RoomId, Error>(old(self).group_id),
            r.is_ok() ==> {
                let id = old(self).group_id;
                let fee = old(self).create_payment.spec_get(max_members);
                let g = final(self).room(id);
                &&& final(self).group_id == id + 1
                &&& !old(self).room_exists(id)
                &&& final(self).all_room@ == old(self).all_room@.insert(id, g)
                &&& g.group_manager == who
                &&& g.max_members == max_members
                &&& g.group_type@ == group_type@
                &&& g.join_cost == join_cost
                &&& g.create_payment == fee
                &&& g.total_balances == 0
                &&& g.group_manager_balances == 0
                &&& g.now_members_number == 1
                &&& !g.is_voting
                &&& g.create_time == create_time
                &&& final(self).members(id) == set![who]
                &&& final(self).room_list(who) == old(self).room_list(who).push((id, RewardStatus::NotGet))
                &&& (who != old(self).config.treasury ==> final(self).balance_of(who) == old(self).balance_of(who) - fee)
                &&& (who != old(self).config.treasury ==> final(self).balance_of(old(self).config.treasury)
                    == old(self).balance_of(old(self).config.treasury) + fee)
            },
    {
        if self.group_id == u64::MAX {
            return Err(Error::Overflow);
        }
        let fee = self.create_payment.get(max_members);
        proof {
            self.lemma_value_parts_nonneg();
        }
        let treasury = self.config.treasury;
        let t = self.ledger.transfer(who, treasury, fee);
        if t.is_err() {
            return Err(Error::FreeAmountNotEnough);
        }
        let group_id = self.group_id;
        let mut members = AccountSet::new();
        members.insert(who);
        let group_info = GroupInfo {
            group_id,
            create_payment: fee,
            group_manager: who,
            max_members,
            group_type,
            join_cost,
            props: AllProps { picture: 0, text: 0, video: 0 },
            audio: Audio { ten_seconds: 0, thirty_seconds: 0, minutes: 0 },
            total_balances: 0,
            group_manager_balances: 0,
            now_members_number: 1,
            last_remove_height: 0,
            last_disband_end_hight: 0,
            disband_vote: DisbandVote::new(),
            this_disband_start_time: 0,
            is_voting: false,
            create_time,
        };
        let ghost old_self = *old(self);
        proof {
            assert(!self.all_room@.contains_key(group_id)) by {
                if self.all_room@.contains_key(group_id) {
                    assert(self.room_ok(group_id));
                }
            }
            assert(!self.listeners_of_room@.contains_key(group_id)) by {
                if self.listeners_of_room@.contains_key(group_id) {
                    assert(self.listeners_of_room@[group_id].wf());
                }
            }
        }
        self.all_room.insert(group_id, group_info);
        let mut person = match self.all_listeners.remove(who) {
            Some(p) => p,
            None => PersonInfo::new(),
        };
        proof {
            if room_ids(person.rooms@).contains(group_id) {
                assert(old_self.in_list(who, group_id));
            }
            if old_self.all_listeners@.contains_key(who) {
                assert(ids_unique(old_self.all_listeners@[who].rooms@));
            }
        }
        person.add_room(group_id);
        self.all_listeners.insert(who, person);
        self.listeners_of_room.insert(group_id, members);
        self.group_id = group_id + 1;
        proof {
            assert forall|a: AccountId| #[trigger] self.all_listeners@.contains_key(a) implies ids_unique(
                self.all_listeners@[a].rooms@,
            ) by {
                if a != who {
                    assert(old_self.all_listeners@.contains_key(a));
                }
            }
            assert(self.members(group_id) =~= set![who]);
            assert forall|a: AccountId, r: RoomId| #[trigger] self.in_list(a, r) implies r < self.group_id by {
                if a != who {
                    assert(old_self.in_list(a, r));
                } else if r != group_id {
                    assert(old_self.in_list(a, r));
                }
            }
            assert forall|r: RoomId| #[trigger] self.all_room@.contains_key(r) implies self.room_ok(r) by {
                if r != group_id {
                    assert(old_self.room_ok(r));
                    assert forall|a: AccountId| #[trigger] self.members(r).contains(a) == self.in_list(a, r) by {
                        assert(old_self.members(r).contains(a) == old_self.in_list(a, r));
                    }
                } else {
                    assert forall|a: AccountId| #[trigger] self.members(r).contains(a) == self.in_list(a, r) by {
                        if a != who && self.in_list(a, r) {
                            assert(old_self.in_list(a, r));
                        }
                    }
                }
            }
        }
        Ok(group_id)
    }

    /// The manager of room `group_id` changes its join cost, which must
    /// differ from the current one.
    pub fn update_join_cost(&mut self, who: AccountId, group_id: RoomId, join_cost: Balance) -> (r: Result<
        (),
        Error,
    >)
        requires
            old(self).inv(),
        ensures
            final(self).inv(),
            !old(self).room_exists(group_id) ==> r == Err::<(), Error>(Error::RoomNotExists),
            old(self).room_exists(group_id) && old(self).room(group_id).group_manager != who
                ==> r == Err::<(), Error>(Error::NotManager),
            old(self).room_exists(group_id) && old(self).room(group_id).group_manager == who
                && old(self).room(group_id).join_cost == join_cost ==> r == Err::<(), Error>(Error::InVailAmount),
            r.is_err() ==> *final(self) == *old(self),
            old(self).room_exists(group_id) && old(self).room(group_id).group_manager == who
                && old(self).room(group_id).join_cost != join_cost ==> {
                let g0 = old(self).room(group_id);
                let g = final(self).room(group_id);
                &&& r.is_ok()
                &&& final(self).all_room@ == old(self).all_room@.insert(group_id, g)
                &&& g.join_cost == join_cost
                &&& g.group_manager == g0.group_manager
                &&& g.total_balances == g0.total_balances
                &&& g.now_members_number == g0.now_members_number
                &&& final(self).ledger == old(self).ledger
            },
    {
        let (manager, cost) = match self.all_room.get(group_id) {
            Some(g) => (g.group_manager, g.join_cost),
            None => return Err(Error::RoomNotExists),
        };
        if manager != who {
            return Err(Error::NotManager);
        }
        if cost == join_cost {
            return Err(Error::InVailAmount);
        }
        let ghost s0 = *old(self);
        let mut room = self.all_room.remove(group_id).unwrap();
        room.join_cost = join_cost;
        self.all_room.insert(group_id, room);
        proof {
            assert forall|a: AccountId, x: RoomId| #[trigger] self.in_list(a, x) implies x < self.group_id by {
                assert(s0.in_list(a, x));
            }
            assert forall|x: RoomId| #[trigger] self.all_room@.contains_key(x) implies self.room_ok(x) by {
                assert(s0.room_ok(x));
                assert forall|a: AccountId| #[trigger] self.members(x).contains(a) == self.in_list(a, x) by {
                    assert(s0.members(x).contains(a) == s0.in_list(a, x));
                }
            }
        }
        Ok(())
    }

    /// Lets `invite` into room `group_id`, on the multisig account's word,
    /// invited by `inviter` if any, who must then say who pays.
    pub fn into_room(
        &mut self,
        caller: AccountId,
        group_id: RoomId,
        invite: AccountId,
        inviter: Option<AccountId>,
        payment_type: Option<InvitePaymentType>,
    ) -> (r: Result<(), Error>)
        requires
            old(self).inv(),
        ensures
            final(self).inv(),
            final(self).value() == old(self).value(),
            match old(self).into_room_error(caller, group_id, invite, inviter, payment_type) {
                Some(e) => r == Err::<(), Error>(e) && *final(self) == *old(self),
                None => r.is_ok() && old(self).joined(
                    *final(self),
                    invite,
                    group_id,
                    join_payer(invite, inviter, payment_type),
                ),
            },
    {
        let multisig_id = match &self.multisig {
            Some(m) => m.2,
            None => return Err(Error::MultisigIdIsNone),
        };
        if caller != multisig_id {
            return Err(Error::NotMultisigId);
        }
        if let Some(i) = inviter {
            if i == invite {
                return Err(Error::IsYourSelf);
            }
            if payment_type.is_none() {
                return Err(Error::MustHavePaymentType);
            }
        }
        let (count, capacity) = match self.all_room.get(group_id) {
            Some(g) => (g.now_members_number, g.max_members.into_u32()),
            None => return Err(Error::RoomNotExists),
        };
        let capacity = match capacity {
            Ok(c) => c,
            Err(_) => return Err(Error::MembersNumberToMax),
        };
        if count >= capacity {
            return Err(Error::MembersNumberToMax);
        }
        match self.is_in_room(group_id, invite) {
            Ok(true) => return Err(Error::InRoom),
            Ok(false) => {},
            Err(e) => return Err(e),
        }
        self.join_do(invite, group_id, inviter, payment_type)
    }

    /// Lets `you` into room `group_id`: the payer (see `join_payer`) pays the
    /// room's join cost, if any, which is shared out by `pay_for`; then `you`
    /// is recorded as a member.
    fn join_do(
        &mut self,
        you: AccountId,
        group_id: RoomId,
        inviter: Option<AccountId>,
        payment_type: Option<InvitePaymentType>,
    ) -> (r: Result<(), Error>)
        requires
            old(self).wf(),
            old(self).room_exists(group_id),
            !old(self).members(group_id).contains(you),
            old(self).room(group_id).now_members_number < old(self).room(group_id).max_members.capacity(),
        ensures
            final(self).total_issuance == old(self).total_issuance,
            old(self).balance_of(join_payer(you, inviter, payment_type)) < old(self).room(group_id).join_cost
                ==> r == Err::<(), Error>(Error::FreeAmountNotEnough) && *final(self) == *old(self),
            old(self).balance_of(join_payer(you, inviter, payment_type)) >= old(self).room(group_id).join_cost
                ==> r.is_ok() && old(self).joined(*final(self), you, group_id, join_payer(you, inviter, payment_type)),
    {
        let cost = match self.all_room.get(group_id) {
            Some(g) => g.join_cost,
            None => 0,
        };
        let payer = match (inviter, payment_type) {
            (Some(i), Some(InvitePaymentType::Inviter)) => i,
            _ => you,
        };
        let ghost s0 = *old(self);
        if cost > 0 {
            let w = self.ledger.withdraw(payer, cost);
            if w.is_err() {
                assert(self.ledger == s0.ledger);
                assert(*self == s0);
                return Err(Error::FreeAmountNotEnough);
            }
            proof {
                s0.lemma_value_parts_nonneg();
                assert forall|a: AccountId, r: RoomId| #[trigger] self.in_list(a, r) implies r < self.group_id by {
                    assert(s0.in_list(a, r));
                }
                assert forall|r: RoomId| #[trigger] self.all_room@.contains_key(r) implies self.room_ok(r) by {
                    assert(s0.room_ok(r));
                    assert forall|a: AccountId| #[trigger] self.members(r).contains(a) == self.in_list(a, r) by {
                        assert(s0.members(r).contains(a) == s0.in_list(a, r));
                    }
                }
            }
            self.pay_for(group_id, cost);
        } else {
            proof {
                self.ledger.lemma_bounds(payer, payer);
                assert forall|b: AccountId| #[trigger] self.balance_of(b) == s0.balance_of(b)
                    + credit(b, s0.room(group_id).group_manager, join_split(0).0)
                    + credit(b, s0.config.treasury, join_split(0).3) by {
                }
            }
        }
        let ghost s1 = *self;
        self.add_info(you, group_id);
        proof {
            let (now, later, room, rest) = join_split(cost as int);
            assert(s1.room(group_id).total_balances == s0.room(group_id).total_balances + later + room);
            assert(self.room(group_id).total_balances == s0.room(group_id).total_balances + later + room);
            assert(self.all_room@ == s0.all_room@.insert(group_id, self.room(group_id)));
            assert(self.value() == s0.value());
            assert forall|b: AccountId| #[trigger] self.balance_of(b) == s0.balance_of(b)
                - credit(b, payer, cost as int) + credit(b, s0.room(group_id).group_manager, now)
                + credit(b, s0.config.treasury, rest) by {
                assert(self.balance_of(b) == s1.balance_of(b));
            }
        }
        Ok(())
    }

    /// Shares out a join cost already taken from the payer: the manager's
    /// immediate part and the treasury's part are paid, the manager's later
    /// part and the room's part go to the room's pool.
    fn pay_for(&mut self, group_id: RoomId, join_cost: Balance)
        requires
            old(self).wf(),
            old(self).room_exists(group_id),
            old(self).value() + join_cost <= u128::MAX,
        ensures
            final(self).total_issuance == old(self).total_issuance,
            final(self).wf(),
            final(self).value() == old(self).value() + join_cost,
            ({
                let (now, later, room, rest) = join_split(join_cost as int);
                let g0 = old(self).room(group_id);
                let g = final(self).room(group_id);
                &&& final(self).all_room@ == old(self).all_room@.insert(group_id, g)
                &&& g.total_balances == g0.total_balances + later + room
                &&& g.group_manager_balances == g0.group_manager_balances + later
                &&& g.group_manager == g0.group_manager
                &&& g.now_members_number == g0.now_members_number
                &&& g.max_members == g0.max_members
                &&& g.is_voting == g0.is_voting
                &&& g.join_cost == g0.join_cost
                &&& forall|b: AccountId| #[trigger] final(self).balance_of(b) == old(self).balance_of(b)
                    + credit(b, g0.group_manager, now) + credit(b, old(self).config.treasury, rest)
            }),
            final(self).listeners_of_room == old(self).listeners_of_room,
            final(self).all_listeners == old(self).all_listeners,
            final(self).red_packet_of_room == old(self).red_packet_of_room,
            final(self).info_of_disband_room == old(self).info_of_disband_room,
            final(self).config == old(self).config,
            final(self).group_id == old(self).group_id,
            final(self).red_packet_id == old(self).red_packet_id,
            final(self).burned == old(self).burned,
    {
        let (manager_now, manager_later, room_later, treasury_part) = pay_for_split(join_cost);
        proof {
            self.lemma_value_parts_nonneg();
            self.all_room.lemma_total_bounds(group_id, group_id, room_pool());
        }
        let mut room = self.all_room.remove(group_id).unwrap();
        room.total_balances = room.total_balances + manager_later + room_later;
        room.group_manager_balances = room.group_manager_balances + manager_later;
        let manager = room.group_manager;
        self.all_room.insert(group_id, room);
        let treasury = self.config.treasury;
        self.ledger.deposit(manager, manager_now);
        self.ledger.deposit(treasury, treasury_part);
        proof {
            assert forall|r: RoomId| #[trigger] self.all_room@.contains_key(r) implies self.room_ok(r) by {
                assert(old(self).room_ok(r));
                assert forall|a: AccountId| #[trigger] self.members(r).contains(a) == self.in_list(a, r) by {
                    assert(old(self).members(r).contains(a) == old(self).in_list(a, r));
                }
            }
            assert forall|a: AccountId, r: RoomId| #[trigger] self.in_list(a, r) implies r < self.group_id by {
                assert(old(self).in_list(a, r));
            }
        }
    }

    /// Records `you` as a member of room `group_id`, with the room in its room
    /// list, not claimed yet.
    fn add_info(&mut self, you: AccountId, group_id: RoomId)
        requires
            old(self).wf(),
            old(self).room_exists(group_id),
            !old(self).members(group_id).contains(you),
            old(self).room(group_id).now_members_number < old(self).room(group_id).max_members.capacity(),
        ensures
            final(self).total_issuance == old(self).total_issuance,
            final(self).wf(),
            final(self).value() == old(self).value(),
            final(self).members(group_id) == old(self).members(group_id).insert(you),
            forall|r: RoomId| r != group_id ==> #[trigger] final(self).members(r) == old(self).members(r),
            final(self).room_list(you) == old(self).room_list(you).push((group_id, RewardStatus::NotGet)),
            forall|a: AccountId| a != you ==> #[trigger] final(self).room_list(a) == old(self).room_list(a),
            final(self).all_room@ == old(self).all_room@.insert(group_id, final(self).room(group_id)),
            ({
                let g0 = old(self).room(group_id);
                let g = final(self).room(group_id);
                &&& g.now_members_number == g0.now_members_number + 1
                &&& g.total_balances == g0.total_balances
                &&& g.group_manager_balances == g0.group_manager_balances
                &&& g.group_manager == g0.group_manager
                &&& g.max_members == g0.max_members
                &&& g.is_voting == g0.is_voting
                &&& g.join_cost == g0.join_cost
            }),
            final(self).ledger == old(self).ledger,
            final(self).red_packet_of_room == old(self).red_packet_of_room,
            final(self).info_of_disband_room == old(self).info_of_disband_room,
            final(self).config == old(self).config,
            final(self).group_id == old(self).group_id,
            final(self).red_packet_id == old(self).red_packet_id,
            final(self).burned == old(self).burned,
    {
        let ghost old_self = *old(self);
        proof {
            assert(old_self.room_ok(group_id));
        }
        let mut members = self.listeners_of_room.remove(group_id).unwrap();
        members.insert(you);
        self.listeners_of_room.insert(group_id, members);
        let mut person = match self.all_listeners.remove(you) {
            Some(p) => p,
            None => PersonInfo::new(),
        };
        person.add_room(group_id);
        self.all_listeners.insert(you, person);
        let mut room = self.all_room.remove(group_id).unwrap();
        room.now_members_number = room.now_members_number + 1;
        self.all_room.insert(group_id, room);
        proof {
            assert(self.members(group_id) == old_self.members(group_id).insert(you));
            assert(!old_self.in_list(you, group_id));
            assert forall|a: AccountId, r: RoomId| #[trigger] self.in_list(a, r) implies r < self.group_id by {
                if a != you || r != group_id {
                    assert(old_self.in_list(a, r));
                }
            }
            assert forall|r: RoomId| #[trigger] self.all_room@.contains_key(r) implies self.room_ok(r) by {
                assert(old_self.room_ok(r));
                assert forall|a: AccountId| #[trigger] self.members(r).contains(a) == self.in_list(a, r) by {
                    assert(old_self.members(r).contains(a) == old_self.in_list(a, r));
                    if a == you && r == group_id {
                    } else if a == you {
                        assert(self.in_list(a, r) == old_self.in_list(a, r));
                    }
                }
                if r == group_id {
                    old_self.listeners_of_room@[r].lemma_finite();
                }
            }
            assert forall|r: RoomId| #[trigger] self.listeners_of_room@.contains_key(r) implies
                self.listeners_of_room@[r].wf() && r < self.group_id by {
                assert(old_self.listeners_of_room@.contains_key(r));
            }
            assert forall|a: AccountId| a != you implies #[trigger] self.room_list(a) == old_self.room_list(a) by {
                assert(self.all_listeners@.contains_key(a) == old_self.all_listeners@.contains_key(a));
            }
        }
    }

    /// Why `remove_someone` refuses, if it does.
    pub open spec fn remove_error(
        &self,
        manager: AccountId,
        group_id: RoomId,
        who: AccountId,
        now: BlockNumber,
    ) -> Option<Error> {
        let g = self.room(group_id);
        if !self.room_exists(group_id) {
            Some(Error::RoomNotExists)
        } else if g.group_manager != manager {
            Some(Error::NotManager)
        } else if who == manager {
            Some(Error::IsYourSelf)
        } else if !self.members(group_id).contains(who) {
            Some(Error::NotInRoom)
        } else if cooling(g.last_remove_height, now, self.remove_interval.spec_get(g.max_members)) {
            Some(Error::NotRemoveTime)
        } else {
            None
        }
    }

    /// The manager of room `group_id` removes member `who`, at most once per
    /// the tier's removal cool-down; the manager cannot remove itself.
    pub fn remove_someone(
        &mut self,
        manager: AccountId,
        group_id: RoomId,
        who: AccountId,
        now: BlockNumber,
    ) -> (r: Result<(), Error>)
        requires
            old(self).inv(),
        ensures
            final(self).inv(),
            final(self).value() == old(self).value(),
            match old(self).remove_error(manager, group_id, who, now) {
                Some(e) => r == Err::<(), Error>(e) && *final(self) == *old(self),
                None => {
                    let g0 = old(self).room(group_id);
                    let g = final(self).room(group_id);
                    &&& r.is_ok()
                    &&& final(self).all_room@ == old(self).all_room@.insert(group_id, g)
                    &&& final(self).members(group_id) == old(self).members(group_id).remove(who)
                    &&& forall|x: RoomId| x != group_id ==> #[trigger] final(self).members(x) == old(self).members(x)
                    &&& room_ids(final(self).room_list(who)) == room_ids(old(self).room_list(who)).remove(group_id)
                    &&& g.now_members_number == g0.now_members_number - 1
                    &&& g.last_remove_height == now
                    &&& g.group_manager == g0.group_manager
                    &&& g.total_balances == g0.total_balances
                    &&& g.group_manager_balances == g0.group_manager_balances
                    &&& final(self).ledger == old(self).ledger
                    &&& final(self).red_packet_of_room == old(self).red_packet_of_room
                    &&& final(self).info_of_disband_room == old(self).info_of_disband_room
                },
            },
    {
        let (room_manager, last, tier) = match self.all_room.get(group_id) {
            Some(g) => (g.group_manager, g.last_remove_height, g.max_members),
            None => return Err(Error::RoomNotExists),
        };
        if room_manager != manager {
            return Err(Error::NotManager);
        }
        if who == manager {
            return Err(Error::IsYourSelf);
        }
        match self.is_in_room(group_id, who) {
            Ok(true) => {},
            Ok(false) => return Err(Error::NotInRoom),
            Err(e) => return Err(e),
        }
        if is_cooling(last, now, self.remove_interval.get(tier)) {
            return Err(Error::NotRemoveTime);
        }
        let ghost s0 = *old(self);
        proof {
            assert(s0.room_ok(group_id));
            assert(s0.in_list(who, group_id));
            s0.listeners_of_room@[group_id].lemma_finite();
        }
        let mut person = self.all_listeners.remove(who).unwrap();
        person.drop_room(group_id);
        self.all_listeners.insert(who, person);
        let mut members = self.listeners_of_room.remove(group_id).unwrap();
        members.remove(who);
        self.listeners_of_room.insert(group_id, members);
        let mut room = self.all_room.remove(group_id).unwrap();
        room.now_members_number = room.now_members_number - 1;
        room.last_remove_height = now;
        self.all_room.insert(group_id, room);
        proof {
            assert forall|a: AccountId, x: RoomId| #[trigger] self.in_list(a, x) implies x < self.group_id by {
                assert(s0.in_list(a, x));
            }
            assert forall|x: RoomId| #[trigger] self.all_room@.contains_key(x) implies self.room_ok(x) by {
                assert(s0.room_ok(x));
                assert forall|a: AccountId| #[trigger] self.members(x).contains(a) == self.in_list(a, x) by {
                    assert(s0.members(x).contains(a) == s0.in_list(a, x));
                }
            }
            assert forall|x: RoomId| #[trigger] self.listeners_of_room@.contains_key(x) implies
                self.listeners_of_room@[x].wf() && x < self.group_id by {
                assert(s0.listeners_of_room@.contains_key(x));
            }
            assert forall|x: RoomId| x != group_id implies #[trigger] self.members(x) == s0.members(x) by {}
        }
        Ok(())
    }

    /// What a member leaving room `g` takes: a quarter of one member's share
    /// of the listeners' part of the pool.
    pub open spec fn exit_share(g: GroupInfo) -> int {
        (g.total_balances - g.group_manager_balances) / (g.now_members_number as int) / 4
    }

    /// Why `exit` refuses, if it does.
    pub open spec fn exit_error(&self, user: AccountId, group_id: RoomId) -> Option<Error> {
        let g = self.room(group_id);
        if !self.room_exists(group_id) {
            Some(Error::RoomNotExists)
        } else if !self.members(group_id).contains(user) {
            Some(Error::NotInRoom)
        } else if g.now_members_number != 1 && g.group_manager_balances < Self::exit_share(g) {
            Some(Error::Overflow)
        } else {
            None
        }
    }

    /// Member `user` leaves room `group_id`. If others stay, `user` is paid
    /// `exit_share`, taken from the pool and from the manager's part, and if
    /// `user` managed the room the remaining member with the greatest id
    /// takes over. If `user` was the last member, `user` is paid the whole
    /// pool, the room is removed and its red packets are settled.
    pub fn exit(&mut self, user: AccountId, group_id: RoomId, now: BlockNumber) -> (r: Result<(), Error>)
        requires
            old(self).inv(),
        ensures
            final(self).inv(),
            final(self).value() == old(self).value(),
            match old(self).exit_error(user, group_id) {
                Some(e) => r == Err::<(), Error>(e) && *final(self) == *old(self),
                None => {
                    let g0 = old(self).room(group_id);
                    let g = final(self).room(group_id);
                    &&& r.is_ok()
                    &&& room_ids(final(self).room_list(user)) == room_ids(old(self).room_list(user)).remove(group_id)
                    &&& forall|x: RoomId| x != group_id ==> #[trigger] final(self).members(x) == old(self).members(x)
                    &&& g0.now_members_number != 1 ==> {
                        let a = Self::exit_share(g0);
                        &&& final(self).all_room@ == old(self).all_room@.insert(group_id, g)
                        &&& final(self).members(group_id) == old(self).members(group_id).remove(user)
                        &&& g.total_balances == g0.total_balances - a
                        &&& g.group_manager_balances == g0.group_manager_balances - a
                        &&& g.now_members_number == g0.now_members_number - 1
                        &&& (user != g0.group_manager ==> g.group_manager == g0.group_manager)
                        &&& (user == g0.group_manager ==> forall|x: AccountId| #[trigger]
                            final(self).members(group_id).contains(x) ==> x <= g.group_manager)
                        &&& forall|b: AccountId| #[trigger] final(self).balance_of(b) == old(self).balance_of(b)
                            + credit(b, user, a)
                        &&& final(self).red_packet_of_room == old(self).red_packet_of_room
                    }
                    &&& g0.now_members_number == 1 ==> {
                        &&& final(self).all_room@ == old(self).all_room@.remove(group_id)
                        &&& !final(self).listeners_of_room@.contains_key(group_id)
                        &&& !final(self).red_packet_of_room@.contains_key(group_id)
                        &&& forall|x: RoomId| x != group_id ==> #[trigger] final(self).packets(x) == old(self).packets(x)
                        &&& forall|b: AccountId| #[trigger] final(self).balance_of(b) == old(self).balance_of(b)
                            + credit(b, user, g0.total_balances as int)
                            + sum_by(old(self).packets(group_id), refund_to(b, true, now))
                    }
                    &&& final(self).info_of_disband_room == old(self).info_of_disband_room
                },
            },
    {
        match self.is_in_room(group_id, user) {
            Ok(true) => {},
            Ok(false) => return Err(Error::NotInRoom),
            Err(e) => return Err(e),
        }
        let (number, total, manager_balance) = match self.all_room.get(group_id) {
            Some(g) => (g.now_members_number, g.total_balances, g.group_manager_balances),
            None => return Err(Error::RoomNotExists),
        };
        let ghost s0 = *old(self);
        proof {
            assert(s0.room_ok(group_id));
            assert(s0.in_list(user, group_id));
            s0.lemma_value_parts_nonneg();
            s0.all_room.lemma_total_bounds(group_id, group_id, room_pool());
        }
        let user_amount = total - manager_balance;
        if number != 1 {
            let amount = user_amount / (number as u128) / 4;
            if manager_balance < amount {
                return Err(Error::Overflow);
            }
            proof {
                assert(user_amount / (number as u128) <= user_amount) by (nonlinear_arith)
                    requires
                        number >= 1,
                        user_amount >= 0,
                ;
            }
            self.ledger.deposit(user, amount);
            let mut room = self.all_room.remove(group_id).unwrap();
            room.total_balances = room.total_balances - amount;
            room.group_manager_balances = room.group_manager_balances - amount;
            room.now_members_number = room.now_members_number - 1;
            let mut members = self.listeners_of_room.remove(group_id).unwrap();
            members.remove(user);
            if room.group_manager == user {
                match members.max() {
                    Some(m) => room.group_manager = m,
                    None => {},
                }
            }
            proof {
                s0.listeners_of_room@[group_id].lemma_finite();
                assert(members@.len() == number - 1);
                assert(members@.contains(room.group_manager));
            }
            self.listeners_of_room.insert(group_id, members);
            self.all_room.insert(group_id, room);
            let mut person = self.all_listeners.remove(user).unwrap();
            person.drop_room(group_id);
            self.all_listeners.insert(user, person);
            proof {
                assert forall|a: AccountId, x: RoomId| #[trigger] self.in_list(a, x) implies x < self.group_id by {
                    assert(s0.in_list(a, x));
                }
                assert forall|x: RoomId| #[trigger] self.all_room@.contains_key(x) implies self.room_ok(x) by {
                    assert(s0.room_ok(x));
                    assert forall|a: AccountId| #[trigger] self.members(x).contains(a) == self.in_list(a, x) by {
                        assert(s0.members(x).contains(a) == s0.in_list(a, x));
                    }
                }
                assert forall|x: RoomId| #[trigger] self.listeners_of_room@.contains_key(x) implies
                    self.listeners_of_room@[x].wf() && x < self.group_id by {
                    assert(s0.listeners_of_room@.contains_key(x));
                }
                assert forall|x: RoomId| x != group_id implies #[trigger] self.members(x) == s0.members(x) by {}
                assert(self.value() == s0.value());
            }
        } else {
            self.ledger.deposit(user, total);
            self.all_room.remove(group_id);
            self.listeners_of_room.remove(group_id);
            let mut person = self.all_listeners.remove(user).unwrap();
            person.drop_room(group_id);
            self.all_listeners.insert(user, person);
            let ghost s1 = *self;
            proof {
                assert(s0.members(group_id) =~= set![user]) by {
                    s0.listeners_of_room@[group_id].lemma_finite();
                    assert(s0.members(group_id).contains(user));
                    assert forall|x: AccountId| #[trigger] s0.members(group_id).contains(x) implies x == user by {
                        if x != user {
                            assert(s0.members(group_id).remove(user).contains(x));
                            assert(s0.members(group_id).remove(user).len() == 0);
                        }
                    }
                }
                assert forall|a: AccountId, x: RoomId| #[trigger] self.in_list(a, x) implies x < self.group_id by {
                    assert(s0.in_list(a, x));
                }
                assert forall|x: RoomId| #[trigger] self.all_room@.contains_key(x) implies self.room_ok(x) by {
                    assert(s0.room_ok(x));
                    assert forall|a: AccountId| #[trigger] self.members(x).contains(a) == self.in_list(a, x) by {
                        assert(s0.members(x).contains(a) == s0.in_list(a, x));
                    }
                }
                assert forall|x: RoomId| #[trigger] self.listeners_of_room@.contains_key(x) implies
                    self.listeners_of_room@[x].wf() && x < self.group_id by {
                    assert(s0.listeners_of_room@.contains_key(x));
                }
                assert forall|x: RoomId| x != group_id implies #[trigger] self.members(x) == s0.members(x) by {}
            }
            self.remove_redpacket_by_room_id(group_id, true, now);
            proof {
                assert forall|b: AccountId| #[trigger] self.balance_of(b) == s0.balance_of(b)
                    + credit(b, user, total as int)
                    + sum_by(s0.packets(group_id), refund_to(b, true, now)) by {
                    assert(s1.packets(group_id) == s0.packets(group_id));
                }
                assert forall|x: RoomId| x != group_id implies #[trigger] self.packets(x) == s0.packets(x) by {
                    assert(s1.packets(x) == s0.packets(x));
                }
                assert forall|x: RoomId| x != group_id implies #[trigger] self.members(x) == s0.members(x) by {
                    assert(s1.members(x) == s0.members(x));
                }
            }
        }
        Ok(())
    }

    pub open spec fn person(&self, a: AccountId) -> PersonInfo {
        self.all_listeners@[a]
    }

    /// Why a purchase of price `cost` (`None`: beyond `u128`) by `who` in
    /// room `group_id` is refused, where `fits` says whether the counters
    /// take it.
    pub open spec fn buy_error(
        &self,
        who: AccountId,
        group_id: RoomId,
        cost: Option<int>,
        fits: bool,
    ) -> Option<Error> {
        if !self.room_exists(group_id) {
            Some(Error::RoomNotExists)
        } else if !self.members(group_id).contains(who) {
            Some(Error::NotInRoom)
        } else if cost.is_none() {
            Some(Error::Overflow)
        } else if self.balance_of(who) < cost.unwrap() {
            Some(Error::FreeAmountNotEnough)
        } else if !fits || self.person(who).cost + cost.unwrap() > u128::MAX {
            Some(Error::Overflow)
        } else {
            None
        }
    }

    /// The price of `props` at the current prices, if it fits in `u128`.
    pub open spec fn props_charge(&self, props: AllProps) -> Option<int> {
        let c = props_price(self.props_payment, props);
        if c <= u128::MAX {
            Some(c)
        } else {
            None
        }
    }

    pub open spec fn audio_charge(&self, audio: Audio) -> Option<int> {
        let c = audio_price(self.audio_payment, audio);
        if c <= u128::MAX {
            Some(c)
        } else {
            None
        }
    }

    /// Member `who` buys `props` in room `group_id`: the price goes to the
    /// sink, and the room's and the buyer's counters and the buyer's spending
    /// grow.
    pub fn buy_props_in_room(&mut self, who: AccountId, group_id: RoomId, props: AllProps) -> (r: Result<(), Error>)
        requires
            old(self).inv(),
        ensures
            final(self).inv(),
            final(self).value() == old(self).value(),
            ({
                let fits = old(self).room_exists(group_id) && old(self).all_listeners@.contains_key(who)
                    && props_fit(old(self).room(group_id).props, props) && props_fit(old(self).person(who).props, props);
                match old(self).buy_error(who, group_id, old(self).props_charge(props), fits) {
                    Some(e) => r == Err::<(), Error>(e) && *final(self) == *old(self),
                    None => {
                        let cost = old(self).props_charge(props).unwrap();
                        let g0 = old(self).room(group_id);
                        let g = final(self).room(group_id);
                        &&& r.is_ok()
                        &&& final(self).burned == old(self).burned + cost
                        &&& final(self).balance_of(who) == old(self).balance_of(who) - cost
                        &&& forall|b: AccountId| b != who ==> #[trigger] final(self).balance_of(b) == old(self).balance_of(b)
                        &&& final(self).all_room@ == old(self).all_room@.insert(group_id, g)
                        &&& g.props.picture == g0.props.picture + props.picture
                        &&& g.props.text == g0.props.text + props.text
                        &&& g.props.video == g0.props.video + props.video
                        &&& g.total_balances == g0.total_balances
                        &&& final(self).person(who).props.picture == old(self).person(who).props.picture + props.picture
                        &&& final(self).person(who).props.text == old(self).person(who).props.text + props.text
                        &&& final(self).person(who).props.video == old(self).person(who).props.video + props.video
                        &&& final(self).person(who).cost == old(self).person(who).cost + cost
                        &&& final(self).room_list(who) == old(self).room_list(who)
                    },
                }
            }),
    {
        match self.is_in_room(group_id, who) {
            Ok(true) => {},
            Ok(false) => return Err(Error::NotInRoom),
            Err(e) => return Err(e),
        }
        let ghost s0 = *old(self);
        proof {
            assert(s0.room_ok(group_id));
            assert(s0.in_list(who, group_id));
        }
        let cost = match props_cost(&self.props_payment, &props) {
            Some(c) => c,
            None => return Err(Error::Overflow),
        };
        if self.ledger.balance(who) < cost {
            return Err(Error::FreeAmountNotEnough);
        }
        let room_props = match self.all_room.get(group_id) {
            Some(g) => add_props(g.props, props),
            None => return Err(Error::RoomNotExists),
        };
        let (person_props, person_cost) = match self.all_listeners.get(who) {
            Some(p) => (add_props(p.props, props), p.cost.checked_add(cost)),
            None => return Err(Error::NotInRoom),
        };
        let (room_props, person_props, person_cost) = match (room_props, person_props, person_cost) {
            (Some(a), Some(b), Some(c)) => (a, b, c),
            _ => return Err(Error::Overflow),
        };
        proof {
            s0.lemma_value_parts_nonneg();
            s0.ledger.lemma_bounds(who, who);
        }
        let _ = self.ledger.withdraw(who, cost);
        self.burned = self.burned + cost;
        let mut room = self.all_room.remove(group_id).unwrap();
        room.props = room_props;
        self.all_room.insert(group_id, room);
        let mut person = self.all_listeners.remove(who).unwrap();
        person.props = person_props;
        person.cost = person_cost;
        self.all_listeners.insert(who, person);
        proof {
            assert forall|a: AccountId, x: RoomId| #[trigger] self.in_list(a, x) implies x < self.group_id by {
                assert(s0.in_list(a, x));
            }
            assert forall|x: RoomId| #[trigger] self.all_room@.contains_key(x) implies self.room_ok(x) by {
                assert(s0.room_ok(x));
                assert forall|a: AccountId| #[trigger] self.members(x).contains(a) == self.in_list(a, x) by {
                    assert(s0.members(x).contains(a) == s0.in_list(a, x));
                }
            }
        }
        Ok(())
    }

    /// Member `who` buys `audio` credits in room `group_id`, as
    /// `buy_props_in_room` does props.
    pub fn buy_audio_in_room(&mut self, who: AccountId, group_id: RoomId, audio: Audio) -> (r: Result<(), Error>)
        requires
            old(self).inv(),
        ensures
            final(self).inv(),
            final(self).value() == old(self).value(),
            ({
                let fits = old(self).room_exists(group_id) && old(self).all_listeners@.contains_key(who)
                    && audio_fit(old(self).room(group_id).audio, audio) && audio_fit(old(self).person(who).audio, audio);
                match old(self).buy_error(who, group_id, old(self).audio_charge(audio), fits) {
                    Some(e) => r == Err::<(), Error>(e) && *final(self) == *old(self),
                    None => {
                        let cost = old(self).audio_charge(audio).unwrap();
                        let g0 = old(self).room(group_id);
                        let g = final(self).room(group_id);
                        &&& r.is_ok()
                        &&& final(self).burned == old(self).burned + cost
                        &&& final(self).balance_of(who) == old(self).balance_of(who) - cost
                        &&& forall|b: AccountId| b != who ==> #[trigger] final(self).balance_of(b) == old(self).balance_of(b)
                        &&& final(self).all_room@ == old(self).all_room@.insert(group_id, g)
                        &&& g.audio.ten_seconds == g0.audio.ten_seconds + audio.ten_seconds
                        &&& g.audio.thirty_seconds == g0.audio.thirty_seconds + audio.thirty_seconds
                        &&& g.audio.minutes == g0.audio.minutes + audio.minutes
                        &&& g.total_balances == g0.total_balances
                        &&& final(self).person(who).audio.ten_seconds == old(self).person(who).audio.ten_seconds + audio.ten_seconds
                        &&& final(self).person(who).audio.thirty_seconds == old(self).person(who).audio.thirty_seconds + audio.thirty_seconds
                        &&& final(self).person(who).audio.minutes == old(self).person(who).audio.minutes + audio.minutes
                        &&& final(self).person(who).cost == old(self).person(who).cost + cost
                        &&& final(self).room_list(who) == old(self).room_list(who)
                    },
                }
            }),
    {
        match self.is_in_room(group_id, who) {
            Ok(true) => {},
            Ok(false) => return Err(Error::NotInRoom),
            Err(e) => return Err(e),
        }
        let ghost s0 = *old(self);
        proof {
            assert(s0.room_ok(group_id));
            assert(s0.in_list(who, group_id));
        }
        let cost = match audio_cost(&self.audio_payment, &audio) {
            Some(c) => c,
            None => return Err(Error::Overflow),
        };
        if self.ledger.balance(who) < cost {
            return Err(Error::FreeAmountNotEnough);
        }
        let room_audio = match self.all_room.get(group_id) {
            Some(g) => add_audio(g.audio, audio),
            None => return Err(Error::RoomNotExists),
        };
        let (person_audio, person_cost) = match self.all_listeners.get(who) {
            Some(p) => (add_audio(p.audio, audio), p.cost.checked_add(cost)),
            None => return Err(Error::NotInRoom),
        };
        let (room_audio, person_audio, person_cost) = match (room_audio, person_audio, person_cost) {
            (Some(a), Some(b), Some(c)) => (a, b, c),
            _ => return Err(Error::Overflow),
        };
        proof {
            s0.lemma_value_parts_nonneg();
            s0.ledger.lemma_bounds(who, who);
        }
        let _ = self.ledger.withdraw(who, cost);
        self.burned = self.burned + cost;
        let mut room = self.all_room.remove(group_id).unwrap();
        room.audio = room_audio;
        self.all_room.insert(group_id, room);
        let mut person = self.all_listeners.remove(who).unwrap();
        person.audio = person_audio;
        person.cost = person_cost;
        self.all_listeners.insert(who, person);
        proof {
            assert forall|a: AccountId, x: RoomId| #[trigger] self.in_list(a, x) implies x < self.group_id by {
                assert(s0.in_list(a, x));
            }
            assert forall|x: RoomId| #[trigger] self.all_room@.contains_key(x) implies self.room_ok(x) by {
                assert(s0.room_ok(x));
                assert forall|a: AccountId| #[trigger] self.members(x).contains(a) == self.in_list(a, x) by {
                    assert(s0.members(x).contains(a) == s0.in_list(a, x));
                }
            }
        }
        Ok(())
    }
}

} // verus!
