//! The records of the room platform and their fixed parameters.
use vstd::prelude::*;

use crate::account_set::AccountSet;

verus! {

pub type AccountId = u64;

pub type RoomId = u64;

pub type SessionIndex = u32;

pub type Balance = u128;

pub type BlockNumber = u64;

/// One currency unit in the smallest denomination.
pub const DOLLARS: u128 = 100_000_000_000_000;

/// A hundredth of a currency unit.
pub const CENTS: u128 = 1_000_000_000_000;

/// Ticks (blocks) in one hour, at one block every three seconds.
pub const HOURS: u64 = 1200;

/// Ticks (blocks) in one day.
pub const DAYS: u64 = 28800;

/// The capacity tier of a room.
#[derive(Clone, Copy, Debug, PartialEq, Eq, Structural)]
pub enum GroupMaxMembers {
    Ten,
    Hundred,
    FiveHundred,
    TenThousand,
    NoLimit,
}

impl GroupMaxMembers {
    /// How many members a room of this tier may hold.
    pub open spec fn capacity(self) -> u32 {
        match self {
            GroupMaxMembers::Ten => 10,
            GroupMaxMembers::Hundred => 100,
            GroupMaxMembers::FiveHundred => 500,
            GroupMaxMembers::TenThousand => 100_000,
            GroupMaxMembers::NoLimit => u32::MAX,
        }
    }

    pub fn into_u32(&self) -> (r: Result<u32, &'static str>)
        ensures
            r == Ok::<u32, &'static str>(self.capacity()),
    {
        match self {
            GroupMaxMembers::Ten => Ok(10u32),
            GroupMaxMembers::Hundred => Ok(100u32),
            GroupMaxMembers::FiveHundred => Ok(500u32),
            GroupMaxMembers::TenThousand => Ok(100_000u32),
            GroupMaxMembers::NoLimit => Ok(u32::MAX),
        }
    }
}

impl Default for GroupMaxMembers {
    fn default() -> (r: Self)
        ensures
            r == GroupMaxMembers::Ten,
    {
        GroupMaxMembers::Ten
    }
}

/// The fee for creating a room, per tier.
#[derive(Clone, Copy, Debug, PartialEq, Eq, Structural)]
pub struct CreateCost {
    pub ten: Balance,
    pub hundred: Balance,
    pub five_hundred: Balance,
    pub ten_thousand: Balance,
    pub no_limit: Balance,
}

impl CreateCost {
    pub open spec fn spec_get(self, tier: GroupMaxMembers) -> Balance {
        match tier {
            GroupMaxMembers::Ten => self.ten,
            GroupMaxMembers::Hundred => self.hundred,
            GroupMaxMembers::FiveHundred => self.five_hundred,
            GroupMaxMembers::TenThousand => self.ten_thousand,
            GroupMaxMembers::NoLimit => self.no_limit,
        }
    }

    pub fn get(&self, tier: GroupMaxMembers) -> (r: Balance)
        ensures
            r == self.spec_get(tier),
    {
        match tier {
            GroupMaxMembers::Ten => self.ten,
            GroupMaxMembers::Hundred => self.hundred,
            GroupMaxMembers::FiveHundred => self.five_hundred,
            GroupMaxMembers::TenThousand => self.ten_thousand,
            GroupMaxMembers::NoLimit => self.no_limit,
        }
    }

    pub fn set(&mut self, tier: GroupMaxMembers, amount: Balance)
        ensures
            final(self).spec_get(tier) == amount,
            forall|t: GroupMaxMembers| t != tier ==> final(self).spec_get(t) == old(self).spec_get(t),
    {
        match tier {
            GroupMaxMembers::Ten => self.ten = amount,
            GroupMaxMembers::Hundred => self.hundred = amount,
            GroupMaxMembers::FiveHundred => self.five_hundred = amount,
            GroupMaxMembers::TenThousand => self.ten_thousand = amount,
            GroupMaxMembers::NoLimit => self.no_limit = amount,
        }
    }
}

impl Default for CreateCost {
    fn default() -> (r: Self)
        ensures
            r.ten == DOLLARS,
            r.hundred == 10 * DOLLARS,
            r.five_hundred == 30 * DOLLARS,
            r.ten_thousand == 200 * DOLLARS,
            r.no_limit == 1000 * DOLLARS,
    {
        CreateCost {
            ten: DOLLARS,
            hundred: 10 * DOLLARS,
            five_hundred: 30 * DOLLARS,
            ten_thousand: 200 * DOLLARS,
            no_limit: 1000 * DOLLARS,
        }
    }
}

/// The cool-down between the end of one disband vote and the start of the
/// next, per tier, in ticks.
#[derive(Clone, Copy, Debug, PartialEq, Eq, Structural)]
pub struct DisbandTime {
    pub ten: BlockNumber,
    pub hundred: BlockNumber,
    pub five_hundred: BlockNumber,
    pub ten_thousand: BlockNumber,
    pub no_limit: BlockNumber,
}

impl DisbandTime {
    pub open spec fn spec_get(self, tier: GroupMaxMembers) -> BlockNumber {
        match tier {
            GroupMaxMembers::Ten => self.ten,
            GroupMaxMembers::Hundred => self.hundred,
            GroupMaxMembers::FiveHundred => self.five_hundred,
            GroupMaxMembers::TenThousand => self.ten_thousand,
            GroupMaxMembers::NoLimit => self.no_limit,
        }
    }

    pub fn get(&self, tier: GroupMaxMembers) -> (r: BlockNumber)
        ensures
            r == self.spec_get(tier),
    {
        match tier {
            GroupMaxMembers::Ten => self.ten,
            GroupMaxMembers::Hundred => self.hundred,
            GroupMaxMembers::FiveHundred => self.five_hundred,
            GroupMaxMembers::TenThousand => self.ten_thousand,
            GroupMaxMembers::NoLimit => self.no_limit,
        }
    }
}

impl Default for DisbandTime {
    fn default() -> (r: Self)
        ensures
            r.ten == DAYS,
            r.hundred == 7 * DAYS,
            r.five_hundred == 15 * DAYS,
            r.ten_thousand == 30 * DAYS,
            r.no_limit == 60 * DAYS,
    {
        DisbandTime {
            ten: DAYS,
            hundred: 7 * DAYS,
            five_hundred: 15 * DAYS,
            ten_thousand: 30 * DAYS,
            no_limit: 60 * DAYS,
        }
    }
}

/// The cool-down between two removals of a member by the manager, per tier,
/// in ticks: the smaller the room, the longer.
#[derive(Clone, Copy, Debug, PartialEq, Eq, Structural)]
pub struct RemoveTime {
    pub ten: BlockNumber,
    pub hundred: BlockNumber,
    pub five_hundred: BlockNumber,
    pub ten_thousand: BlockNumber,
    pub no_limit: BlockNumber,
}

impl RemoveTime {
    pub open spec fn spec_get(self, tier: GroupMaxMembers) -> BlockNumber {
        match tier {
            GroupMaxMembers::Ten => self.ten,
            GroupMaxMembers::Hundred => self.hundred,
            GroupMaxMembers::FiveHundred => self.five_hundred,
            GroupMaxMembers::TenThousand => self.ten_thousand,
            GroupMaxMembers::NoLimit => self.no_limit,
        }
    }

    pub fn get(&self, tier: GroupMaxMembers) -> (r: BlockNumber)
        ensures
            r == self.spec_get(tier),
    {
        match tier {
            GroupMaxMembers::Ten => self.ten,
            GroupMaxMembers::Hundred => self.hundred,
            GroupMaxMembers::FiveHundred => self.five_hundred,
            GroupMaxMembers::TenThousand => self.ten_thousand,
            GroupMaxMembers::NoLimit => self.no_limit,
        }
    }
}

impl Default for RemoveTime {
    fn default() -> (r: Self)
        ensures
            r.ten == 7 * DAYS,
            r.hundred == DAYS,
            r.five_hundred == 12 * HOURS,
            r.ten_thousand == 8 * HOURS,
            r.no_limit == 6 * HOURS,
    {
        RemoveTime {
            ten: 7 * DAYS,
            hundred: DAYS,
            five_hundred: 12 * HOURS,
            ten_thousand: 8 * HOURS,
            no_limit: 6 * HOURS,
        }
    }
}

/// Unit prices of the props.
#[derive(Clone, Copy, Debug, PartialEq, Eq, Structural)]
pub struct PropsCost {
    pub picture: Balance,
    pub text: Balance,
    pub video: Balance,
}

impl Default for PropsCost {
    fn default() -> (r: Self)
        ensures
            r.picture == 3 * (CENTS),
            r.text == CENTS,
            r.video == 3 * (CENTS),
    {
        PropsCost { picture: 3 * (CENTS), text: CENTS, video: 3 * (CENTS) }
    }
}

/// Unit prices of the audio credits.
#[derive(Clone, Copy, Debug, PartialEq, Eq, Structural)]
pub struct AudioCost {
    pub ten_seconds: Balance,
    pub thirty_seconds: Balance,
    pub minutes: Balance,
}

impl Default for AudioCost {
    fn default() -> (r: Self)
        ensures
            r.ten_seconds == CENTS,
            r.thirty_seconds == 2 * (CENTS),
            r.minutes == 2 * (CENTS),
    {
        AudioCost {
            ten_seconds: CENTS,
            thirty_seconds: 2 * (CENTS),
            minutes: 2 * (CENTS),
        }
    }
}

/// Counts of props bought.
#[derive(Clone, Copy, Debug, PartialEq, Eq, Structural)]
pub struct AllProps {
    pub picture: u32,
    pub text: u32,
    pub video: u32,
}

impl Default for AllProps {
    fn default() -> (r: Self)
        ensures
            r.picture == 0,
            r.text == 0,
            r.video == 0,
    {
        AllProps { picture: 0, text: 0, video: 0 }
    }
}

/// Counts of audio credits bought.
#[derive(Clone, Copy, Debug, PartialEq, Eq, Structural)]
pub struct Audio {
    pub ten_seconds: u32,
    pub thirty_seconds: u32,
    pub minutes: u32,
}

impl Default for Audio {
    fn default() -> (r: Self)
        ensures
            r.ten_seconds == 0,
            r.thirty_seconds == 0,
            r.minutes == 0,
    {
        Audio { ten_seconds: 0, thirty_seconds: 0, minutes: 0 }
    }
}

/// What is left of a disbanded room for its former members to claim.
#[derive(Clone, Copy, Debug, PartialEq, Eq, Structural)]
pub struct RoomRewardInfo {
    pub total_person: u32,
    pub already_get_count: u32,
    pub total_reward: Balance,
    pub already_get_reward: Balance,
    pub per_man_reward: Balance,
}

impl RoomRewardInfo {
    /// The part of the pool not paid out yet.
    pub open spec fn remaining(self) -> int {
        if self.already_get_reward <= self.total_reward {
            self.total_reward - self.already_get_reward
        } else {
            0
        }
    }

    pub open spec fn wf(self) -> bool {
        &&& self.already_get_reward <= self.total_reward
        &&& self.already_get_count <= self.total_person
        &&& self.already_get_reward == self.already_get_count * self.per_man_reward
        &&& self.total_person * self.per_man_reward <= self.total_reward
    }
}

/// The votes of an open disband vote.
pub struct DisbandVote {
    pub approve_man: AccountSet,
    pub reject_man: AccountSet,
}

impl DisbandVote {
    pub open spec fn wf(&self) -> bool {
        &&& self.approve_man.wf()
        &&& self.reject_man.wf()
        &&& self.approve_man@.disjoint(self.reject_man@)
    }

    pub fn new() -> (r: Self)
        ensures
            r.wf(),
            r.approve_man@ == Set::<u64>::empty(),
            r.reject_man@ == Set::<u64>::empty(),
    {
        DisbandVote { approve_man: AccountSet::new(), reject_man: AccountSet::new() }
    }
}

/// An escrowed amount that members of one room may claim.
pub struct RedPacket {
    pub id: u128,
    pub boss: AccountId,
    pub total: Balance,
    pub lucky_man_number: u32,
    pub already_get_man: AccountSet,
    pub min_amount_of_per_man: Balance,
    pub already_get_amount: Balance,
    pub end_time: BlockNumber,
}

impl RedPacket {
    /// The part of the packet not claimed yet.
    pub open spec fn remaining(&self) -> int {
        if self.already_get_amount <= self.total {
            self.total - self.already_get_amount
        } else {
            0
        }
    }

    pub open spec fn wf(&self) -> bool {
        &&& self.already_get_man.wf()
        &&& self.already_get_amount <= self.total
        &&& self.already_get_man@.len() <= self.lucky_man_number
    }
}

#[derive(Clone, Copy, Debug, PartialEq, Eq, Structural)]
pub enum VoteType {
    Approve,
    Reject,
}

impl Default for VoteType {
    fn default() -> (r: Self)
        ensures
            r == VoteType::Reject,
    {
        VoteType::Reject
    }
}

/// Where a member stands with the reward of a room.
#[derive(Clone, Copy, Debug, PartialEq, Eq, Structural)]
pub enum RewardStatus {
    Get,
    NotGet,
    Expire,
}

impl Default for RewardStatus {
    fn default() -> (r: Self)
        ensures
            r == RewardStatus::NotGet,
    {
        RewardStatus::NotGet
    }
}

/// Who pays the join cost when a member invites someone.
#[derive(Clone, Copy, Debug, PartialEq, Eq, Structural)]
pub enum InvitePaymentType {
    Inviter,
    Invitee,
}

impl Default for InvitePaymentType {
    fn default() -> (r: Self)
        ensures
            r == InvitePaymentType::Invitee,
    {
        InvitePaymentType::Invitee
    }
}

/// A room.
pub struct GroupInfo {
    pub group_id: RoomId,
    pub create_payment: Balance,
    pub group_manager: AccountId,
    pub max_members: GroupMaxMembers,
    pub group_type: Vec<u8>,
    pub join_cost: Balance,
    pub props: AllProps,
    pub audio: Audio,
    pub total_balances: Balance,
    pub group_manager_balances: Balance,
    pub now_members_number: u32,
    pub last_remove_height: BlockNumber,
    pub last_disband_end_hight: BlockNumber,
    pub disband_vote: DisbandVote,
    pub this_disband_start_time: BlockNumber,
    pub is_voting: bool,
    pub create_time: u64,
}

/// What the platform records of one account.
pub struct PersonInfo {
    pub props: AllProps,
    pub audio: Audio,
    pub cost: Balance,
    pub rooms: Vec<(RoomId, RewardStatus)>,
}

/// The ids of the rooms in a room list.
pub open spec fn room_ids(rooms: Seq<(RoomId, RewardStatus)>) -> Set<RoomId> {
    Set::new(|r: RoomId| exists|k: int| 0 <= k < rooms.len() && rooms[k].0 == r)
}

/// No room appears twice in a room list.
pub open spec fn ids_unique(rooms: Seq<(RoomId, RewardStatus)>) -> bool {
    forall|i: int, j: int| 0 <= i < j < rooms.len() ==> rooms[i].0 != rooms[j].0
}

impl PersonInfo {
    pub fn new() -> (r: Self)
        ensures
            r.props == (AllProps { picture: 0, text: 0, video: 0 }),
            r.audio == (Audio { ten_seconds: 0, thirty_seconds: 0, minutes: 0 }),
            r.cost == 0,
            r.rooms@ == Seq::<(RoomId, RewardStatus)>::empty(),
            room_ids(r.rooms@) == Set::<RoomId>::empty(),
    {
        let r = PersonInfo {
            props: AllProps { picture: 0, text: 0, video: 0 },
            audio: Audio { ten_seconds: 0, thirty_seconds: 0, minutes: 0 },
            cost: 0,
            rooms: Vec::new(),
        };
        assert(room_ids(r.rooms@) =~= Set::<RoomId>::empty());
        r
    }

    /// Adds room `r` to the list, not claimed yet.
    pub fn add_room(&mut self, r: RoomId)
        ensures
            final(self).rooms@ == old(self).rooms@.push((r, RewardStatus::NotGet)),
            room_ids(final(self).rooms@) == room_ids(old(self).rooms@).insert(r),
            ids_unique(old(self).rooms@) && !room_ids(old(self).rooms@).contains(r) ==> ids_unique(
                final(self).rooms@,
            ),
            final(self).props == old(self).props,
            final(self).audio == old(self).audio,
            final(self).cost == old(self).cost,
    {
        let ghost s0 = self.rooms@;
        self.rooms.push((r, RewardStatus::NotGet));
        proof {
            let s1 = self.rooms@;
            assert forall|x: RoomId| #[trigger] room_ids(s1).contains(x) == room_ids(s0).insert(r).contains(x) by {
                if room_ids(s0).contains(x) {
                    let k = choose|k: int| 0 <= k < s0.len() && s0[k].0 == x;
                    assert(s1[k].0 == x);
                }
                if x == r {
                    assert(s1[s0.len() as int].0 == x);
                }
                if room_ids(s1).contains(x) && x != r {
                    let k = choose|k: int| 0 <= k < s1.len() && s1[k].0 == x;
                    assert(s0[k].0 == x);
                }
            }
            assert(room_ids(s1) =~= room_ids(s0).insert(r));
            if ids_unique(s0) && !room_ids(s0).contains(r) {
                assert forall|i: int, j: int| 0 <= i < j < s1.len() implies s1[i].0 != s1[j].0 by {
                    if j == s0.len() {
                        assert(s0[i].0 == s1[i].0);
                        if s0[i].0 == r {
                            assert(room_ids(s0).contains(r));
                        }
                    }
                }
            }
        }
    }

    /// Drops every entry of room `r` from the list; the others keep their order.
    pub fn drop_room(&mut self, r: RoomId)
        ensures
            room_ids(final(self).rooms@) == room_ids(old(self).rooms@).remove(r),
            ids_unique(old(self).rooms@) ==> ids_unique(final(self).rooms@),
            forall|k: int| 0 <= k < final(self).rooms@.len() ==> old(self).rooms@.contains(#[trigger] final(self).rooms@[k]),
            final(self).props == old(self).props,
            final(self).audio == old(self).audio,
            final(self).cost == old(self).cost,
    {
        let ghost s0 = self.rooms@;
        let mut kept: Vec<(RoomId, RewardStatus)> = Vec::new();
        let mut i: usize = 0;
        while i < self.rooms.len()
            invariant
                i <= s0.len(),
                self.rooms@ == s0,
                forall|x: RoomId| #[trigger] room_ids(kept@).contains(x) == (room_ids(s0.subrange(0, i as int)).contains(x) && x != r),
                forall|k: int| 0 <= k < kept@.len() ==> s0.contains(#[trigger] kept@[k]),
                ids_unique(s0) ==> ids_unique(kept@),
            decreases s0.len() - i,
        {
            let e = self.rooms[i];
            let ghost k0 = kept@;
            if e.0 != r {
                kept.push(e);
            }
            proof {
                let sub0 = s0.subrange(0, i as int);
                let sub1 = s0.subrange(0, i + 1);
                assert forall|x: RoomId| #[trigger] room_ids(kept@).contains(x) == (room_ids(sub1).contains(x) && x != r) by {
                    if room_ids(sub0).contains(x) {
                        let k = choose|k: int| 0 <= k < sub0.len() && sub0[k].0 == x;
                        assert(sub1[k].0 == x);
                    }
                    if room_ids(sub1).contains(x) && x != e.0 {
                        let k = choose|k: int| 0 <= k < sub1.len() && sub1[k].0 == x;
                        assert(sub0[k].0 == x);
                    }
                    if x == e.0 {
                        assert(sub1[i as int].0 == x);
                    }
                    if room_ids(k0).contains(x) {
                        let k = choose|k: int| 0 <= k < k0.len() && k0[k].0 == x;
                        assert(kept@[k].0 == x);
                    }
                    if room_ids(kept@).contains(x) {
                        let k = choose|k: int| 0 <= k < kept@.len() && kept@[k].0 == x;
                        if k < k0.len() {
                            assert(k0[k].0 == x);
                        }
                    }
                    if e.0 != r && x == e.0 {
                        assert(kept@[k0.len() as int].0 == x);
                    }
                }
                assert forall|k: int| 0 <= k < kept@.len() implies s0.contains(#[trigger] kept@[k]) by {
                    if k < k0.len() {
                        assert(kept@[k] == k0[k]);
                    } else {
                        assert(s0[i as int] == kept@[k]);
                    }
                }
                if ids_unique(s0) && e.0 != r {
                    assert(!room_ids(k0).contains(e.0)) by {
                        if room_ids(k0).contains(e.0) {
                            assert(room_ids(sub0).contains(e.0));
                            let m = choose|m: int| 0 <= m < sub0.len() && sub0[m].0 == e.0;
                            assert(s0[m].0 == s0[i as int].0);
                        }
                    }
                    assert forall|a: int, b: int| 0 <= a < b < kept@.len() implies kept@[a].0 != kept@[b].0 by {
                        if b == k0.len() {
                            assert(kept@[a] == k0[a]);
                            if k0[a].0 == e.0 {
                                assert(room_ids(k0).contains(e.0));
                            }
                        }
                    }
                }
            }
            i = i + 1;
        }
        proof {
            assert(s0.subrange(0, s0.len() as int) == s0);
            assert(room_ids(kept@) =~= room_ids(s0).remove(r));
        }
        self.rooms = kept;
    }

    /// Gives every entry of room `r` the status `status`.
    pub fn set_status(&mut self, r: RoomId, status: RewardStatus)
        ensures
            room_ids(final(self).rooms@) == room_ids(old(self).rooms@),
            forall|k: int| 0 <= k < final(self).rooms@.len() && #[trigger] final(self).rooms@[k].0 == r ==> final(self).rooms@[k].1 == status,
            forall|k: int| 0 <= k < final(self).rooms@.len() && #[trigger] final(self).rooms@[k].0 != r ==> old(self).rooms@.contains(final(self).rooms@[k]),
            final(self).props == old(self).props,
            final(self).audio == old(self).audio,
            final(self).cost == old(self).cost,
    {
        let ghost s0 = self.rooms@;
        let mut i: usize = 0;
        while i < self.rooms.len()
            invariant
                i <= s0.len(),
                self.rooms@.len() == s0.len(),
                forall|k: int| 0 <= k < s0.len() ==> (#[trigger] self.rooms@[k]).0 == s0[k].0,
                forall|k: int| 0 <= k < i && s0[k].0 == r ==> (#[trigger] self.rooms@[k]).1 == status,
                forall|k: int| 0 <= k < s0.len() && (s0[k].0 != r || k >= i) ==> #[trigger] self.rooms@[k] == s0[k],
                self.props == old(self).props,
                self.audio == old(self).audio,
                self.cost == old(self).cost,
            decreases s0.len() - i,
        {
            if self.rooms[i].0 == r {
                self.rooms.set(i, (r, status));
            }
            i = i + 1;
        }
        proof {
            let s1 = self.rooms@;
            assert forall|x: RoomId| #[trigger] room_ids(s1).contains(x) == room_ids(s0).contains(x) by {
                if room_ids(s0).contains(x) {
                    let k = choose|k: int| 0 <= k < s0.len() && s0[k].0 == x;
                    assert(s1[k].0 == x);
                }
                if room_ids(s1).contains(x) {
                    let k = choose|k: int| 0 <= k < s1.len() && s1[k].0 == x;
                    assert(s0[k].0 == x);
                }
            }
            assert(room_ids(s1) =~= room_ids(s0));
            assert forall|k: int| 0 <= k < s1.len() && #[trigger] s1[k].0 != r implies s0.contains(s1[k]) by {
                assert(s1[k] == s0[k]);
            }
        }
    }
}

/// The part a listener plays in a room.
#[derive(Clone, Copy, Debug, PartialEq, Eq, Structural)]
pub enum ListenerType {
    GroupManager,
    Common,
    HonoredGuest,
}

impl Default for ListenerType {
    fn default() -> (r: Self)
        ensures
            r == ListenerType::Common,
    {
        ListenerType::Common
    }
}

} // verus!
