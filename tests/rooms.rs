use listen::account_set::AccountSet;
use listen::error::Error;
use listen::fees::{audio_cost, pay_for_split, percent, props_cost};
use listen::platform::{Config, Listen};
use listen::sort::sort_account_id;
use listen::types::{
    AllProps, Audio, AudioCost, DisbandVote, GroupMaxMembers, InvitePaymentType, PropsCost,
    RewardStatus, VoteType, CENTS, DAYS, DOLLARS,
};
use listen::vote::is_vote_end;

const TREASURY: u64 = 100;
const MULTISIG: u64 = 77;
const SERVER: u64 = 88;
const FUNDS: u128 = 10 * DOLLARS;
const MIN: u128 = 10;

fn config() -> Config {
    Config {
        treasury: TREASURY,
        air_drop_amount: 50,
        vote_expire: 100,
        red_packet_min_amount: MIN,
        red_pack_expire: 50,
    }
}

/// A platform with accounts 1 to 6 funded, a multisig and a relay set.
fn setup() -> Listen {
    let mut l = Listen::new(config());
    for a in 1..7u64 {
        l.deposit(a, FUNDS).unwrap();
    }
    l.set_multisig(vec![8, 7], 1, MULTISIG).unwrap();
    l.set_server_id(MULTISIG, SERVER).unwrap();
    l
}

fn members(l: &Listen, room: u64) -> usize {
    l.listeners_of_room.get(room).unwrap().len()
}

fn is_member(l: &Listen, room: u64, who: u64) -> bool {
    l.listeners_of_room.get(room).map(|m| m.contains(who)).unwrap_or(false)
}

fn join(l: &mut Listen, room: u64, who: u64) {
    l.into_room(MULTISIG, room, who, None, None).unwrap();
}

/// Room 1, managed by account 1, tier Ten, with the given join cost.
fn room_with_cost(l: &mut Listen, cost: u128) -> u64 {
    l.create_room(1, GroupMaxMembers::Ten, vec![1, 2], cost, 1000).unwrap()
}

#[test]
fn scenario_create_room() {
    let mut l = setup();
    let fee = l.create_payment.ten;
    let id = room_with_cost(&mut l, 0);
    assert_eq!(id, 1);
    let g = l.all_room.get(id).unwrap();
    assert_eq!(g.now_members_number, 1);
    assert_eq!(g.total_balances, 0);
    assert_eq!(g.group_manager_balances, 0);
    assert_eq!(g.group_manager, 1);
    assert_eq!(g.create_payment, fee);
    assert_eq!(members(&l, id), 1);
    assert!(is_member(&l, id, 1));
    assert_eq!(l.balance(1), FUNDS - fee);
    assert_eq!(l.balance(TREASURY), fee);
    assert_eq!(l.group_id, 2);
    let rooms = &l.all_listeners.get(1).unwrap().rooms;
    assert_eq!(rooms.len(), 1);
    assert_eq!(rooms[0], (1, RewardStatus::NotGet));
}

#[test]
fn scenario_join_with_cost() {
    let mut l = setup();
    let id = room_with_cost(&mut l, 100);
    let manager_before = l.balance(1);
    let treasury_before = l.balance(TREASURY);
    join(&mut l, id, 2);
    assert_eq!(l.balance(1), manager_before + 5);
    assert_eq!(l.balance(TREASURY), treasury_before + 40);
    assert_eq!(l.balance(2), FUNDS - 100);
    let g = l.all_room.get(id).unwrap();
    assert_eq!(g.total_balances, 55);
    assert_eq!(g.group_manager_balances, 5);
    assert_eq!(g.now_members_number, 2);
    assert_eq!(members(&l, id), 2);
    assert!(is_member(&l, id, 2));
}

#[test]
fn scenario_disband_two_members() {
    let mut l = setup();
    let id = room_with_cost(&mut l, 100);
    join(&mut l, id, 2);
    let bond = l.create_payment.ten / 10;
    let before = l.balance(1);
    l.ask_for_disband_room(1, id, 10).unwrap();
    assert_eq!(l.balance(1), before - bond);
    assert!(l.all_room.get(id).unwrap().is_voting);
    assert_eq!(l.vote(1, id, VoteType::Approve, 11, 3), Err(Error::RepeatVote));
    let before = l.balance(1);
    l.vote(2, id, VoteType::Approve, 11, 3).unwrap();
    assert!(!l.all_room.contains_key(id));
    let info = *l.info_of_disband_room.get(3).unwrap().get(id).unwrap();
    assert_eq!(info.total_person, 2);
    assert_eq!(info.already_get_count, 0);
    assert_eq!(info.total_reward, 50);
    assert_eq!(info.per_man_reward, 25);
    assert_eq!(l.balance(1), before + 5);
    assert_eq!(l.all_session_index, vec![3]);
    assert_eq!(l.vote(2, id, VoteType::Approve, 12, 3), Err(Error::RoomNotExists));
}

#[test]
fn scenario_red_packet_two_claims() {
    let mut l = setup();
    let id = room_with_cost(&mut l, 0);
    join(&mut l, id, 2);
    join(&mut l, id, 3);
    let pid = l.send_redpacket_in_room(1, id, 2, 2 * MIN, 0).unwrap();
    assert_eq!(l.balance(1), FUNDS - l.create_payment.ten - 2 * MIN);
    l.get_redpacket_in_room(SERVER, 2, id, pid, MIN, 1).unwrap();
    assert_eq!(l.balance(2), FUNDS + MIN);
    assert_eq!(l.get_redpacket_in_room(SERVER, 2, id, pid, MIN, 1), Err(Error::CountErr));
    l.get_redpacket_in_room(SERVER, 3, id, pid, MIN, 2).unwrap();
    assert_eq!(l.balance(3), FUNDS + MIN);
    assert_eq!(l.red_packet_of_room.get(id).unwrap().len(), 0);
}

#[test]
fn red_packet_remainder_refunded() {
    let mut l = setup();
    let id = room_with_cost(&mut l, 0);
    join(&mut l, id, 2);
    join(&mut l, id, 3);
    let start = l.balance(1);
    let pid = l.send_redpacket_in_room(1, id, 2, 25, 0).unwrap();
    l.get_redpacket_in_room(SERVER, 2, id, pid, MIN, 1).unwrap();
    l.get_redpacket_in_room(SERVER, 3, id, pid, MIN, 1).unwrap();
    assert_eq!(l.balance(1), start - 20);
    assert_eq!(l.red_packet_of_room.get(id).unwrap().len(), 0);
}

#[test]
fn scenario_pay_out_expired() {
    let mut l = setup();
    let id = room_with_cost(&mut l, 100);
    join(&mut l, id, 2);
    l.ask_for_disband_room(1, id, 10).unwrap();
    l.vote(2, id, VoteType::Approve, 11, 0).unwrap();
    let before = l.balance(2);
    l.pay_out(2, 25).unwrap();
    assert_eq!(l.balance(2), before);
    assert_eq!(l.all_listeners.get(2).unwrap().rooms[0], (id, RewardStatus::Expire));
}

#[test]
fn pay_out_within_window() {
    let mut l = setup();
    let id = room_with_cost(&mut l, 100);
    join(&mut l, id, 2);
    l.ask_for_disband_room(1, id, 10).unwrap();
    l.vote(2, id, VoteType::Approve, 11, 3).unwrap();
    let before = l.balance(2);
    l.pay_out(2, 22).unwrap();
    assert_eq!(l.balance(2), before + 25);
    assert_eq!(l.all_listeners.get(2).unwrap().rooms[0], (id, RewardStatus::Get));
    let info = *l.info_of_disband_room.get(3).unwrap().get(id).unwrap();
    assert_eq!(info.already_get_count, 1);
    assert_eq!(info.already_get_reward, 25);
    assert!(!is_member(&l, id, 2));
    let before = l.balance(2);
    l.pay_out(2, 22).unwrap();
    assert_eq!(l.balance(2), before);
    assert_eq!(l.pay_out(9, 22), Err(Error::NotIntoAnyRoom));
}

#[test]
fn retention_sweep_sends_rest_to_treasury() {
    let mut l = setup();
    let id = room_with_cost(&mut l, 100);
    join(&mut l, id, 2);
    l.ask_for_disband_room(1, id, 10).unwrap();
    l.vote(2, id, VoteType::Approve, 11, 1).unwrap();
    l.pay_out(2, 1).unwrap();
    let before = l.balance(TREASURY);
    l.remove_expire_disband_info(84);
    assert_eq!(l.balance(TREASURY), before);
    assert!(l.info_of_disband_room.contains_key(1));
    l.remove_expire_disband_info(85);
    assert_eq!(l.balance(TREASURY), before + 25);
    assert!(!l.info_of_disband_room.contains_key(1));
    assert!(l.all_session_index.is_empty());
    assert!(!l.listeners_of_room.contains_key(id));
}

#[test]
fn vote_rejected_returns_room_to_idle() {
    let mut l = setup();
    let id = room_with_cost(&mut l, 0);
    for a in 2..5u64 {
        join(&mut l, id, a);
    }
    l.ask_for_disband_room(1, id, 10).unwrap();
    l.vote(2, id, VoteType::Reject, 11, 0).unwrap();
    assert!(l.all_room.get(id).unwrap().is_voting);
    l.vote(3, id, VoteType::Reject, 12, 0).unwrap();
    let g = l.all_room.get(id).unwrap();
    assert!(!g.is_voting);
    assert_eq!(g.last_disband_end_hight, 12);
    assert_eq!(g.disband_vote.approve_man.len(), 0);
    assert_eq!(l.vote(2, id, VoteType::Approve, 13, 0), Err(Error::NotVoting));
    assert_eq!(l.ask_for_disband_room(2, id, 13), Err(Error::NotUntilDisbandTime));
    l.ask_for_disband_room(2, id, 13 + DAYS).unwrap();
}

#[test]
fn vote_may_be_switched() {
    let mut l = setup();
    let id = room_with_cost(&mut l, 0);
    for a in 2..7u64 {
        join(&mut l, id, a);
    }
    l.ask_for_disband_room(1, id, 10).unwrap();
    assert_eq!(l.ask_for_disband_room(2, id, 10), Err(Error::IsVoting));
    l.vote(1, id, VoteType::Reject, 11, 0).unwrap();
    let g = l.all_room.get(id).unwrap();
    assert_eq!(g.disband_vote.approve_man.len(), 0);
    assert_eq!(g.disband_vote.reject_man.len(), 1);
    assert_eq!(l.vote(1, id, VoteType::Reject, 11, 0), Err(Error::RepeatVote));
}

#[test]
fn vote_resolution_rules() {
    let mut v = DisbandVote::new();
    v.approve_man.insert(1);
    assert_eq!(is_vote_end(2, &v, 0, 0, 100), (true, true));
    assert_eq!(is_vote_end(4, &v, 0, 0, 100), (true, true));
    assert_eq!(is_vote_end(5, &v, 0, 0, 100), (false, false));
    assert_eq!(is_vote_end(5, &v, 0, 101, 100), (true, false));
    assert_eq!(is_vote_end(5, &v, 0, 100, 100), (false, false));
    v.reject_man.insert(2);
    v.reject_man.insert(3);
    assert_eq!(is_vote_end(10, &v, 0, 0, 100), (false, false));
    v.reject_man.insert(4);
    assert_eq!(is_vote_end(10, &v, 0, 0, 100), (false, false));
    v.reject_man.insert(5);
    assert_eq!(is_vote_end(10, &v, 0, 0, 100), (true, false));
    let mut w = DisbandVote::new();
    for a in 1..5u64 {
        w.approve_man.insert(a);
    }
    w.reject_man.insert(9);
    assert_eq!(is_vote_end(12, &w, 0, 0, 100), (true, true));
}

#[test]
fn exit_pays_quarter_share() {
    let mut l = setup();
    let id = room_with_cost(&mut l, 100);
    for a in 2..5u64 {
        join(&mut l, id, a);
    }
    let before = l.balance(4);
    l.exit(4, id, 20).unwrap();
    assert_eq!(l.balance(4), before + 9);
    let g = l.all_room.get(id).unwrap();
    assert_eq!(g.total_balances, 156);
    assert_eq!(g.group_manager_balances, 6);
    assert_eq!(g.now_members_number, 3);
    assert!(!is_member(&l, id, 4));
    assert!(l.all_listeners.get(4).unwrap().rooms.is_empty());
    assert_eq!(l.exit(4, id, 20), Err(Error::NotInRoom));
}

#[test]
fn exit_refused_when_manager_share_too_small() {
    let mut l = setup();
    let id = room_with_cost(&mut l, 100);
    join(&mut l, id, 2);
    assert_eq!(l.exit(2, id, 20), Err(Error::Overflow));
    assert_eq!(members(&l, id), 2);
}

#[test]
fn manager_exit_hands_over() {
    let mut l = setup();
    let id = room_with_cost(&mut l, 0);
    join(&mut l, id, 3);
    join(&mut l, id, 2);
    l.exit(1, id, 20).unwrap();
    let g = l.all_room.get(id).unwrap();
    assert_eq!(g.group_manager, 3);
    assert_eq!(g.now_members_number, 2);
}

#[test]
fn last_exit_dissolves_room() {
    let mut l = setup();
    let id = room_with_cost(&mut l, 0);
    let before = l.balance(1);
    l.send_redpacket_in_room(1, id, 1, 30, 0).unwrap();
    assert_eq!(l.balance(1), before - 30);
    l.exit(1, id, 5).unwrap();
    assert_eq!(l.balance(1), before);
    assert!(!l.all_room.contains_key(id));
    assert!(!l.listeners_of_room.contains_key(id));
    assert!(!l.red_packet_of_room.contains_key(id));
}

#[test]
fn kick_and_cool_down() {
    let mut l = setup();
    let id = room_with_cost(&mut l, 0);
    join(&mut l, id, 2);
    join(&mut l, id, 3);
    assert_eq!(l.remove_someone(2, id, 3, 5), Err(Error::NotManager));
    assert_eq!(l.remove_someone(1, id, 1, 5), Err(Error::IsYourSelf));
    assert_eq!(l.remove_someone(1, id, 6, 5), Err(Error::NotInRoom));
    l.remove_someone(1, id, 2, 5).unwrap();
    assert!(!is_member(&l, id, 2));
    assert!(l.all_listeners.get(2).unwrap().rooms.is_empty());
    assert_eq!(l.all_room.get(id).unwrap().now_members_number, 2);
    assert_eq!(l.remove_someone(1, id, 3, 10), Err(Error::NotRemoveTime));
    l.remove_someone(1, id, 3, 6 + 7 * DAYS).unwrap();
    assert_eq!(l.remove_someone(1, 42, 3, 5), Err(Error::RoomNotExists));
}

#[test]
fn join_errors() {
    let mut l = setup();
    let id = room_with_cost(&mut l, 100);
    assert_eq!(l.into_room(5, id, 2, None, None), Err(Error::NotMultisigId));
    assert_eq!(l.into_room(MULTISIG, id, 2, Some(2), Some(InvitePaymentType::Inviter)), Err(Error::IsYourSelf));
    assert_eq!(l.into_room(MULTISIG, id, 2, Some(3), None), Err(Error::MustHavePaymentType));
    assert_eq!(l.into_room(MULTISIG, 9, 2, None, None), Err(Error::RoomNotExists));
    assert_eq!(l.into_room(MULTISIG, id, 1, None, None), Err(Error::InRoom));
    assert_eq!(l.into_room(MULTISIG, id, 50, None, None), Err(Error::FreeAmountNotEnough));
    let mut fresh = Listen::new(config());
    fresh.deposit(1, FUNDS).unwrap();
    let r = fresh.create_room(1, GroupMaxMembers::Ten, vec![], 0, 0).unwrap();
    assert_eq!(fresh.into_room(MULTISIG, r, 2, None, None), Err(Error::MultisigIdIsNone));
}

#[test]
fn inviter_pays() {
    let mut l = setup();
    let id = room_with_cost(&mut l, 100);
    l.into_room(MULTISIG, id, 2, Some(3), Some(InvitePaymentType::Inviter)).unwrap();
    assert_eq!(l.balance(3), FUNDS - 100);
    assert_eq!(l.balance(2), FUNDS);
    l.into_room(MULTISIG, id, 4, Some(3), Some(InvitePaymentType::Invitee)).unwrap();
    assert_eq!(l.balance(4), FUNDS - 100);
}

#[test]
fn room_full() {
    let mut l = setup();
    let id = room_with_cost(&mut l, 0);
    for a in 2..11u64 {
        l.deposit(a + 100, 1).unwrap();
        join(&mut l, id, a + 100);
    }
    assert_eq!(l.all_room.get(id).unwrap().now_members_number, 10);
    assert_eq!(l.into_room(MULTISIG, id, 2, None, None), Err(Error::MembersNumberToMax));
}

#[test]
fn create_room_errors() {
    let mut l = setup();
    assert_eq!(l.create_room(50, GroupMaxMembers::NoLimit, vec![], 0, 0), Err(Error::FreeAmountNotEnough));
    l.set_create_cost(GroupMaxMembers::NoLimit, 7);
    assert_eq!(l.create_payment.no_limit, 7);
    l.deposit(50, 7).unwrap();
    assert_eq!(l.create_room(50, GroupMaxMembers::NoLimit, vec![], 0, 0), Ok(1));
    assert_eq!(l.balance(50), 0);
}

#[test]
fn update_join_cost_rules() {
    let mut l = setup();
    let id = room_with_cost(&mut l, 100);
    assert_eq!(l.update_join_cost(2, id, 5), Err(Error::NotManager));
    assert_eq!(l.update_join_cost(1, id, 100), Err(Error::InVailAmount));
    assert_eq!(l.update_join_cost(1, 9, 5), Err(Error::RoomNotExists));
    l.update_join_cost(1, id, 5).unwrap();
    assert_eq!(l.all_room.get(id).unwrap().join_cost, 5);
}

#[test]
fn buy_props_and_audio() {
    let mut l = setup();
    let id = room_with_cost(&mut l, 0);
    let before = l.balance(1);
    l.buy_props_in_room(1, id, AllProps { picture: 1, text: 2, video: 3 }).unwrap();
    let cost = 3 * CENTS + 2 * CENTS + 9 * CENTS;
    assert_eq!(l.balance(1), before - cost);
    assert_eq!(l.burned, cost);
    let g = l.all_room.get(id).unwrap();
    assert_eq!(g.props, AllProps { picture: 1, text: 2, video: 3 });
    assert_eq!(g.total_balances, 0);
    assert_eq!(l.all_listeners.get(1).unwrap().cost, cost);
    l.buy_audio_in_room(1, id, Audio { ten_seconds: 1, thirty_seconds: 1, minutes: 1 }).unwrap();
    assert_eq!(l.all_listeners.get(1).unwrap().cost, cost + 5 * CENTS);
    assert_eq!(l.all_room.get(id).unwrap().audio.minutes, 1);
    assert_eq!(l.buy_props_in_room(2, id, AllProps { picture: 1, text: 0, video: 0 }), Err(Error::NotInRoom));
    assert_eq!(
        l.buy_props_in_room(1, id, AllProps { picture: u32::MAX, text: 0, video: 0 }),
        Err(Error::FreeAmountNotEnough)
    );
    l.set_props_price(PropsCost { picture: 0, text: 0, video: 0 });
    l.buy_props_in_room(1, id, AllProps { picture: u32::MAX - 1, text: 0, video: 0 }).unwrap();
    assert_eq!(l.buy_props_in_room(1, id, AllProps { picture: 1, text: 0, video: 0 }), Err(Error::Overflow));
    l.set_props_price(PropsCost { picture: u128::MAX, text: 0, video: 0 });
    assert_eq!(l.buy_props_in_room(1, id, AllProps { picture: 2, text: 0, video: 0 }), Err(Error::Overflow));
    assert_eq!(
        l.buy_props_in_room(1, id, AllProps { picture: 1, text: 0, video: 0 }),
        Err(Error::FreeAmountNotEnough)
    );
}

#[test]
fn red_packet_errors() {
    let mut l = setup();
    let id = room_with_cost(&mut l, 0);
    join(&mut l, id, 2);
    assert_eq!(l.send_redpacket_in_room(1, id, 3, 29, 0), Err(Error::AmountTooLow));
    assert_eq!(l.send_redpacket_in_room(5, id, 1, 29, 0), Err(Error::NotInRoom));
    let pid = l.send_redpacket_in_room(1, id, 3, 30, 0).unwrap();
    assert_eq!(l.get_redpacket_in_room(2, 2, id, pid, 10, 0), Err(Error::NotServerId));
    assert_eq!(l.get_redpacket_in_room(SERVER, 2, id, pid + 1, 10, 0), Err(Error::RedPacketNotExists));
    assert_eq!(l.get_redpacket_in_room(SERVER, 2, id, pid, 9, 0), Err(Error::AmountTooLow));
    assert_eq!(l.get_redpacket_in_room(SERVER, 2, id, pid, 31, 0), Err(Error::AmountNotEnough));
    assert_eq!(l.get_redpacket_in_room(SERVER, 5, id, pid, 10, 0), Err(Error::NotInRoom));
    let before = l.balance(1);
    assert_eq!(l.get_redpacket_in_room(SERVER, 2, id, pid, 10, 51), Err(Error::Expire));
    assert_eq!(l.balance(1), before + 30);
    assert_eq!(l.balance(2), FUNDS);
    assert_eq!(l.red_packet_of_room.get(id).unwrap().len(), 0);
}

#[test]
fn red_packet_claim_limit() {
    let mut l = setup();
    let id = room_with_cost(&mut l, 0);
    join(&mut l, id, 2);
    join(&mut l, id, 3);
    let pid = l.send_redpacket_in_room(1, id, 2, 100, 0).unwrap();
    l.get_redpacket_in_room(SERVER, 2, id, pid, 10, 0).unwrap();
    l.get_redpacket_in_room(SERVER, 3, id, pid, 10, 0).unwrap();
    assert_eq!(l.balance(1), FUNDS - l.create_payment.ten - 20);
    assert_eq!(l.get_redpacket_in_room(SERVER, 1, id, pid, 10, 0), Err(Error::RedPacketNotExists));
}

#[test]
fn sending_sweeps_expired_packets() {
    let mut l = setup();
    let id = room_with_cost(&mut l, 0);
    let before = l.balance(1);
    l.send_redpacket_in_room(1, id, 1, 10, 0).unwrap();
    l.send_redpacket_in_room(1, id, 1, 20, 51).unwrap();
    assert_eq!(l.red_packet_of_room.get(id).unwrap().len(), 1);
    assert_eq!(l.balance(1), before - 20);
    assert_eq!(l.red_packet_id, 3);
}

#[test]
fn disband_pass_settles_packets() {
    let mut l = setup();
    let id = room_with_cost(&mut l, 100);
    join(&mut l, id, 2);
    l.send_redpacket_in_room(2, id, 1, 40, 0).unwrap();
    let before = l.balance(2);
    l.ask_for_disband_room(1, id, 10).unwrap();
    l.vote(2, id, VoteType::Approve, 11, 3).unwrap();
    assert_eq!(l.balance(2), before + 40);
    assert!(!l.red_packet_of_room.contains_key(id));
}

#[test]
fn air_drop_once() {
    let mut l = setup();
    l.deposit(TREASURY, 100).unwrap();
    assert_eq!(l.air_drop(1, 9), Err(Error::NotMultisigId));
    l.air_drop(MULTISIG, 9).unwrap();
    assert_eq!(l.balance(9), 50);
    assert_eq!(l.balance(TREASURY), 50);
    assert_eq!(l.air_drop(MULTISIG, 9), Err(Error::AlreadyAirDrop));
    l.air_drop(MULTISIG, 10).unwrap();
    assert_eq!(l.air_drop(MULTISIG, 11), Err(Error::FreeAmountNotEnough));
}

#[test]
fn multisig_setup() {
    let mut l = Listen::new(config());
    assert_eq!(l.set_server_id(1, 2), Err(Error::MultisigIdIsNone));
    assert_eq!(l.set_multisig(vec![], 1, 5), Err(Error::VecEmpty));
    assert_eq!(l.set_multisig(vec![3, 1], 3, 5), Err(Error::ThreshouldErr));
    assert_eq!(l.set_multisig(vec![3, 1], 0, 5), Err(Error::ThreshouldErr));
    assert_eq!(l.set_multisig(vec![3, 1, 3], 1, 5), Err(Error::MemberDuplicate));
    l.set_multisig(vec![3, 1, 2], 2, 5).unwrap();
    assert_eq!(l.multisig, Some((vec![1, 2, 3], 2, 5)));
    assert_eq!(l.set_server_id(1, 2), Err(Error::NotMultisigId));
    l.set_server_id(5, 2).unwrap();
    assert_eq!(l.server_id, Some(2));
}

#[test]
fn sorting_accounts() {
    assert_eq!(sort_account_id(vec![5, 1, 4, 2]), Ok(vec![1, 2, 4, 5]));
    assert_eq!(sort_account_id(vec![7]), Ok(vec![7]));
    assert_eq!(sort_account_id(vec![]), Err(Error::VecEmpty));
    assert_eq!(sort_account_id(vec![2, 9, 2]), Err(Error::MemberDuplicate));
}

#[test]
fn fee_arithmetic() {
    assert_eq!(pay_for_split(100), (5, 5, 50, 40));
    assert_eq!(pay_for_split(10), (0, 0, 5, 5));
    assert_eq!(pay_for_split(0), (0, 0, 0, 0));
    let (a, b, c, d) = pay_for_split(u128::MAX);
    assert_eq!(a + b + c + d, u128::MAX);
    assert_eq!(percent(u128::MAX, 100), u128::MAX);
    assert_eq!(percent(199, 10), 19);
    let price = PropsCost { picture: 3, text: 1, video: 3 };
    assert_eq!(props_cost(&price, &AllProps { picture: 2, text: 1, video: 0 }), Some(7));
    let audio = AudioCost { ten_seconds: 1, thirty_seconds: 2, minutes: 2 };
    assert_eq!(audio_cost(&audio, &Audio { ten_seconds: 1, thirty_seconds: 1, minutes: 2 }), Some(7));
    assert_eq!(
        props_cost(&PropsCost { picture: u128::MAX, text: 1, video: 0 }, &AllProps { picture: 1, text: 1, video: 0 }),
        None
    );
}

#[test]
fn tier_capacities_and_defaults() {
    assert_eq!(GroupMaxMembers::Ten.into_u32(), Ok(10));
    assert_eq!(GroupMaxMembers::Hundred.into_u32(), Ok(100));
    assert_eq!(GroupMaxMembers::FiveHundred.into_u32(), Ok(500));
    assert_eq!(GroupMaxMembers::TenThousand.into_u32(), Ok(100_000));
    assert_eq!(GroupMaxMembers::NoLimit.into_u32(), Ok(u32::MAX));
    assert_eq!(GroupMaxMembers::default(), GroupMaxMembers::Ten);
    assert_eq!(RewardStatus::default(), RewardStatus::NotGet);
    assert_eq!(VoteType::default(), VoteType::Reject);
    assert_eq!(InvitePaymentType::default(), InvitePaymentType::Invitee);
    let l = Listen::new(config());
    assert_eq!(l.create_payment.hundred, 10 * DOLLARS);
    assert_eq!(l.remove_interval.ten, 7 * DAYS);
    assert_eq!(l.disband_interval.no_limit, 60 * DAYS);
}

#[test]
fn deposit_bounded_by_issuance() {
    let mut l = Listen::new(config());
    l.deposit(1, u128::MAX - 1).unwrap();
    assert_eq!(l.deposit(2, 2), Err(Error::Overflow));
    l.deposit(2, 1).unwrap();
    assert_eq!(l.total_issuance, u128::MAX);
}

#[test]
fn account_set_basics() {
    let mut s = AccountSet::new();
    assert!(s.insert(3));
    assert!(!s.insert(3));
    assert!(s.insert(9));
    assert_eq!(s.len(), 2);
    assert_eq!(s.max(), Some(9));
    assert!(s.remove(9));
    assert!(!s.remove(9));
    assert_eq!(s.max(), Some(3));
}

#[test]
fn retention_sweep_in_batches() {
    let mut l = setup();
    l.set_create_cost(GroupMaxMembers::Ten, 0);
    for _ in 0..201 {
        let id = l.create_room(1, GroupMaxMembers::Ten, vec![], 0, 0).unwrap();
        join(&mut l, id, 2);
        l.ask_for_disband_room(1, id, 10).unwrap();
        l.vote(2, id, VoteType::Approve, 11, 0).unwrap();
    }
    assert_eq!(l.info_of_disband_room.get(0).unwrap().len(), 201);
    l.remove_expire_disband_info(84);
    assert_eq!(l.info_of_disband_room.get(0).unwrap().len(), 1);
    assert_eq!(l.all_session_index, vec![0]);
    l.remove_expire_disband_info(84);
    assert!(!l.info_of_disband_room.contains_key(0));
    assert!(l.all_session_index.is_empty());
}
