//! Why an operation was refused.
use vstd::prelude::*;

verus! {

#[derive(Clone, Copy, Debug, PartialEq, Eq, Structural)]
pub enum Error {
    /// An empty list of accounts.
    VecEmpty,
    /// A threshold of zero or above the number of accounts.
    ThreshouldErr,
    /// The account has had its air drop already.
    AlreadyAirDrop,
    /// No such room.
    RoomNotExists,
    /// The room has no members.
    RoomEmpty,
    /// An account invites itself.
    IsYourSelf,
    /// A balance too low for a withdrawal or transfer.
    FreeAmountNotEnough,
    /// A counter or amount would overflow.
    Overflow,
    /// Already a member.
    InRoom,
    /// Not the room's manager.
    NotManager,
    /// Not a member of the room.
    NotInRoom,
    /// The removal cool-down has not elapsed.
    NotRemoveTime,
    /// A disband vote is open already.
    IsVoting,
    /// No disband vote is open.
    NotVoting,
    /// The same vote again.
    RepeatVote,
    /// The disband cool-down has not elapsed.
    NotUntilDisbandTime,
    /// The account has joined no room.
    NotIntoAnyRoom,
    /// An amount below the minimum.
    AmountTooLow,
    /// No such red packet.
    RedPacketNotExists,
    /// The red packet holds less than asked for.
    AmountNotEnough,
    /// The red packet has as many claimants as it allows.
    ToMaxNumber,
    /// The account has claimed this red packet already.
    CountErr,
    /// The red packet has expired.
    Expire,
    /// The caller is not the multisig account.
    NotMultisigId,
    /// No multisig account is set.
    MultisigIdIsNone,
    /// An invitation without a payment type.
    MustHavePaymentType,
    /// The new join cost equals the current one.
    InVailAmount,
    /// The room is full.
    MembersNumberToMax,
    /// An account listed twice.
    MemberDuplicate,
    /// No relay account is set.
    ServerIdNotExists,
    /// The caller is not the relay account.
    NotServerId,
}

} // verus!
