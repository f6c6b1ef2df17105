//! Error codes returned by the ledger operations.
//!
//! Every operation aborts with a specific named code and no partial
//! mutation; there is no generic failure.

use vstd::prelude::*;

verus! {

/// Errors of the profile, guild, membership, project and endorsement
/// operations.
#[derive(Clone, Copy, Debug, PartialEq, Eq, Structural)]
pub enum MoltGuildError {
    /// A handle exceeds 32 characters.
    HandleTooLong,
    /// A bio exceeds 200 characters.
    BioTooLong,
    /// More than 10 skills were given.
    TooManySkills,
    /// A skill name exceeds 20 characters.
    SkillTooLong,
    /// A guild name exceeds 32 characters.
    GuildNameTooLong,
    /// A guild description exceeds 200 characters.
    GuildDescriptionTooLong,
    /// A guild contact exceeds 100 characters.
    ContactTooLong,
    /// The guild does not admit open joining.
    GuildIsInviteOnly,
    /// A guild with live members cannot be closed.
    GuildHasMembers,
    /// The caller is not the guild's stored authority.
    NotGuildAuthority,
    /// A project name exceeds 64 characters.
    ProjectNameTooLong,
    /// The project is no longer active.
    ProjectAlreadyCompleted,
    /// An endorsement skill exceeds 20 characters.
    EndorsementSkillTooLong,
    /// An endorsement comment exceeds 200 characters.
    EndorsementCommentTooLong,
    /// An agent cannot endorse itself.
    CannotEndorseSelf,
    /// The derived address of the record being created is already occupied.
    AlreadyExists,
    /// No record lives at the derived address the operation names.
    NotFound,
    /// The paying account does not hold the amount to be moved.
    InsufficientFunds,
    /// A counter or score update would wrap.
    ArithmeticOverflow,
}

/// Errors of prize distribution.
#[derive(Clone, Copy, Debug, PartialEq, Eq, Structural)]
pub enum DistributePrizeError {
    /// The treasury balance is zero.
    NoPrizeToDistribute,
    /// The guild's split list is empty.
    NoPrizeSplitsDefined,
    /// The split percentages do not sum to exactly 100.
    InvalidPrizeSplits,
    /// The recipient list length differs from the split list length.
    InvalidRecipientAccounts,
    /// A recipient does not match the split at the same position.
    InvalidRecipientAccount,
    /// No guild lives at the address the operation names.
    GuildNotFound,
    /// Crediting a recipient would wrap its balance.
    BalanceOverflow,
}

/// Errors of updating a guild's prize-split list.
#[derive(Clone, Copy, Debug, PartialEq, Eq, Structural)]
pub enum ErrorCode {
    /// The split percentages do not sum to exactly 100.
    InvalidPrizeSplits,
    /// The split list exceeds the maximum member count.
    TooManySplits,
    /// No guild lives at the address the operation names.
    GuildNotFound,
    /// The caller is not the guild's stored authority.
    NotGuildAuthority,
}

/// Errors of creating a gig announcement.
#[derive(Clone, Copy, Debug, PartialEq, Eq, Structural)]
pub enum CreateGigError {
    /// The gig name exceeds 100 characters.
    NameTooLong,
    /// The submission URL exceeds 200 characters.
    UrlTooLong,
    /// A gig with the same name already exists.
    AlreadyExists,
}

} // verus!
