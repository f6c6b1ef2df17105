//! Entity records of the ledger core and their well-formedness.
//!
//! Participant credentials and wallet identities are plain `u64` values;
//! a derived address is recorded structurally, by the defining inputs the
//! host derives it from, so two records collide exactly when their
//! defining inputs coincide.

use vstd::prelude::*;
use crate::rules::splits_total;

verus! {

/// Longest permitted agent handle, in characters.
pub const MAX_HANDLE_LEN: usize = 32;

/// Longest permitted agent bio, in characters.
pub const MAX_BIO_LEN: usize = 200;

/// Most skills an agent may list.
pub const MAX_SKILLS: usize = 10;

/// Longest permitted skill name, in characters.
pub const MAX_SKILL_LEN: usize = 20;

/// Longest permitted guild name, in characters.
pub const MAX_NAME_LEN: usize = 32;

/// Longest permitted guild description, in characters.
pub const MAX_DESC_LEN: usize = 200;

/// Longest permitted guild contact, in characters.
pub const MAX_CONTACT_LEN: usize = 100;

/// Longest permitted submission link, in characters.
pub const MAX_SUBMISSION_LEN: usize = 200;

/// Most members a guild may have, and so the longest permitted
/// prize-split list.
pub const MAX_MEMBERS: usize = 10;

/// Longest permitted project name, in characters.
pub const MAX_PROJECT_NAME_LEN: usize = 64;

/// Longest permitted endorsement comment, in characters.
pub const MAX_COMMENT_LEN: usize = 200;

/// Longest permitted gig name, in characters.
pub const MAX_GIG_NAME_LEN: usize = 100;

/// Longest permitted gig submission URL, in characters.
pub const MAX_URL_LEN: usize = 200;

/// Reputation bonus a guild earns when one of its projects completes.
pub const COMPLETION_REPUTATION_AWARD: u64 = 100;

/// Whether an agent is open to work.
#[derive(Clone, Copy, Debug, PartialEq, Eq, Structural)]
pub enum Availability {
    Available,
    Busy,
    NotLooking,
}

impl Default for Availability {
    /// A fresh agent starts available.
    fn default() -> (r: Self)
        ensures
            r == Availability::Available,
    {
        Availability::Available
    }
}

/// Who may join a guild.
#[derive(Clone, Copy, Debug, PartialEq, Eq, Structural)]
pub enum GuildVisibility {
    Open,
    InviteOnly,
    TokenGated,
}

/// An agent's standing inside one guild.
#[derive(Clone, Copy, Debug, PartialEq, Eq, Structural)]
pub enum MemberRole {
    Admin,
    Member,
}

impl Default for MemberRole {
    /// A joining agent starts as a plain member.
    fn default() -> (r: Self)
        ensures
            r == MemberRole::Member,
    {
        MemberRole::Member
    }
}

/// Where a project stands in its lifecycle.
#[derive(Clone, Copy, Debug, PartialEq, Eq, Structural)]
pub enum ProjectStatus {
    Active,
    Completed,
    Abandoned,
}

impl Default for ProjectStatus {
    /// A fresh project starts active.
    fn default() -> (r: Self)
        ensures
            r == ProjectStatus::Active,
    {
        ProjectStatus::Active
    }
}

/// Where a gig announcement stands in its lifecycle.
#[derive(Clone, Copy, Debug, PartialEq, Eq, Structural)]
pub enum GigStatus {
    Active,
    Completed,
    Cancelled,
}

/// One participant's profile.
pub struct AgentProfile {
    /// Credential of the wallet that owns the profile; the profile's
    /// derived address is a function of it alone.
    pub owner: u64,
    pub handle: String,
    pub bio: String,
    pub skills: Vec<String>,
    /// Number of guilds the agent currently belongs to.
    pub guild_count: u32,
    pub project_count: u32,
    /// Personal reputation, grown by received endorsements and by
    /// reputation carried home from memberships.
    pub reputation_score: u64,
    pub availability: Availability,
}

/// The defining inputs of a guild's derived address.
pub struct GuildKey {
    /// Credential of the guild's creator.
    pub authority: u64,
    /// The guild's name.
    pub name: String,
}

/// One share of a guild's prize distribution.
#[derive(Clone, Copy, Debug, PartialEq, Eq, Structural)]
pub struct PrizeSplit {
    /// Wallet credential of the recipient agent.
    pub agent: u64,
    /// Share of the treasury, from 0 to 100.
    pub percentage: u8,
}

/// A team of agents, with a treasury and an adjustable prize-split list.
pub struct Guild {
    /// Credential of the creator, who alone may mutate the guild.
    pub authority: u64,
    pub name: String,
    pub description: String,
    /// Number of live memberships referencing this guild.
    pub member_count: u32,
    pub project_count: u32,
    /// Aggregate guild reputation.
    pub reputation_score: u64,
    pub visibility: GuildVisibility,
    /// Reserved for token-gated guilds; no operation sets it yet.
    pub token_mint: Option<u64>,
    /// Gig this guild competes in, by gig name; no operation sets it yet.
    pub gig: Option<String>,
    /// Native balance held at the guild's derived treasury address.
    pub treasury_balance: u64,
    /// Prize distribution; empty, or totalling exactly 100.
    pub prize_splits: Vec<PrizeSplit>,
    pub contact: String,
    /// Project URL; no operation sets it yet.
    pub submission_link: Option<String>,
}

/// The edge recording one agent's participation in one guild.
pub struct Membership {
    /// Derived address of the guild, by its defining inputs.
    pub guild: GuildKey,
    /// Wallet credential of the member agent.
    pub agent: u64,
    pub role: MemberRole,
    pub joined_at: i64,
    /// Reputation accrued inside this guild, carried to the agent's
    /// profile when the agent leaves.
    pub reputation_earned: u64,
}

/// An escrow-funded task owned by a guild.
pub struct Project {
    /// Derived address of the owning guild, by its defining inputs.
    pub guild: GuildKey,
    pub name: String,
    /// Native balance held at the project's derived escrow address,
    /// funded at creation and released only by later payout operations.
    pub escrow_balance: u64,
    /// Reward moved into escrow at creation; immutable afterwards.
    pub reward_amount: u64,
    pub status: ProjectStatus,
    pub created_at: i64,
    pub completed_at: Option<i64>,
}

/// One immutable peer vote.
pub struct Endorsement {
    /// Wallet credential of the endorsing agent.
    pub from_agent: u64,
    /// Wallet credential of the endorsed agent.
    pub to_agent: u64,
    pub skill: String,
    pub comment: String,
    /// Weight computed from the endorser's reputation tier, from 1 to 10.
    pub reputation_weight: u64,
    pub created_at: i64,
}

/// A public prize announcement; an inert record with no state machine
/// beyond field storage.
pub struct Gig {
    pub name: String,
    /// Credential of the announcing organizer.
    pub organizer: u64,
    pub prize_pool: u64,
    pub deadline: i64,
    pub submission_url: String,
    pub status: GigStatus,
    pub created_at: i64,
}

/// One wallet's native balance, as the ledger core observes it.
#[derive(Clone, Copy, Debug, PartialEq, Eq, Structural)]
pub struct Wallet {
    /// The wallet's credential.
    pub owner: u64,
    pub amount: u64,
}

/// Field bounds of a profile record.
pub open spec fn profile_wf(p: AgentProfile) -> bool {
    &&& p.handle@.len() <= MAX_HANDLE_LEN
    &&& p.bio@.len() <= MAX_BIO_LEN
    &&& p.skills@.len() <= MAX_SKILLS
    &&& forall|i: int|
        0 <= i < p.skills@.len() ==> (#[trigger] p.skills@[i])@.len() <= MAX_SKILL_LEN
}

/// Field bounds of a guild record, with the stored split list either empty
/// or totalling exactly 100 over at most `MAX_MEMBERS` entries.
pub open spec fn guild_wf(g: Guild) -> bool {
    &&& g.name@.len() <= MAX_NAME_LEN
    &&& g.description@.len() <= MAX_DESC_LEN
    &&& g.contact@.len() <= MAX_CONTACT_LEN
    &&& match g.submission_link {
        Some(l) => l@.len() <= MAX_SUBMISSION_LEN,
        None => true,
    }
    &&& g.prize_splits@.len() <= MAX_MEMBERS
    &&& (g.prize_splits@.len() == 0 || splits_total(g.prize_splits@) == 100)
}

/// Field bounds of a project record.
pub open spec fn project_wf(p: Project) -> bool {
    &&& p.name@.len() <= MAX_PROJECT_NAME_LEN
    &&& p.guild.name@.len() <= MAX_NAME_LEN
}

/// Field bounds of an endorsement record.
pub open spec fn endorsement_wf(e: Endorsement) -> bool {
    &&& e.skill@.len() <= MAX_SKILL_LEN
    &&& e.comment@.len() <= MAX_COMMENT_LEN
    &&& 1 <= e.reputation_weight <= 10
    &&& e.from_agent != e.to_agent
}

/// Field bounds of a gig record.
pub open spec fn gig_wf(g: Gig) -> bool {
    &&& g.name@.len() <= MAX_GIG_NAME_LEN
    &&& g.submission_url@.len() <= MAX_URL_LEN
}

/// Field bounds of a membership record.
pub open spec fn membership_wf(m: Membership) -> bool {
    m.guild.name@.len() <= MAX_NAME_LEN
}

/// Error of validating a guild's stored split list.
#[derive(Clone, Copy, Debug, PartialEq, Eq, Structural)]
pub enum ErrorCode {
    /// The split percentages do not sum to exactly 100.
    InvalidPrizeSplits,
}

impl Guild {
    /// Checks that the guild's stored prize splits total exactly 100.
    pub fn validate_prize_splits(&self) -> (r: Result<(), ErrorCode>)
        ensures
            r is Ok <==> splits_total(self.prize_splits@) == 100,
    {
        match crate::rules::total_percentage(&self.prize_splits) {
            Some(t) if t == 100 => Ok(()),
            _ => Err(ErrorCode::InvalidPrizeSplits),
        }
    }
}

} // verus!
