use moltguild::errors::MoltGuildError;
use moltguild::ledger::Ledger;
use moltguild::state::{GuildVisibility, MemberRole};

fn s(x: &str) -> String {
    String::from(x)
}

fn with_guild_and_agent() -> Ledger {
    let mut l = Ledger::new();
    l.initialize_agent_profile(1, s("alice"), s("bio"), vec![]).unwrap();
    l.create_guild(10, s("smiths"), s("a guild"), GuildVisibility::Open, None).unwrap();
    l
}

#[test]
fn create_guild_zeroed_with_empty_splits() {
    let mut l = Ledger::new();
    assert_eq!(
        l.create_guild(10, s("smiths"), s("desc"), GuildVisibility::Open, Some(s("discord"))),
        Ok(())
    );
    let g = &l.guilds[0];
    assert_eq!(g.authority, 10);
    assert_eq!(g.name, "smiths");
    assert_eq!(g.member_count, 0);
    assert_eq!(g.project_count, 0);
    assert_eq!(g.reputation_score, 0);
    assert_eq!(g.treasury_balance, 0);
    assert!(g.prize_splits.is_empty());
    assert!(g.token_mint.is_none());
    assert!(g.gig.is_none());
    assert!(g.submission_link.is_none());
    assert_eq!(g.contact, "discord");
}

#[test]
fn create_guild_validation_errors() {
    let mut l = Ledger::new();
    assert_eq!(
        l.create_guild(10, "x".repeat(33), s("d"), GuildVisibility::Open, None),
        Err(MoltGuildError::GuildNameTooLong)
    );
    assert_eq!(
        l.create_guild(10, s("g"), "x".repeat(201), GuildVisibility::Open, None),
        Err(MoltGuildError::GuildDescriptionTooLong)
    );
    assert_eq!(
        l.create_guild(10, s("g"), s("d"), GuildVisibility::Open, Some("x".repeat(101))),
        Err(MoltGuildError::ContactTooLong)
    );
    assert_eq!(l.create_guild(10, s("g"), s("d"), GuildVisibility::Open, None), Ok(()));
    assert_eq!(
        l.create_guild(10, s("g"), s("other"), GuildVisibility::Open, None),
        Err(MoltGuildError::AlreadyExists)
    );
    // A different authority may reuse the name: the derived address differs.
    assert_eq!(l.create_guild(11, s("g"), s("d"), GuildVisibility::Open, None), Ok(()));
}

#[test]
fn join_creates_membership_and_raises_both_counters() {
    let mut l = with_guild_and_agent();
    assert_eq!(l.join_guild(1, 10, &s("smiths"), 777), Ok(()));
    assert_eq!(l.guilds[0].member_count, 1);
    assert_eq!(l.profiles[0].guild_count, 1);
    assert_eq!(l.memberships.len(), 1);
    let m = &l.memberships[0];
    assert_eq!(m.guild.authority, 10);
    assert_eq!(m.guild.name, "smiths");
    assert_eq!(m.agent, 1);
    assert_eq!(m.role, MemberRole::Member);
    assert_eq!(m.joined_at, 777);
    assert_eq!(m.reputation_earned, 0);
}

#[test]
fn join_invite_only_guild_fails() {
    let mut l = Ledger::new();
    l.initialize_agent_profile(1, s("a"), s("b"), vec![]).unwrap();
    l.create_guild(10, s("closed"), s("d"), GuildVisibility::InviteOnly, None).unwrap();
    assert_eq!(l.join_guild(1, 10, &s("closed"), 0), Err(MoltGuildError::GuildIsInviteOnly));
    l.create_guild(10, s("gated"), s("d"), GuildVisibility::TokenGated, None).unwrap();
    assert_eq!(l.join_guild(1, 10, &s("gated"), 0), Err(MoltGuildError::GuildIsInviteOnly));
}

#[test]
fn join_twice_collides() {
    let mut l = with_guild_and_agent();
    assert_eq!(l.join_guild(1, 10, &s("smiths"), 0), Ok(()));
    assert_eq!(l.join_guild(1, 10, &s("smiths"), 1), Err(MoltGuildError::AlreadyExists));
    assert_eq!(l.guilds[0].member_count, 1);
}

#[test]
fn join_unknown_guild_or_agent_fails() {
    let mut l = with_guild_and_agent();
    assert_eq!(l.join_guild(1, 10, &s("nowhere"), 0), Err(MoltGuildError::NotFound));
    assert_eq!(l.join_guild(99, 10, &s("smiths"), 0), Err(MoltGuildError::NotFound));
}

#[test]
fn leave_after_join_restores_both_counters() {
    // Pre-join values are remembered, and restored by the leave.
    let mut l = with_guild_and_agent();
    let members_before = l.guilds[0].member_count;
    let guilds_before = l.profiles[0].guild_count;
    assert_eq!(l.join_guild(1, 10, &s("smiths"), 0), Ok(()));
    assert_eq!(l.leave_guild(1, 10, &s("smiths")), Ok(()));
    assert_eq!(l.guilds[0].member_count, members_before);
    assert_eq!(l.profiles[0].guild_count, guilds_before);
    assert_eq!(l.memberships.len(), 0);
}

#[test]
fn leave_carries_accrued_reputation_home() {
    let mut l = with_guild_and_agent();
    assert_eq!(l.join_guild(1, 10, &s("smiths"), 0), Ok(()));
    // The host store records reputation accrued inside the guild on the
    // membership edge; leaving transfers it to the profile.
    l.memberships[0].reputation_earned = 42;
    let before = l.profiles[0].reputation_score;
    assert_eq!(l.leave_guild(1, 10, &s("smiths")), Ok(()));
    assert_eq!(l.profiles[0].reputation_score, before + 42);
}

#[test]
fn leave_without_membership_fails() {
    let mut l = with_guild_and_agent();
    assert_eq!(l.leave_guild(1, 10, &s("smiths")), Err(MoltGuildError::NotFound));
}

#[test]
fn member_count_always_equals_live_memberships() {
    let mut l = Ledger::new();
    l.create_guild(10, s("g"), s("d"), GuildVisibility::Open, None).unwrap();
    for owner in 1..=5u64 {
        l.initialize_agent_profile(owner, format!("agent{}", owner), s("b"), vec![]).unwrap();
        l.join_guild(owner, 10, &s("g"), 0).unwrap();
        let live = l.memberships.iter().filter(|m| m.guild.authority == 10).count();
        assert_eq!(l.guilds[0].member_count as usize, live);
    }
    for owner in [2u64, 4] {
        l.leave_guild(owner, 10, &s("g")).unwrap();
        let live = l.memberships.iter().filter(|m| m.guild.authority == 10).count();
        assert_eq!(l.guilds[0].member_count as usize, live);
    }
    assert_eq!(l.guilds[0].member_count, 3);
}

#[test]
fn close_guild_fails_with_members_then_succeeds_empty() {
    let mut l = with_guild_and_agent();
    assert_eq!(l.join_guild(1, 10, &s("smiths"), 0), Ok(()));
    assert_eq!(l.close_guild(10, 10, &s("smiths")), Err(MoltGuildError::GuildHasMembers));
    assert!(l.find_guild(10, &s("smiths")).is_some());
    assert_eq!(l.leave_guild(1, 10, &s("smiths")), Ok(()));
    assert_eq!(l.close_guild(10, 10, &s("smiths")), Ok(()));
    assert!(l.find_guild(10, &s("smiths")).is_none());
}

#[test]
fn join_at_member_count_cap_aborts() {
    let mut l = with_guild_and_agent();
    l.guilds[0].member_count = u32::MAX;
    assert_eq!(l.join_guild(1, 10, &s("smiths"), 0), Err(MoltGuildError::ArithmeticOverflow));
    assert_eq!(l.memberships.len(), 0);
}

#[test]
fn leave_with_reputation_overflow_aborts_wholly() {
    let mut l = with_guild_and_agent();
    l.join_guild(1, 10, &s("smiths"), 0).unwrap();
    l.memberships[0].reputation_earned = 5;
    l.profiles[0].reputation_score = u64::MAX;
    assert_eq!(l.leave_guild(1, 10, &s("smiths")), Err(MoltGuildError::ArithmeticOverflow));
    // The membership and both counters are untouched.
    assert_eq!(l.memberships.len(), 1);
    assert_eq!(l.guilds[0].member_count, 1);
    assert_eq!(l.profiles[0].guild_count, 1);
}

#[test]
fn close_guild_requires_authority() {
    let mut l = with_guild_and_agent();
    assert_eq!(l.close_guild(99, 10, &s("smiths")), Err(MoltGuildError::NotGuildAuthority));
    assert_eq!(l.close_guild(10, 10, &s("nowhere")), Err(MoltGuildError::NotFound));
}
