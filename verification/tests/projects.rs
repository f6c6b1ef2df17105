use moltguild::errors::{CreateGigError, MoltGuildError};
use moltguild::ledger::Ledger;
use moltguild::state::{GigStatus, GuildVisibility, ProjectStatus};

fn s(x: &str) -> String {
    String::from(x)
}

fn funded_guild() -> Ledger {
    let mut l = Ledger::new();
    l.create_guild(10, s("g"), s("d"), GuildVisibility::Open, None).unwrap();
    l.deposit(10, 5000).unwrap();
    l
}

#[test]
fn create_project_moves_reward_into_escrow() {
    let mut l = funded_guild();
    assert_eq!(l.create_project(10, 10, &s("g"), s("site"), 1200, 9), Ok(()));
    assert_eq!(l.wallet_balance(10), 3800);
    assert_eq!(l.projects.len(), 1);
    let p = &l.projects[0];
    assert_eq!(p.guild.authority, 10);
    assert_eq!(p.guild.name, "g");
    assert_eq!(p.name, "site");
    assert_eq!(p.escrow_balance, 1200);
    assert_eq!(p.reward_amount, 1200);
    assert_eq!(p.status, ProjectStatus::Active);
    assert_eq!(p.created_at, 9);
    assert!(p.completed_at.is_none());
    assert_eq!(l.guilds[0].project_count, 1);
}

#[test]
fn create_project_insufficient_balance_creates_nothing() {
    let mut l = funded_guild();
    assert_eq!(
        l.create_project(10, 10, &s("g"), s("site"), 6000, 0),
        Err(MoltGuildError::InsufficientFunds)
    );
    assert_eq!(l.projects.len(), 0);
    assert_eq!(l.wallet_balance(10), 5000);
    assert_eq!(l.guilds[0].project_count, 0);
}

#[test]
fn create_project_validation_and_authority() {
    let mut l = funded_guild();
    assert_eq!(
        l.create_project(99, 10, &s("g"), s("p"), 0, 0),
        Err(MoltGuildError::NotGuildAuthority)
    );
    assert_eq!(
        l.create_project(10, 10, &s("nowhere"), s("p"), 0, 0),
        Err(MoltGuildError::NotFound)
    );
    assert_eq!(
        l.create_project(10, 10, &s("g"), "x".repeat(65), 0, 0),
        Err(MoltGuildError::ProjectNameTooLong)
    );
    assert_eq!(l.create_project(10, 10, &s("g"), s("p"), 0, 0), Ok(()));
    assert_eq!(
        l.create_project(10, 10, &s("g"), s("p"), 0, 0),
        Err(MoltGuildError::AlreadyExists)
    );
}

#[test]
fn complete_project_flips_status_and_awards_guild_reputation() {
    let mut l = funded_guild();
    l.create_project(10, 10, &s("g"), s("p"), 700, 1).unwrap();
    assert_eq!(l.complete_project(10, 10, &s("g"), &s("p"), 44), Ok(()));
    let p = &l.projects[0];
    assert_eq!(p.status, ProjectStatus::Completed);
    assert_eq!(p.completed_at, Some(44));
    // Funds stay in escrow: completion is deliberately separate from payout.
    assert_eq!(p.escrow_balance, 700);
    assert_eq!(l.guilds[0].reputation_score, 100);
}

#[test]
fn complete_project_twice_fails() {
    let mut l = funded_guild();
    l.create_project(10, 10, &s("g"), s("p"), 0, 0).unwrap();
    assert_eq!(l.complete_project(10, 10, &s("g"), &s("p"), 1), Ok(()));
    assert_eq!(
        l.complete_project(10, 10, &s("g"), &s("p"), 2),
        Err(MoltGuildError::ProjectAlreadyCompleted)
    );
    assert_eq!(l.guilds[0].reputation_score, 100);
}

#[test]
fn complete_project_requires_authority_and_existence() {
    let mut l = funded_guild();
    l.create_project(10, 10, &s("g"), s("p"), 0, 0).unwrap();
    assert_eq!(
        l.complete_project(99, 10, &s("g"), &s("p"), 1),
        Err(MoltGuildError::NotGuildAuthority)
    );
    assert_eq!(l.complete_project(10, 10, &s("g"), &s("q"), 1), Err(MoltGuildError::NotFound));
}

#[test]
fn reward_amount_is_fixed_at_creation() {
    let mut l = funded_guild();
    l.create_project(10, 10, &s("g"), s("p"), 900, 0).unwrap();
    let before = l.projects[0].reward_amount;
    l.complete_project(10, 10, &s("g"), &s("p"), 1).unwrap();
    assert_eq!(l.projects[0].reward_amount, before);
}

#[test]
fn create_gig_stores_inert_record() {
    let mut l = Ledger::new();
    assert_eq!(l.create_gig(7, s("hackathon"), 9000, 123456, s("https://x.example"), 42), Ok(()));
    let g = &l.gigs[0];
    assert_eq!(g.name, "hackathon");
    assert_eq!(g.organizer, 7);
    assert_eq!(g.prize_pool, 9000);
    assert_eq!(g.deadline, 123456);
    assert_eq!(g.submission_url, "https://x.example");
    assert_eq!(g.status, GigStatus::Active);
    assert_eq!(g.created_at, 42);
}

#[test]
fn create_gig_validation_and_collision() {
    let mut l = Ledger::new();
    assert_eq!(
        l.create_gig(7, "x".repeat(101), 0, 0, s("u"), 0),
        Err(CreateGigError::NameTooLong)
    );
    assert_eq!(
        l.create_gig(7, s("gig"), 0, 0, "u".repeat(201), 0),
        Err(CreateGigError::UrlTooLong)
    );
    assert_eq!(l.create_gig(7, s("gig"), 0, 0, s("u"), 0), Ok(()));
    assert_eq!(l.create_gig(8, s("gig"), 1, 1, s("v"), 1), Err(CreateGigError::AlreadyExists));
}

#[test]
fn failed_operation_mutates_nothing() {
    let mut l = funded_guild();
    l.initialize_agent_profile(1, s("a"), s("b"), vec![]).unwrap();
    l.join_guild(1, 10, &s("g"), 0).unwrap();
    let guilds_before = l.guilds.len();
    let members_before = l.guilds[0].member_count;
    let wallet_before = l.wallet_balance(10);
    assert!(l.create_project(10, 10, &s("g"), s("p"), 999999, 0).is_err());
    assert!(l.close_guild(10, 10, &s("g")).is_err());
    assert_eq!(l.guilds.len(), guilds_before);
    assert_eq!(l.guilds[0].member_count, members_before);
    assert_eq!(l.wallet_balance(10), wallet_before);
    assert_eq!(l.projects.len(), 0);
}
