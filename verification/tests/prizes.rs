use moltguild::errors::{DistributePrizeError, ErrorCode};
use moltguild::ledger::Ledger;
use moltguild::state::{Guild, GuildVisibility, PrizeSplit};

fn s(x: &str) -> String {
    String::from(x)
}

fn splits(parts: &[(u64, u8)]) -> Vec<PrizeSplit> {
    parts.iter().map(|&(agent, percentage)| PrizeSplit { agent, percentage }).collect()
}

fn guild_with_treasury(balance: u64) -> Ledger {
    let mut l = Ledger::new();
    l.create_guild(10, s("g"), s("d"), GuildVisibility::Open, None).unwrap();
    l.fund_treasury(10, &s("g"), balance).unwrap();
    l
}

#[test]
fn update_splits_summing_to_100_succeeds() {
    let mut l = guild_with_treasury(0);
    assert_eq!(
        l.update_prize_splits(10, 10, &s("g"), splits(&[(1, 40), (2, 35), (3, 25)])),
        Ok(())
    );
    assert_eq!(l.guilds[0].prize_splits.len(), 3);
}

#[test]
fn update_splits_summing_to_95_fails() {
    let mut l = guild_with_treasury(0);
    assert_eq!(
        l.update_prize_splits(10, 10, &s("g"), splits(&[(1, 40), (2, 35), (3, 20)])),
        Err(ErrorCode::InvalidPrizeSplits)
    );
    assert!(l.guilds[0].prize_splits.is_empty());
}

#[test]
fn update_splits_with_eleven_entries_fails() {
    let mut l = guild_with_treasury(0);
    // Eleven entries that still sum to 100, against a member cap of ten.
    let mut parts: Vec<(u64, u8)> = (1..=10u64).map(|a| (a, 9)).collect();
    parts.push((11, 10));
    assert_eq!(
        l.update_prize_splits(10, 10, &s("g"), splits(&parts)),
        Err(ErrorCode::TooManySplits)
    );
}

#[test]
fn update_splits_requires_authority() {
    let mut l = guild_with_treasury(0);
    assert_eq!(
        l.update_prize_splits(99, 10, &s("g"), splits(&[(1, 100)])),
        Err(ErrorCode::NotGuildAuthority)
    );
    assert_eq!(
        l.update_prize_splits(10, 10, &s("nowhere"), splits(&[(1, 100)])),
        Err(ErrorCode::GuildNotFound)
    );
}

#[test]
fn validate_prize_splits_checks_the_stored_list() {
    let g = Guild {
        authority: 10,
        name: s("g"),
        description: s("d"),
        member_count: 0,
        project_count: 0,
        reputation_score: 0,
        visibility: GuildVisibility::Open,
        token_mint: None,
        gig: None,
        treasury_balance: 0,
        prize_splits: splits(&[(1, 60), (2, 40)]),
        contact: s(""),
        submission_link: None,
    };
    assert!(g.validate_prize_splits().is_ok());
    let bad = Guild { prize_splits: splits(&[(1, 60), (2, 39)]), ..g };
    assert_eq!(
        bad.validate_prize_splits(),
        Err(moltguild::state::ErrorCode::InvalidPrizeSplits)
    );
}

#[test]
fn distribute_60_40_of_1000_pays_600_and_400_no_dust() {
    let mut l = guild_with_treasury(1000);
    l.update_prize_splits(10, 10, &s("g"), splits(&[(1, 60), (2, 40)])).unwrap();
    assert_eq!(l.distribute_prize(5, 10, &s("g"), &vec![1, 2]), Ok(()));
    assert_eq!(l.wallet_balance(1), 600);
    assert_eq!(l.wallet_balance(2), 400);
    assert_eq!(l.guilds[0].treasury_balance, 0);
}

#[test]
fn distribute_33_33_34_of_1000_leaves_no_dust() {
    let mut l = guild_with_treasury(1000);
    l.update_prize_splits(10, 10, &s("g"), splits(&[(1, 33), (2, 33), (3, 34)])).unwrap();
    assert_eq!(l.distribute_prize(5, 10, &s("g"), &vec![1, 2, 3]), Ok(()));
    assert_eq!(l.wallet_balance(1), 330);
    assert_eq!(l.wallet_balance(2), 330);
    assert_eq!(l.wallet_balance(3), 340);
    assert_eq!(l.guilds[0].treasury_balance, 0);
}

#[test]
fn distribute_33_33_34_of_1001_leaves_one_unit_of_dust() {
    let mut l = guild_with_treasury(1001);
    l.update_prize_splits(10, 10, &s("g"), splits(&[(1, 33), (2, 33), (3, 34)])).unwrap();
    assert_eq!(l.distribute_prize(5, 10, &s("g"), &vec![1, 2, 3]), Ok(()));
    assert_eq!(l.wallet_balance(1), 330);
    assert_eq!(l.wallet_balance(2), 330);
    assert_eq!(l.wallet_balance(3), 340);
    assert_eq!(l.guilds[0].treasury_balance, 1);
}

#[test]
fn distribute_accumulates_onto_existing_balances() {
    let mut l = guild_with_treasury(100);
    l.deposit(1, 7).unwrap();
    l.update_prize_splits(10, 10, &s("g"), splits(&[(1, 100)])).unwrap();
    assert_eq!(l.distribute_prize(5, 10, &s("g"), &vec![1]), Ok(()));
    assert_eq!(l.wallet_balance(1), 107);
}

#[test]
fn distribute_pays_duplicate_recipient_each_split() {
    let mut l = guild_with_treasury(1000);
    l.update_prize_splits(10, 10, &s("g"), splits(&[(1, 60), (1, 40)])).unwrap();
    assert_eq!(l.distribute_prize(5, 10, &s("g"), &vec![1, 1]), Ok(()));
    assert_eq!(l.wallet_balance(1), 1000);
}

#[test]
fn distribute_empty_treasury_fails() {
    let mut l = guild_with_treasury(0);
    l.update_prize_splits(10, 10, &s("g"), splits(&[(1, 100)])).unwrap();
    assert_eq!(
        l.distribute_prize(5, 10, &s("g"), &vec![1]),
        Err(DistributePrizeError::NoPrizeToDistribute)
    );
}

#[test]
fn distribute_without_splits_fails() {
    let mut l = guild_with_treasury(100);
    assert_eq!(
        l.distribute_prize(5, 10, &s("g"), &vec![]),
        Err(DistributePrizeError::NoPrizeSplitsDefined)
    );
}

#[test]
fn distribute_revalidates_the_stored_sum() {
    let mut l = guild_with_treasury(100);
    // The stored list can only be set through validation, so break it
    // directly to show the re-check at distribution time.
    l.guilds[0].prize_splits = splits(&[(1, 60), (2, 39)]);
    assert_eq!(
        l.distribute_prize(5, 10, &s("g"), &vec![1, 2]),
        Err(DistributePrizeError::InvalidPrizeSplits)
    );
}

#[test]
fn distribute_rejects_wrong_recipient_list() {
    let mut l = guild_with_treasury(100);
    l.update_prize_splits(10, 10, &s("g"), splits(&[(1, 60), (2, 40)])).unwrap();
    assert_eq!(
        l.distribute_prize(5, 10, &s("g"), &vec![1]),
        Err(DistributePrizeError::InvalidRecipientAccounts)
    );
    assert_eq!(
        l.distribute_prize(5, 10, &s("g"), &vec![1, 9]),
        Err(DistributePrizeError::InvalidRecipientAccount)
    );
    assert_eq!(
        l.distribute_prize(5, 10, &s("g"), &vec![2, 1]),
        Err(DistributePrizeError::InvalidRecipientAccount)
    );
    // Nothing moved.
    assert_eq!(l.wallet_balance(1), 0);
    assert_eq!(l.guilds[0].treasury_balance, 100);
}

#[test]
fn distribute_unknown_guild_fails() {
    let mut l = guild_with_treasury(100);
    assert_eq!(
        l.distribute_prize(5, 10, &s("nowhere"), &vec![1]),
        Err(DistributePrizeError::GuildNotFound)
    );
}

#[test]
fn distribute_aborts_wholly_on_recipient_overflow() {
    let mut l = guild_with_treasury(1000);
    l.update_prize_splits(10, 10, &s("g"), splits(&[(1, 60), (2, 40)])).unwrap();
    l.deposit(2, u64::MAX - 10).unwrap();
    assert_eq!(
        l.distribute_prize(5, 10, &s("g"), &vec![1, 2]),
        Err(DistributePrizeError::BalanceOverflow)
    );
    // The first recipient was not paid either: all or nothing.
    assert_eq!(l.wallet_balance(1), 0);
    assert_eq!(l.guilds[0].treasury_balance, 1000);
}

#[test]
fn fund_treasury_and_deposit_errors() {
    let mut l = guild_with_treasury(u64::MAX);
    assert_eq!(
        l.fund_treasury(10, &s("g"), 1),
        Err(moltguild::errors::MoltGuildError::ArithmeticOverflow)
    );
    assert_eq!(
        l.fund_treasury(10, &s("nowhere"), 1),
        Err(moltguild::errors::MoltGuildError::NotFound)
    );
    l.deposit(1, u64::MAX).unwrap();
    assert_eq!(l.deposit(1, 1), Err(moltguild::errors::MoltGuildError::ArithmeticOverflow));
}
