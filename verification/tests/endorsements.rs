use moltguild::errors::MoltGuildError;
use moltguild::ledger::Ledger;
use moltguild::rules::endorsement_weight;

fn s(x: &str) -> String {
    String::from(x)
}

fn two_agents(from_reputation: u64) -> Ledger {
    let mut l = Ledger::new();
    l.initialize_agent_profile(1, s("from"), s("b"), vec![]).unwrap();
    l.initialize_agent_profile(2, s("to"), s("b"), vec![]).unwrap();
    // The host store may hold any reputation earned through earlier
    // operations; set it directly to probe each tier.
    l.profiles[0].reputation_score = from_reputation;
    l
}

#[test]
fn weight_tiers() {
    assert_eq!(endorsement_weight(0), 1);
    assert_eq!(endorsement_weight(99), 1);
    assert_eq!(endorsement_weight(100), 3);
    assert_eq!(endorsement_weight(150), 3);
    assert_eq!(endorsement_weight(499), 3);
    assert_eq!(endorsement_weight(500), 5);
    assert_eq!(endorsement_weight(600), 5);
    assert_eq!(endorsement_weight(999), 5);
    assert_eq!(endorsement_weight(1000), 10);
    assert_eq!(endorsement_weight(1500), 10);
}

#[test]
fn endorsing_at_reputation_zero_yields_weight_one() {
    let mut l = two_agents(0);
    assert_eq!(l.endorse_agent(1, 2, s("rust"), s("solid work"), 5), Ok(()));
    assert_eq!(l.endorsements.len(), 1);
    let e = &l.endorsements[0];
    assert_eq!(e.from_agent, 1);
    assert_eq!(e.to_agent, 2);
    assert_eq!(e.skill, "rust");
    assert_eq!(e.comment, "solid work");
    assert_eq!(e.reputation_weight, 1);
    assert_eq!(e.created_at, 5);
    assert_eq!(l.profiles[1].reputation_score, 1);
}

#[test]
fn endorsing_at_reputation_150_yields_weight_three() {
    let mut l = two_agents(150);
    assert_eq!(l.endorse_agent(1, 2, s("rust"), s("c"), 0), Ok(()));
    assert_eq!(l.endorsements[0].reputation_weight, 3);
    assert_eq!(l.profiles[1].reputation_score, 3);
}

#[test]
fn endorsing_at_reputation_600_yields_weight_five() {
    let mut l = two_agents(600);
    assert_eq!(l.endorse_agent(1, 2, s("rust"), s("c"), 0), Ok(()));
    assert_eq!(l.endorsements[0].reputation_weight, 5);
    assert_eq!(l.profiles[1].reputation_score, 5);
}

#[test]
fn endorsing_at_reputation_1500_yields_weight_ten() {
    let mut l = two_agents(1500);
    assert_eq!(l.endorse_agent(1, 2, s("rust"), s("c"), 0), Ok(()));
    assert_eq!(l.endorsements[0].reputation_weight, 10);
    assert_eq!(l.profiles[1].reputation_score, 10);
}

#[test]
fn self_endorsement_always_fails_first() {
    let mut l = two_agents(0);
    assert_eq!(
        l.endorse_agent(1, 1, s("rust"), s("c"), 0),
        Err(MoltGuildError::CannotEndorseSelf)
    );
    // Even with otherwise-invalid parameters the self check comes first.
    assert_eq!(
        l.endorse_agent(1, 1, "x".repeat(21), "y".repeat(201), 0),
        Err(MoltGuildError::CannotEndorseSelf)
    );
    // And for owners the store has never seen.
    assert_eq!(l.endorse_agent(77, 77, s("a"), s("b"), 0), Err(MoltGuildError::CannotEndorseSelf));
    assert_eq!(l.endorsements.len(), 0);
}

#[test]
fn endorsement_validation_errors() {
    let mut l = two_agents(0);
    assert_eq!(
        l.endorse_agent(1, 2, "x".repeat(21), s("c"), 0),
        Err(MoltGuildError::EndorsementSkillTooLong)
    );
    assert_eq!(
        l.endorse_agent(1, 2, s("rust"), "y".repeat(201), 0),
        Err(MoltGuildError::EndorsementCommentTooLong)
    );
    assert_eq!(l.endorse_agent(1, 99, s("rust"), s("c"), 0), Err(MoltGuildError::NotFound));
    assert_eq!(l.endorse_agent(99, 2, s("rust"), s("c"), 0), Err(MoltGuildError::NotFound));
}

#[test]
fn re_endorsing_same_skill_collides_but_other_skill_passes() {
    let mut l = two_agents(0);
    assert_eq!(l.endorse_agent(1, 2, s("rust"), s("c"), 0), Ok(()));
    assert_eq!(
        l.endorse_agent(1, 2, s("rust"), s("again"), 1),
        Err(MoltGuildError::AlreadyExists)
    );
    assert_eq!(l.endorse_agent(1, 2, s("zig"), s("c"), 1), Ok(()));
    // The reverse direction is a different derived address too.
    assert_eq!(l.endorse_agent(2, 1, s("rust"), s("c"), 1), Ok(()));
    assert_eq!(l.endorsements.len(), 3);
}

#[test]
fn endorsement_overflow_aborts_whole_operation() {
    let mut l = two_agents(0);
    l.profiles[1].reputation_score = u64::MAX;
    assert_eq!(
        l.endorse_agent(1, 2, s("rust"), s("c"), 0),
        Err(MoltGuildError::ArithmeticOverflow)
    );
    assert_eq!(l.endorsements.len(), 0);
    assert_eq!(l.profiles[1].reputation_score, u64::MAX);
}
