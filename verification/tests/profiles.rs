use moltguild::errors::MoltGuildError;
use moltguild::ledger::Ledger;
use moltguild::state::Availability;

fn s(x: &str) -> String {
    String::from(x)
}

#[test]
fn create_profile_zeroed_and_available() {
    let mut l = Ledger::new();
    assert_eq!(l.initialize_agent_profile(1, s("alice"), s("bio"), vec![s("rust")]), Ok(()));
    assert_eq!(l.profiles.len(), 1);
    let p = &l.profiles[0];
    assert_eq!(p.owner, 1);
    assert_eq!(p.handle, "alice");
    assert_eq!(p.guild_count, 0);
    assert_eq!(p.project_count, 0);
    assert_eq!(p.reputation_score, 0);
    assert_eq!(p.availability, Availability::Available);
}

#[test]
fn create_profile_handle_too_long() {
    let mut l = Ledger::new();
    let long = "x".repeat(33);
    assert_eq!(
        l.initialize_agent_profile(1, long, s("b"), vec![]),
        Err(MoltGuildError::HandleTooLong)
    );
    assert_eq!(l.profiles.len(), 0);
}

#[test]
fn create_profile_handle_at_cap_is_accepted() {
    let mut l = Ledger::new();
    let exact = "x".repeat(32);
    assert_eq!(l.initialize_agent_profile(1, exact, s("b"), vec![]), Ok(()));
}

#[test]
fn length_caps_count_characters_not_bytes() {
    let mut l = Ledger::new();
    // 32 two-byte characters: 64 bytes, but within the 32-character cap.
    let handle: String = "é".repeat(32);
    assert_eq!(l.initialize_agent_profile(1, handle, s("b"), vec![]), Ok(()));
    let too_many: String = "é".repeat(33);
    assert_eq!(
        l.initialize_agent_profile(2, too_many, s("b"), vec![]),
        Err(MoltGuildError::HandleTooLong)
    );
}

#[test]
fn create_profile_bio_too_long() {
    let mut l = Ledger::new();
    assert_eq!(
        l.initialize_agent_profile(1, s("a"), "x".repeat(201), vec![]),
        Err(MoltGuildError::BioTooLong)
    );
}

#[test]
fn create_profile_too_many_skills() {
    let mut l = Ledger::new();
    let skills: Vec<String> = (0..11).map(|i| format!("s{}", i)).collect();
    assert_eq!(
        l.initialize_agent_profile(1, s("a"), s("b"), skills),
        Err(MoltGuildError::TooManySkills)
    );
}

#[test]
fn create_profile_skill_too_long() {
    let mut l = Ledger::new();
    assert_eq!(
        l.initialize_agent_profile(1, s("a"), s("b"), vec![s("ok"), "x".repeat(21)]),
        Err(MoltGuildError::SkillTooLong)
    );
}

#[test]
fn create_profile_twice_collides() {
    let mut l = Ledger::new();
    assert_eq!(l.initialize_agent_profile(1, s("a"), s("b"), vec![]), Ok(()));
    assert_eq!(
        l.initialize_agent_profile(1, s("other"), s("b"), vec![]),
        Err(MoltGuildError::AlreadyExists)
    );
    assert_eq!(l.profiles.len(), 1);
}

#[test]
fn update_profile_replaces_only_present_fields() {
    let mut l = Ledger::new();
    assert_eq!(l.initialize_agent_profile(1, s("a"), s("old bio"), vec![s("rust")]), Ok(()));
    assert_eq!(
        l.update_agent_profile(1, Some(s("new bio")), None, Some(Availability::Busy)),
        Ok(())
    );
    let p = &l.profiles[0];
    assert_eq!(p.bio, "new bio");
    assert_eq!(p.skills, vec![s("rust")]);
    assert_eq!(p.availability, Availability::Busy);
    assert_eq!(p.handle, "a");
}

#[test]
fn update_profile_revalidates_bounds() {
    let mut l = Ledger::new();
    assert_eq!(l.initialize_agent_profile(1, s("a"), s("b"), vec![]), Ok(()));
    assert_eq!(
        l.update_agent_profile(1, Some("x".repeat(201)), None, None),
        Err(MoltGuildError::BioTooLong)
    );
    let skills: Vec<String> = (0..11).map(|i| format!("s{}", i)).collect();
    assert_eq!(
        l.update_agent_profile(1, None, Some(skills), None),
        Err(MoltGuildError::TooManySkills)
    );
    assert_eq!(
        l.update_agent_profile(1, None, Some(vec!["y".repeat(21)]), None),
        Err(MoltGuildError::SkillTooLong)
    );
    // Nothing was mutated by the failed updates.
    assert_eq!(l.profiles[0].bio, "b");
    assert_eq!(l.profiles[0].skills.len(), 0);
}

#[test]
fn update_profile_of_unknown_owner_fails() {
    let mut l = Ledger::new();
    assert_eq!(l.update_agent_profile(9, None, None, None), Err(MoltGuildError::NotFound));
}
