//! The keyed record store the host runtime applies operations to, modelled
//! explicitly, together with the operations themselves.

use vstd::prelude::*;
use crate::errors::{CreateGigError, DistributePrizeError, ErrorCode, MoltGuildError};
use crate::rules::char_len_at_most;
use crate::state::{
    AgentProfile, Availability, Endorsement, Gig, GigStatus, Guild, GuildKey, GuildVisibility,
    MemberRole, Membership, PrizeSplit, Project, ProjectStatus, Wallet, endorsement_wf, gig_wf,
    guild_wf, membership_wf, profile_wf, project_wf, MAX_BIO_LEN, MAX_COMMENT_LEN, MAX_CONTACT_LEN,
    MAX_DESC_LEN, MAX_GIG_NAME_LEN, MAX_HANDLE_LEN, MAX_MEMBERS, MAX_NAME_LEN,
    MAX_PROJECT_NAME_LEN, MAX_SKILLS, MAX_SKILL_LEN, MAX_URL_LEN, COMPLETION_REPUTATION_AWARD,
};

verus! {

/// Does a guild record live at the derived address of `(authority, name)`?
pub open spec fn guild_matches(g: Guild, authority: u64, name: Seq<char>) -> bool {
    g.authority == authority && g.name@ == name
}

/// Does a profile record live at the derived address of `owner`?
pub open spec fn profile_matches(p: AgentProfile, owner: u64) -> bool {
    p.owner == owner
}

/// Does a membership record link the guild at `(ga, gn)` with `agent`?
pub open spec fn membership_matches(m: Membership, ga: u64, gn: Seq<char>, agent: u64) -> bool {
    m.guild.authority == ga && m.guild.name@ == gn && m.agent == agent
}

/// Does a membership record reference the guild at `(ga, gn)`?
pub open spec fn membership_in_guild(m: Membership, ga: u64, gn: Seq<char>) -> bool {
    m.guild.authority == ga && m.guild.name@ == gn
}

/// Does a membership record belong to the agent owned by `owner`?
pub open spec fn membership_of_agent(m: Membership, owner: u64) -> bool {
    m.agent == owner
}

/// Does a project record live at the derived address of `(ga, gn, name)`?
pub open spec fn project_matches(p: Project, ga: u64, gn: Seq<char>, name: Seq<char>) -> bool {
    p.guild.authority == ga && p.guild.name@ == gn && p.name@ == name
}

/// Does an endorsement record live at the derived address of
/// `(from, to, skill)`?
pub open spec fn endorsement_matches(e: Endorsement, from: u64, to: u64, skill: Seq<char>) -> bool {
    e.from_agent == from && e.to_agent == to && e.skill@ == skill
}

/// Does a gig record live at the derived address of `name`?
pub open spec fn gig_matches(g: Gig, name: Seq<char>) -> bool {
    g.name@ == name
}

/// Does a wallet entry carry the balance of `owner`?
pub open spec fn wallet_matches(w: Wallet, owner: u64) -> bool {
    w.owner == owner
}

/// Number of memberships referencing the guild at `(ga, gn)`.
pub open spec fn count_guild_members(ms: Seq<Membership>, ga: u64, gn: Seq<char>) -> nat
    decreases ms.len(),
{
    if ms.len() == 0 {
        0
    } else {
        count_guild_members(ms.drop_last(), ga, gn) + if membership_in_guild(ms.last(), ga, gn) {
            1nat
        } else {
            0nat
        }
    }
}

/// Number of memberships held by the agent owned by `owner`.
pub open spec fn count_agent_memberships(ms: Seq<Membership>, owner: u64) -> nat
    decreases ms.len(),
{
    if ms.len() == 0 {
        0
    } else {
        count_agent_memberships(ms.drop_last(), owner) + if membership_of_agent(
            ms.last(),
            owner,
        ) {
            1nat
        } else {
            0nat
        }
    }
}

/// Appending a membership raises a member count by one exactly when the
/// new record references the counted guild.
pub proof fn lemma_count_guild_members_push(
    ms: Seq<Membership>,
    m: Membership,
    ga: u64,
    gn: Seq<char>,
)
    ensures
        count_guild_members(ms.push(m), ga, gn) == count_guild_members(ms, ga, gn)
            + if membership_in_guild(m, ga, gn) {
            1nat
        } else {
            0nat
        },
{
    assert(ms.push(m).drop_last() =~= ms);
}

/// Appending a membership raises an agent's membership count by one
/// exactly when the new record belongs to the counted agent.
pub proof fn lemma_count_agent_memberships_push(ms: Seq<Membership>, m: Membership, owner: u64)
    ensures
        count_agent_memberships(ms.push(m), owner) == count_agent_memberships(ms, owner)
            + if membership_of_agent(m, owner) {
            1nat
        } else {
            0nat
        },
{
    assert(ms.push(m).drop_last() =~= ms);
}

/// Removing the record at `i` lowers a member count by one exactly when
/// that record references the counted guild.
pub proof fn lemma_count_guild_members_remove(ms: Seq<Membership>, i: int, ga: u64, gn: Seq<char>)
    requires
        0 <= i < ms.len(),
    ensures
        count_guild_members(ms.remove(i), ga, gn) + if membership_in_guild(ms[i], ga, gn) {
            1nat
        } else {
            0nat
        } == count_guild_members(ms, ga, gn),
    decreases ms.len(),
{
    if i == ms.len() - 1 {
        assert(ms.remove(i) =~= ms.drop_last());
    } else {
        lemma_count_guild_members_remove(ms.drop_last(), i, ga, gn);
        assert(ms.remove(i).drop_last() =~= ms.drop_last().remove(i));
        assert(ms.remove(i).last() == ms.last());
    }
}

/// Removing the record at `i` lowers an agent's membership count by one
/// exactly when that record belongs to the counted agent.
pub proof fn lemma_count_agent_memberships_remove(ms: Seq<Membership>, i: int, owner: u64)
    requires
        0 <= i < ms.len(),
    ensures
        count_agent_memberships(ms.remove(i), owner) + if membership_of_agent(ms[i], owner) {
            1nat
        } else {
            0nat
        } == count_agent_memberships(ms, owner),
    decreases ms.len(),
{
    if i == ms.len() - 1 {
        assert(ms.remove(i) =~= ms.drop_last());
    } else {
        lemma_count_agent_memberships_remove(ms.drop_last(), i, owner);
        assert(ms.remove(i).drop_last() =~= ms.drop_last().remove(i));
        assert(ms.remove(i).last() == ms.last());
    }
}

/// A guild nothing references has member count zero.
pub proof fn lemma_count_guild_members_zero(ms: Seq<Membership>, ga: u64, gn: Seq<char>)
    requires
        forall|j: int| 0 <= j < ms.len() ==> !membership_in_guild(#[trigger] ms[j], ga, gn),
    ensures
        count_guild_members(ms, ga, gn) == 0,
    decreases ms.len(),
{
    if ms.len() > 0 {
        lemma_count_guild_members_zero(ms.drop_last(), ga, gn);
    }
}

/// An agent nothing references has membership count zero.
pub proof fn lemma_count_agent_memberships_zero(ms: Seq<Membership>, owner: u64)
    requires
        forall|j: int| 0 <= j < ms.len() ==> !membership_of_agent(#[trigger] ms[j], owner),
    ensures
        count_agent_memberships(ms, owner) == 0,
    decreases ms.len(),
{
    if ms.len() > 0 {
        lemma_count_agent_memberships_zero(ms.drop_last(), owner);
    }
}

/// A guild some record references has member count at least one.
pub proof fn lemma_count_guild_members_pos(ms: Seq<Membership>, i: int, ga: u64, gn: Seq<char>)
    requires
        0 <= i < ms.len(),
        membership_in_guild(ms[i], ga, gn),
    ensures
        count_guild_members(ms, ga, gn) >= 1,
    decreases ms.len(),
{
    if i < ms.len() - 1 {
        lemma_count_guild_members_pos(ms.drop_last(), i, ga, gn);
    }
}

/// An agent some record references has membership count at least one.
pub proof fn lemma_count_agent_memberships_pos(ms: Seq<Membership>, i: int, owner: u64)
    requires
        0 <= i < ms.len(),
        membership_of_agent(ms[i], owner),
    ensures
        count_agent_memberships(ms, owner) >= 1,
    decreases ms.len(),
{
    if i < ms.len() - 1 {
        lemma_count_agent_memberships_pos(ms.drop_last(), i, owner);
    }
}

/// The native balance the wallet entries record for `owner`: the amounts
/// of every entry carrying that owner, summed. With unique entries this
/// is the single entry's amount, or zero when there is none.
pub open spec fn wallets_amount(ws: Seq<Wallet>, owner: u64) -> int
    decreases ws.len(),
{
    if ws.len() == 0 {
        0
    } else {
        wallets_amount(ws.drop_last(), owner) + if wallet_matches(ws.last(), owner) {
            ws.last().amount as int
        } else {
            0
        }
    }
}

/// Appending a wallet entry adds its amount to its own owner's balance
/// and leaves every other balance unchanged.
pub proof fn lemma_wallets_amount_push(ws: Seq<Wallet>, w: Wallet, owner: u64)
    ensures
        wallets_amount(ws.push(w), owner) == wallets_amount(ws, owner) + if wallet_matches(
            w,
            owner,
        ) {
            w.amount as int
        } else {
            0
        },
{
    assert(ws.push(w).drop_last() =~= ws);
}

/// Replacing the entry at `i` moves each balance by the difference the
/// replacement makes at that position.
pub proof fn lemma_wallets_amount_update(ws: Seq<Wallet>, i: int, w: Wallet, owner: u64)
    requires
        0 <= i < ws.len(),
    ensures
        wallets_amount(ws.update(i, w), owner) == wallets_amount(ws, owner) - (if wallet_matches(
            ws[i],
            owner,
        ) {
            ws[i].amount as int
        } else {
            0
        }) + (if wallet_matches(w, owner) {
            w.amount as int
        } else {
            0
        }),
    decreases ws.len(),
{
    if i == ws.len() - 1 {
        assert(ws.update(i, w).drop_last() =~= ws.drop_last());
        assert(ws.update(i, w).last() == w);
    } else {
        lemma_wallets_amount_update(ws.drop_last(), i, w, owner);
        assert(ws.update(i, w).drop_last() =~= ws.drop_last().update(i, w));
        assert(ws.update(i, w).last() == ws.last());
    }
}

/// With pairwise-distinct owners, the balance of the owner at `i` is
/// exactly that entry's amount.
pub proof fn lemma_wallets_amount_at(ws: Seq<Wallet>, i: int)
    requires
        0 <= i < ws.len(),
        forall|a: int, b: int|
            0 <= a < b < ws.len() ==> (#[trigger] ws[a]).owner != (#[trigger] ws[b]).owner,
    ensures
        wallets_amount(ws, ws[i].owner) == ws[i].amount,
    decreases ws.len(),
{
    if i == ws.len() - 1 {
        lemma_wallets_amount_zero_prefix(ws.drop_last(), ws[i].owner);
    } else {
        lemma_wallets_amount_at(ws.drop_last(), i);
        assert(ws.drop_last()[i] == ws[i]);
        assert(!wallet_matches(ws.last(), ws[i].owner));
    }
}

/// An owner no entry carries has balance zero.
pub proof fn lemma_wallets_amount_zero_prefix(ws: Seq<Wallet>, owner: u64)
    requires
        forall|j: int| 0 <= j < ws.len() ==> !wallet_matches(#[trigger] ws[j], owner),
    ensures
        wallets_amount(ws, owner) == 0,
    decreases ws.len(),
{
    if ws.len() > 0 {
        lemma_wallets_amount_zero_prefix(ws.drop_last(), owner);
    }
}

/// Membership linkage carries over unchanged when the profiles, guilds
/// and memberships of a store are unchanged.
pub proof fn lemma_linked_carry(pre: Ledger, post: Ledger)
    requires
        pre.memberships_linked(),
        post.memberships@ == pre.memberships@,
        post.guilds@ == pre.guilds@,
        post.profiles@ == pre.profiles@,
    ensures
        post.memberships_linked(),
{
    assert forall|i: int| #![trigger post.memberships@[i]]
        0 <= i < post.memberships@.len() implies post.guild_exists(
        post.memberships@[i].guild.authority,
        post.memberships@[i].guild.name@,
    ) && post.profile_exists(post.memberships@[i].agent) by {
        assert(pre.memberships@[i] == post.memberships@[i]);
        assert(pre.guild_exists(
            pre.memberships@[i].guild.authority,
            pre.memberships@[i].guild.name@,
        ));
        let gw = choose|g: int|
            0 <= g < pre.guilds@.len() && guild_matches(
                #[trigger] pre.guilds@[g],
                pre.memberships@[i].guild.authority,
                pre.memberships@[i].guild.name@,
            );
        assert(guild_matches(post.guilds@[gw], post.memberships@[i].guild.authority,
        post.memberships@[i].guild.name@));
        assert(pre.profile_exists(pre.memberships@[i].agent));
        let pw = choose|p: int|
            0 <= p < pre.profiles@.len() && profile_matches(
                #[trigger] pre.profiles@[p],
                pre.memberships@[i].agent,
            );
        assert(profile_matches(post.profiles@[pw], post.memberships@[i].agent));
    }
}

/// Appending a fresh, well-formed profile with no memberships keeps the
/// store well-formed.
pub proof fn lemma_wf_push_profile(pre: Ledger, post: Ledger, p: AgentProfile)
    requires
        pre.wf(),
        profile_wf(p),
        p.guild_count == 0,
        forall|j: int|
            0 <= j < pre.profiles@.len() ==> !profile_matches(#[trigger] pre.profiles@[j], p.owner),
        post.profiles@ == pre.profiles@.push(p),
        post.guilds@ == pre.guilds@,
        post.memberships@ == pre.memberships@,
        post.projects@ == pre.projects@,
        post.endorsements@ == pre.endorsements@,
        post.gigs@ == pre.gigs@,
        post.wallets@ == pre.wallets@,
    ensures
        post.wf(),
{
    assert forall|i: int, j: int|
        0 <= i < j < post.profiles@.len() implies (#[trigger] post.profiles@[i]).owner != (
    #[trigger] post.profiles@[j]).owner by {
        assert(post.profiles@[i] == pre.profiles@[i]);
        if j < pre.profiles@.len() {
            assert(post.profiles@[j] == pre.profiles@[j]);
        } else {
            assert(!profile_matches(pre.profiles@[i], p.owner));
        }
    }
    assert forall|j: int|
        0 <= j < post.memberships@.len() implies !membership_of_agent(
        #[trigger] post.memberships@[j],
        p.owner,
    ) by {
        if membership_of_agent(pre.memberships@[j], p.owner) {
            assert(pre.profile_exists(pre.memberships@[j].agent));
            let w = choose|q: int|
                0 <= q < pre.profiles@.len() && profile_matches(
                    #[trigger] pre.profiles@[q],
                    pre.memberships@[j].agent,
                );
            assert(profile_matches(pre.profiles@[w], p.owner));
        }
    }
    lemma_count_agent_memberships_zero(post.memberships@, p.owner);
    assert forall|i: int|
        0 <= i < post.profiles@.len() implies (#[trigger] post.profiles@[i]).guild_count
        == count_agent_memberships(post.memberships@, post.profiles@[i].owner) by {
        if i < pre.profiles@.len() {
            assert(post.profiles@[i] == pre.profiles@[i]);
        } else {
            assert(post.profiles@[i] == p);
        }
    }
    assert forall|i: int| #![trigger post.memberships@[i]]
        0 <= i < post.memberships@.len() implies post.guild_exists(
        post.memberships@[i].guild.authority,
        post.memberships@[i].guild.name@,
    ) && post.profile_exists(post.memberships@[i].agent) by {
        assert(pre.memberships@[i] == post.memberships@[i]);
        assert(pre.guild_exists(
            pre.memberships@[i].guild.authority,
            pre.memberships@[i].guild.name@,
        ));
        let gw = choose|g: int|
            0 <= g < pre.guilds@.len() && guild_matches(
                #[trigger] pre.guilds@[g],
                pre.memberships@[i].guild.authority,
                pre.memberships@[i].guild.name@,
            );
        assert(guild_matches(post.guilds@[gw], post.memberships@[i].guild.authority,
        post.memberships@[i].guild.name@));
        assert(pre.profile_exists(pre.memberships@[i].agent));
        let w = choose|q: int|
            0 <= q < pre.profiles@.len() && profile_matches(
                #[trigger] pre.profiles@[q],
                pre.memberships@[i].agent,
            );
        assert(post.profiles@[w] == pre.profiles@[w]);
        assert(profile_matches(post.profiles@[w], post.memberships@[i].agent));
    }
    assert forall|i: int|
        0 <= i < post.profiles@.len() implies profile_wf(#[trigger] post.profiles@[i]) by {
        if i < pre.profiles@.len() {
            assert(post.profiles@[i] == pre.profiles@[i]);
        } else {
            assert(post.profiles@[i] == p);
        }
    }
}

/// Appending a fresh, well-formed guild with no members keeps the store
/// well-formed.
pub proof fn lemma_wf_push_guild(pre: Ledger, post: Ledger, g: Guild)
    requires
        pre.wf(),
        guild_wf(g),
        g.member_count == 0,
        forall|j: int|
            0 <= j < pre.guilds@.len() ==> !guild_matches(
                #[trigger] pre.guilds@[j],
                g.authority,
                g.name@,
            ),
        post.guilds@ == pre.guilds@.push(g),
        post.profiles@ == pre.profiles@,
        post.memberships@ == pre.memberships@,
        post.projects@ == pre.projects@,
        post.endorsements@ == pre.endorsements@,
        post.gigs@ == pre.gigs@,
        post.wallets@ == pre.wallets@,
    ensures
        post.wf(),
{
    assert forall|i: int, j: int|
        0 <= i < j < post.guilds@.len() implies !guild_matches(
        #[trigger] post.guilds@[i],
        (#[trigger] post.guilds@[j]).authority,
        post.guilds@[j].name@,
    ) by {
        assert(post.guilds@[i] == pre.guilds@[i]);
        if j < pre.guilds@.len() {
            assert(post.guilds@[j] == pre.guilds@[j]);
        } else {
            assert(!guild_matches(pre.guilds@[i], g.authority, g.name@));
        }
    }
    assert forall|j: int|
        0 <= j < post.memberships@.len() implies !membership_in_guild(
        #[trigger] post.memberships@[j],
        g.authority,
        g.name@,
    ) by {
        if membership_in_guild(pre.memberships@[j], g.authority, g.name@) {
            assert(pre.guild_exists(
                pre.memberships@[j].guild.authority,
                pre.memberships@[j].guild.name@,
            ));
            let w = choose|q: int|
                0 <= q < pre.guilds@.len() && guild_matches(
                    #[trigger] pre.guilds@[q],
                    pre.memberships@[j].guild.authority,
                    pre.memberships@[j].guild.name@,
                );
            assert(guild_matches(pre.guilds@[w], g.authority, g.name@));
        }
    }
    lemma_count_guild_members_zero(post.memberships@, g.authority, g.name@);
    assert forall|i: int|
        0 <= i < post.guilds@.len() implies (#[trigger] post.guilds@[i]).member_count
        == count_guild_members(post.memberships@, post.guilds@[i].authority, post.guilds@[i].name@)
        by {
        if i < pre.guilds@.len() {
            assert(post.guilds@[i] == pre.guilds@[i]);
        } else {
            assert(post.guilds@[i] == g);
        }
    }
    assert forall|i: int| #![trigger post.memberships@[i]]
        0 <= i < post.memberships@.len() implies post.guild_exists(
        post.memberships@[i].guild.authority,
        post.memberships@[i].guild.name@,
    ) && post.profile_exists(post.memberships@[i].agent) by {
        assert(pre.memberships@[i] == post.memberships@[i]);
        assert(pre.guild_exists(
            pre.memberships@[i].guild.authority,
            pre.memberships@[i].guild.name@,
        ));
        let w = choose|q: int|
            0 <= q < pre.guilds@.len() && guild_matches(
                #[trigger] pre.guilds@[q],
                pre.memberships@[i].guild.authority,
                pre.memberships@[i].guild.name@,
            );
        assert(post.guilds@[w] == pre.guilds@[w]);
        assert(guild_matches(post.guilds@[w], post.memberships@[i].guild.authority,
        post.memberships@[i].guild.name@));
        assert(pre.profile_exists(pre.memberships@[i].agent));
        let pw = choose|p: int|
            0 <= p < pre.profiles@.len() && profile_matches(
                #[trigger] pre.profiles@[p],
                pre.memberships@[i].agent,
            );
        assert(profile_matches(post.profiles@[pw], post.memberships@[i].agent));
    }
    assert forall|i: int|
        0 <= i < post.guilds@.len() implies guild_wf(#[trigger] post.guilds@[i]) by {
        if i < pre.guilds@.len() {
            assert(post.guilds@[i] == pre.guilds@[i]);
        } else {
            assert(post.guilds@[i] == g);
        }
    }
}

/// Appending a well-formed gig at a fresh address keeps the store
/// well-formed.
pub proof fn lemma_wf_push_gig(pre: Ledger, post: Ledger, g: Gig)
    requires
        pre.wf(),
        gig_wf(g),
        forall|j: int| 0 <= j < pre.gigs@.len() ==> (#[trigger] pre.gigs@[j]).name@ != g.name@,
        post.gigs@ == pre.gigs@.push(g),
        post.profiles@ == pre.profiles@,
        post.guilds@ == pre.guilds@,
        post.memberships@ == pre.memberships@,
        post.projects@ == pre.projects@,
        post.endorsements@ == pre.endorsements@,
        post.wallets@ == pre.wallets@,
    ensures
        post.wf(),
{
    assert forall|i: int, j: int|
        0 <= i < j < post.gigs@.len() implies (#[trigger] post.gigs@[i]).name@ != (
    #[trigger] post.gigs@[j]).name@ by {
        assert(post.gigs@[i] == pre.gigs@[i]);
        if j < pre.gigs@.len() {
            assert(post.gigs@[j] == pre.gigs@[j]);
        }
    }
    assert forall|i: int| 0 <= i < post.gigs@.len() implies gig_wf(#[trigger] post.gigs@[i]) by {
        if i < pre.gigs@.len() {
            assert(post.gigs@[i] == pre.gigs@[i]);
        } else {
            assert(post.gigs@[i] == g);
        }
    }
    lemma_linked_carry(pre, post);
}

/// With pairwise-distinct owners, every balance fits one entry, so none
/// exceeds `u64::MAX`.
pub proof fn lemma_wallets_amount_bound(ws: Seq<Wallet>, owner: u64)
    requires
        forall|a: int, b: int|
            0 <= a < b < ws.len() ==> (#[trigger] ws[a]).owner != (#[trigger] ws[b]).owner,
    ensures
        0 <= wallets_amount(ws, owner) <= u64::MAX,
{
    if exists|j: int| 0 <= j < ws.len() && wallet_matches(#[trigger] ws[j], owner) {
        let j = choose|j: int| 0 <= j < ws.len() && wallet_matches(#[trigger] ws[j], owner);
        lemma_wallets_amount_at(ws, j);
    } else {
        assert forall|j: int| 0 <= j < ws.len() implies !wallet_matches(#[trigger] ws[j], owner) by {}
        lemma_wallets_amount_zero_prefix(ws, owner);
    }
}

/// Replacing a guild record in place, with its derived address and member
/// count untouched, keeps the store well-formed.
pub proof fn lemma_wf_update_guild(pre: Ledger, post: Ledger, i: int)
    requires
        pre.wf(),
        0 <= i < pre.guilds@.len(),
        post.guilds@.len() == pre.guilds@.len(),
        post.guilds@ == pre.guilds@.update(i, post.guilds@[i]),
        post.guilds@[i].authority == pre.guilds@[i].authority,
        post.guilds@[i].name@ == pre.guilds@[i].name@,
        post.guilds@[i].member_count == pre.guilds@[i].member_count,
        guild_wf(post.guilds@[i]),
        post.profiles@ == pre.profiles@,
        post.memberships@ == pre.memberships@,
        post.projects@ == pre.projects@,
        post.endorsements@ == pre.endorsements@,
        post.gigs@ == pre.gigs@,
        post.wallets@ == pre.wallets@,
    ensures
        post.wf(),
{
    assert forall|a: int, b: int|
        0 <= a < b < post.guilds@.len() implies !guild_matches(
        #[trigger] post.guilds@[a],
        (#[trigger] post.guilds@[b]).authority,
        post.guilds@[b].name@,
    ) by {
        assert(!guild_matches(pre.guilds@[a], pre.guilds@[b].authority, pre.guilds@[b].name@));
        assert(post.guilds@[a].authority == pre.guilds@[a].authority && post.guilds@[a].name@
            == pre.guilds@[a].name@);
        assert(post.guilds@[b].authority == pre.guilds@[b].authority && post.guilds@[b].name@
            == pre.guilds@[b].name@);
    }
    assert forall|k: int|
        0 <= k < post.guilds@.len() implies (#[trigger] post.guilds@[k]).member_count
        == count_guild_members(post.memberships@, post.guilds@[k].authority, post.guilds@[k].name@)
        by {
        assert(pre.guilds@[k].member_count == count_guild_members(
            pre.memberships@,
            pre.guilds@[k].authority,
            pre.guilds@[k].name@,
        ));
    }
    assert forall|k: int|
        0 <= k < post.guilds@.len() implies guild_wf(#[trigger] post.guilds@[k]) by {
        if k != i {
            assert(post.guilds@[k] == pre.guilds@[k]);
        }
    }
    assert forall|m: int| #![trigger post.memberships@[m]]
        0 <= m < post.memberships@.len() implies post.guild_exists(
        post.memberships@[m].guild.authority,
        post.memberships@[m].guild.name@,
    ) && post.profile_exists(post.memberships@[m].agent) by {
        assert(pre.memberships@[m] == post.memberships@[m]);
        assert(pre.guild_exists(
            pre.memberships@[m].guild.authority,
            pre.memberships@[m].guild.name@,
        ));
        let gw = choose|g: int|
            0 <= g < pre.guilds@.len() && guild_matches(
                #[trigger] pre.guilds@[g],
                pre.memberships@[m].guild.authority,
                pre.memberships@[m].guild.name@,
            );
        assert(post.guilds@[gw].authority == pre.guilds@[gw].authority && post.guilds@[gw].name@
            == pre.guilds@[gw].name@);
        assert(guild_matches(post.guilds@[gw], post.memberships@[m].guild.authority,
        post.memberships@[m].guild.name@));
        assert(pre.profile_exists(pre.memberships@[m].agent));
        let pw = choose|p: int|
            0 <= p < pre.profiles@.len() && profile_matches(
                #[trigger] pre.profiles@[p],
                pre.memberships@[m].agent,
            );
        assert(profile_matches(post.profiles@[pw], post.memberships@[m].agent));
    }
}

/// Replacing a profile record in place, with its owner and guild count
/// untouched, keeps the store well-formed.
pub proof fn lemma_wf_update_profile(pre: Ledger, post: Ledger, i: int)
    requires
        pre.wf(),
        0 <= i < pre.profiles@.len(),
        post.profiles@.len() == pre.profiles@.len(),
        post.profiles@ == pre.profiles@.update(i, post.profiles@[i]),
        post.profiles@[i].owner == pre.profiles@[i].owner,
        post.profiles@[i].guild_count == pre.profiles@[i].guild_count,
        profile_wf(post.profiles@[i]),
        post.guilds@ == pre.guilds@,
        post.memberships@ == pre.memberships@,
        post.projects@ == pre.projects@,
        post.endorsements@ == pre.endorsements@,
        post.gigs@ == pre.gigs@,
        post.wallets@ == pre.wallets@,
    ensures
        post.wf(),
{
    assert forall|a: int, b: int|
        0 <= a < b < post.profiles@.len() implies (#[trigger] post.profiles@[a]).owner != (
    #[trigger] post.profiles@[b]).owner by {
        assert(pre.profiles@[a].owner != pre.profiles@[b].owner);
        assert(post.profiles@[a].owner == pre.profiles@[a].owner);
        assert(post.profiles@[b].owner == pre.profiles@[b].owner);
    }
    assert forall|k: int|
        0 <= k < post.profiles@.len() implies (#[trigger] post.profiles@[k]).guild_count
        == count_agent_memberships(post.memberships@, post.profiles@[k].owner) by {
        assert(pre.profiles@[k].guild_count == count_agent_memberships(
            pre.memberships@,
            pre.profiles@[k].owner,
        ));
    }
    assert forall|k: int|
        0 <= k < post.profiles@.len() implies profile_wf(#[trigger] post.profiles@[k]) by {
        if k != i {
            assert(post.profiles@[k] == pre.profiles@[k]);
        }
    }
    assert forall|m: int| #![trigger post.memberships@[m]]
        0 <= m < post.memberships@.len() implies post.guild_exists(
        post.memberships@[m].guild.authority,
        post.memberships@[m].guild.name@,
    ) && post.profile_exists(post.memberships@[m].agent) by {
        assert(pre.memberships@[m] == post.memberships@[m]);
        assert(pre.guild_exists(
            pre.memberships@[m].guild.authority,
            pre.memberships@[m].guild.name@,
        ));
        let gw = choose|g: int|
            0 <= g < pre.guilds@.len() && guild_matches(
                #[trigger] pre.guilds@[g],
                pre.memberships@[m].guild.authority,
                pre.memberships@[m].guild.name@,
            );
        assert(guild_matches(post.guilds@[gw], post.memberships@[m].guild.authority,
        post.memberships@[m].guild.name@));
        assert(pre.profile_exists(pre.memberships@[m].agent));
        let pw = choose|p: int|
            0 <= p < pre.profiles@.len() && profile_matches(
                #[trigger] pre.profiles@[p],
                pre.memberships@[m].agent,
            );
        assert(post.profiles@[pw].owner == pre.profiles@[pw].owner);
        assert(profile_matches(post.profiles@[pw], post.memberships@[m].agent));
    }
}

/// Replacing a project record in place, with its derived address
/// untouched and its bounds kept, keeps the store well-formed.
pub proof fn lemma_wf_update_project(pre: Ledger, post: Ledger, i: int)
    requires
        pre.wf(),
        0 <= i < pre.projects@.len(),
        post.projects@.len() == pre.projects@.len(),
        post.projects@ == pre.projects@.update(i, post.projects@[i]),
        post.projects@[i].guild.authority == pre.projects@[i].guild.authority,
        post.projects@[i].guild.name@ == pre.projects@[i].guild.name@,
        post.projects@[i].name@ == pre.projects@[i].name@,
        project_wf(post.projects@[i]),
        post.profiles@ == pre.profiles@,
        post.guilds@ == pre.guilds@,
        post.memberships@ == pre.memberships@,
        post.endorsements@ == pre.endorsements@,
        post.gigs@ == pre.gigs@,
        post.wallets@ == pre.wallets@,
    ensures
        post.wf(),
{
    assert forall|a: int, b: int|
        0 <= a < b < post.projects@.len() implies !project_matches(
        #[trigger] post.projects@[a],
        (#[trigger] post.projects@[b]).guild.authority,
        post.projects@[b].guild.name@,
        post.projects@[b].name@,
    ) by {
        assert(!project_matches(pre.projects@[a], pre.projects@[b].guild.authority,
        pre.projects@[b].guild.name@, pre.projects@[b].name@));
        assert(post.projects@[a].guild.authority == pre.projects@[a].guild.authority
            && post.projects@[a].guild.name@ == pre.projects@[a].guild.name@
            && post.projects@[a].name@ == pre.projects@[a].name@);
        assert(post.projects@[b].guild.authority == pre.projects@[b].guild.authority
            && post.projects@[b].guild.name@ == pre.projects@[b].guild.name@
            && post.projects@[b].name@ == pre.projects@[b].name@);
    }
    assert forall|k: int|
        0 <= k < post.projects@.len() implies project_wf(#[trigger] post.projects@[k]) by {
        if k != i {
            assert(post.projects@[k] == pre.projects@[k]);
        }
    }
    lemma_linked_carry(pre, post);
}

/// Appending a well-formed project at a fresh derived address keeps the
/// store well-formed.
pub proof fn lemma_wf_push_project(pre: Ledger, post: Ledger, p: Project)
    requires
        pre.wf(),
        project_wf(p),
        forall|j: int|
            0 <= j < pre.projects@.len() ==> !project_matches(
                #[trigger] pre.projects@[j],
                p.guild.authority,
                p.guild.name@,
                p.name@,
            ),
        post.projects@ == pre.projects@.push(p),
        post.profiles@ == pre.profiles@,
        post.guilds@ == pre.guilds@,
        post.memberships@ == pre.memberships@,
        post.endorsements@ == pre.endorsements@,
        post.gigs@ == pre.gigs@,
        post.wallets@ == pre.wallets@,
    ensures
        post.wf(),
{
    assert forall|a: int, b: int|
        0 <= a < b < post.projects@.len() implies !project_matches(
        #[trigger] post.projects@[a],
        (#[trigger] post.projects@[b]).guild.authority,
        post.projects@[b].guild.name@,
        post.projects@[b].name@,
    ) by {
        assert(post.projects@[a] == pre.projects@[a]);
        if b < pre.projects@.len() {
            assert(post.projects@[b] == pre.projects@[b]);
        } else {
            assert(!project_matches(pre.projects@[a], p.guild.authority, p.guild.name@, p.name@));
        }
    }
    assert forall|k: int|
        0 <= k < post.projects@.len() implies project_wf(#[trigger] post.projects@[k]) by {
        if k < pre.projects@.len() {
            assert(post.projects@[k] == pre.projects@[k]);
        } else {
            assert(post.projects@[k] == p);
        }
    }
    lemma_linked_carry(pre, post);
}

/// Appending a well-formed endorsement at a fresh derived address keeps
/// the store well-formed.
pub proof fn lemma_wf_push_endorsement(pre: Ledger, post: Ledger, e: Endorsement)
    requires
        pre.wf(),
        endorsement_wf(e),
        forall|j: int|
            0 <= j < pre.endorsements@.len() ==> !endorsement_matches(
                #[trigger] pre.endorsements@[j],
                e.from_agent,
                e.to_agent,
                e.skill@,
            ),
        post.endorsements@ == pre.endorsements@.push(e),
        post.profiles@ == pre.profiles@,
        post.guilds@ == pre.guilds@,
        post.memberships@ == pre.memberships@,
        post.projects@ == pre.projects@,
        post.gigs@ == pre.gigs@,
        post.wallets@ == pre.wallets@,
    ensures
        post.wf(),
{
    assert forall|a: int, b: int|
        0 <= a < b < post.endorsements@.len() implies !endorsement_matches(
        #[trigger] post.endorsements@[a],
        (#[trigger] post.endorsements@[b]).from_agent,
        post.endorsements@[b].to_agent,
        post.endorsements@[b].skill@,
    ) by {
        assert(post.endorsements@[a] == pre.endorsements@[a]);
        if b < pre.endorsements@.len() {
            assert(post.endorsements@[b] == pre.endorsements@[b]);
        } else {
            assert(!endorsement_matches(pre.endorsements@[a], e.from_agent, e.to_agent, e.skill@));
        }
    }
    assert forall|k: int|
        0 <= k < post.endorsements@.len() implies endorsement_wf(#[trigger] post.endorsements@[k])
        by {
        if k < pre.endorsements@.len() {
            assert(post.endorsements@[k] == pre.endorsements@[k]);
        } else {
            assert(post.endorsements@[k] == e);
        }
    }
    lemma_linked_carry(pre, post);
}

/// Exactly the guild at `gi` was replaced; every other collection and
/// record is untouched.
pub open spec fn only_guild_changed(pre: Ledger, post: Ledger, gi: int) -> bool {
    &&& 0 <= gi < pre.guilds@.len()
    &&& post.guilds@ == pre.guilds@.update(gi, post.guilds@[gi])
    &&& post.profiles@ == pre.profiles@
    &&& post.memberships@ == pre.memberships@
    &&& post.projects@ == pre.projects@
    &&& post.endorsements@ == pre.endorsements@
    &&& post.gigs@ == pre.gigs@
    &&& post.wallets@ == pre.wallets@
}

/// Exactly the profile at `pi` was replaced; every other collection and
/// record is untouched.
pub open spec fn only_profile_changed(pre: Ledger, post: Ledger, pi: int) -> bool {
    &&& 0 <= pi < pre.profiles@.len()
    &&& post.profiles@ == pre.profiles@.update(pi, post.profiles@[pi])
    &&& post.guilds@ == pre.guilds@
    &&& post.memberships@ == pre.memberships@
    &&& post.projects@ == pre.projects@
    &&& post.endorsements@ == pre.endorsements@
    &&& post.gigs@ == pre.gigs@
    &&& post.wallets@ == pre.wallets@
}

/// Exactly the guild at `gi` and the project at `pi` were replaced.
pub open spec fn only_guild_and_project_changed(pre: Ledger, post: Ledger, gi: int, pi: int) -> bool {
    &&& 0 <= gi < pre.guilds@.len()
    &&& 0 <= pi < pre.projects@.len()
    &&& post.guilds@ == pre.guilds@.update(gi, post.guilds@[gi])
    &&& post.projects@ == pre.projects@.update(pi, post.projects@[pi])
    &&& post.profiles@ == pre.profiles@
    &&& post.memberships@ == pre.memberships@
    &&& post.endorsements@ == pre.endorsements@
    &&& post.gigs@ == pre.gigs@
    &&& post.wallets@ == pre.wallets@
}

/// Removing a guild that no membership references keeps the store
/// well-formed.
pub proof fn lemma_wf_remove_guild(pre: Ledger, post: Ledger, i: int)
    requires
        pre.wf(),
        0 <= i < pre.guilds@.len(),
        count_guild_members(pre.memberships@, pre.guilds@[i].authority, pre.guilds@[i].name@) == 0,
        post.guilds@ == pre.guilds@.remove(i),
        post.profiles@ == pre.profiles@,
        post.memberships@ == pre.memberships@,
        post.projects@ == pre.projects@,
        post.endorsements@ == pre.endorsements@,
        post.gigs@ == pre.gigs@,
        post.wallets@ == pre.wallets@,
    ensures
        post.wf(),
{
    assert forall|j: int|
        0 <= j < pre.memberships@.len() implies !membership_in_guild(
        #[trigger] pre.memberships@[j],
        pre.guilds@[i].authority,
        pre.guilds@[i].name@,
    ) by {
        if membership_in_guild(pre.memberships@[j], pre.guilds@[i].authority,
        pre.guilds@[i].name@) {
            lemma_count_guild_members_pos(
                pre.memberships@,
                j,
                pre.guilds@[i].authority,
                pre.guilds@[i].name@,
            );
        }
    }
    assert forall|a: int, b: int|
        0 <= a < b < post.guilds@.len() implies !guild_matches(
        #[trigger] post.guilds@[a],
        (#[trigger] post.guilds@[b]).authority,
        post.guilds@[b].name@,
    ) by {
        let a2 = if a < i {
            a
        } else {
            a + 1
        };
        let b2 = if b < i {
            b
        } else {
            b + 1
        };
        assert(post.guilds@[a] == pre.guilds@[a2]);
        assert(post.guilds@[b] == pre.guilds@[b2]);
        assert(!guild_matches(pre.guilds@[a2], pre.guilds@[b2].authority, pre.guilds@[b2].name@));
    }
    assert forall|k: int|
        0 <= k < post.guilds@.len() implies (#[trigger] post.guilds@[k]).member_count
        == count_guild_members(post.memberships@, post.guilds@[k].authority, post.guilds@[k].name@)
        && guild_wf(post.guilds@[k]) by {
        let k2 = if k < i {
            k
        } else {
            k + 1
        };
        assert(post.guilds@[k] == pre.guilds@[k2]);
    }
    assert forall|m: int| #![trigger post.memberships@[m]]
        0 <= m < post.memberships@.len() implies post.guild_exists(
        post.memberships@[m].guild.authority,
        post.memberships@[m].guild.name@,
    ) && post.profile_exists(post.memberships@[m].agent) by {
        assert(pre.memberships@[m] == post.memberships@[m]);
        assert(pre.guild_exists(
            pre.memberships@[m].guild.authority,
            pre.memberships@[m].guild.name@,
        ));
        let gw = choose|g: int|
            0 <= g < pre.guilds@.len() && guild_matches(
                #[trigger] pre.guilds@[g],
                pre.memberships@[m].guild.authority,
                pre.memberships@[m].guild.name@,
            );
        assert(gw != i);
        let gw2 = if gw < i {
            gw
        } else {
            gw - 1
        };
        assert(post.guilds@[gw2] == pre.guilds@[gw]);
        assert(guild_matches(post.guilds@[gw2], post.memberships@[m].guild.authority,
        post.memberships@[m].guild.name@));
        assert(pre.profile_exists(pre.memberships@[m].agent));
        let pw = choose|p: int|
            0 <= p < pre.profiles@.len() && profile_matches(
                #[trigger] pre.profiles@[p],
                pre.memberships@[m].agent,
            );
        assert(profile_matches(post.profiles@[pw], post.memberships@[m].agent));
    }
}

/// Joining: appending a membership while raising the counted guild's
/// member count and the counted profile's guild count by one keeps the
/// store well-formed.
pub proof fn lemma_wf_join(pre: Ledger, post: Ledger, gi: int, pi: int)
    requires
        pre.wf(),
        0 <= gi < pre.guilds@.len(),
        0 <= pi < pre.profiles@.len(),
        post.memberships@.len() == pre.memberships@.len() + 1,
        post.memberships@ == pre.memberships@.push(post.memberships@.last()),
        post.memberships@.last().guild.authority == pre.guilds@[gi].authority,
        post.memberships@.last().guild.name@ == pre.guilds@[gi].name@,
        post.memberships@.last().agent == pre.profiles@[pi].owner,
        membership_wf(post.memberships@.last()),
        forall|j: int|
            0 <= j < pre.memberships@.len() ==> !membership_matches(
                #[trigger] pre.memberships@[j],
                pre.guilds@[gi].authority,
                pre.guilds@[gi].name@,
                pre.profiles@[pi].owner,
            ),
        post.guilds@ == pre.guilds@.update(gi, post.guilds@[gi]),
        post.guilds@[gi].authority == pre.guilds@[gi].authority,
        post.guilds@[gi].name@ == pre.guilds@[gi].name@,
        post.guilds@[gi].member_count == pre.guilds@[gi].member_count + 1,
        guild_wf(post.guilds@[gi]),
        post.profiles@ == pre.profiles@.update(pi, post.profiles@[pi]),
        post.profiles@[pi].owner == pre.profiles@[pi].owner,
        post.profiles@[pi].guild_count == pre.profiles@[pi].guild_count + 1,
        profile_wf(post.profiles@[pi]),
        post.projects@ == pre.projects@,
        post.endorsements@ == pre.endorsements@,
        post.gigs@ == pre.gigs@,
        post.wallets@ == pre.wallets@,
    ensures
        post.wf(),
{
    let m = post.memberships@.last();
    let ga = pre.guilds@[gi].authority;
    let gn = pre.guilds@[gi].name@;
    let owner = pre.profiles@[pi].owner;
    assert forall|a: int, b: int|
        0 <= a < b < post.memberships@.len() implies !membership_matches(
        #[trigger] post.memberships@[a],
        (#[trigger] post.memberships@[b]).guild.authority,
        post.memberships@[b].guild.name@,
        post.memberships@[b].agent,
    ) by {
        assert(post.memberships@[a] == pre.memberships@[a]);
        if b < pre.memberships@.len() {
            assert(post.memberships@[b] == pre.memberships@[b]);
        } else {
            assert(post.memberships@[b] == m);
            assert(!membership_matches(pre.memberships@[a], ga, gn, owner));
        }
    }
    assert forall|a: int, b: int|
        0 <= a < b < post.guilds@.len() implies !guild_matches(
        #[trigger] post.guilds@[a],
        (#[trigger] post.guilds@[b]).authority,
        post.guilds@[b].name@,
    ) by {
        assert(!guild_matches(pre.guilds@[a], pre.guilds@[b].authority, pre.guilds@[b].name@));
        assert(post.guilds@[a].authority == pre.guilds@[a].authority && post.guilds@[a].name@
            == pre.guilds@[a].name@);
        assert(post.guilds@[b].authority == pre.guilds@[b].authority && post.guilds@[b].name@
            == pre.guilds@[b].name@);
    }
    assert forall|a: int, b: int|
        0 <= a < b < post.profiles@.len() implies (#[trigger] post.profiles@[a]).owner != (
    #[trigger] post.profiles@[b]).owner by {
        assert(pre.profiles@[a].owner != pre.profiles@[b].owner);
        assert(post.profiles@[a].owner == pre.profiles@[a].owner);
        assert(post.profiles@[b].owner == pre.profiles@[b].owner);
    }
    assert forall|k: int|
        0 <= k < post.guilds@.len() implies (#[trigger] post.guilds@[k]).member_count
        == count_guild_members(post.memberships@, post.guilds@[k].authority, post.guilds@[k].name@)
        by {
        lemma_count_guild_members_push(
            pre.memberships@,
            m,
            post.guilds@[k].authority,
            post.guilds@[k].name@,
        );
        if k == gi {
            assert(membership_in_guild(m, post.guilds@[k].authority, post.guilds@[k].name@));
        } else {
            assert(post.guilds@[k] == pre.guilds@[k]);
            if membership_in_guild(m, post.guilds@[k].authority, post.guilds@[k].name@) {
                if k < gi {
                    assert(guild_matches(pre.guilds@[k], pre.guilds@[gi].authority,
                    pre.guilds@[gi].name@));
                } else {
                    assert(guild_matches(pre.guilds@[gi], pre.guilds@[k].authority,
                    pre.guilds@[k].name@));
                }
                assert(false);
            }
        }
    }
    assert forall|k: int|
        0 <= k < post.profiles@.len() implies (#[trigger] post.profiles@[k]).guild_count
        == count_agent_memberships(post.memberships@, post.profiles@[k].owner) by {
        lemma_count_agent_memberships_push(pre.memberships@, m, post.profiles@[k].owner);
        if k == pi {
            assert(membership_of_agent(m, post.profiles@[k].owner));
        } else {
            assert(post.profiles@[k] == pre.profiles@[k]);
            assert(pre.profiles@[k].owner != owner);
            assert(!membership_of_agent(m, post.profiles@[k].owner));
        }
    }
    assert forall|i: int| #![trigger post.memberships@[i]]
        0 <= i < post.memberships@.len() implies post.guild_exists(
        post.memberships@[i].guild.authority,
        post.memberships@[i].guild.name@,
    ) && post.profile_exists(post.memberships@[i].agent) by {
        if i < pre.memberships@.len() {
            assert(pre.memberships@[i] == post.memberships@[i]);
            assert(pre.guild_exists(
                pre.memberships@[i].guild.authority,
                pre.memberships@[i].guild.name@,
            ));
            let gw = choose|g: int|
                0 <= g < pre.guilds@.len() && guild_matches(
                    #[trigger] pre.guilds@[g],
                    pre.memberships@[i].guild.authority,
                    pre.memberships@[i].guild.name@,
                );
            assert(post.guilds@[gw].authority == pre.guilds@[gw].authority
                && post.guilds@[gw].name@ == pre.guilds@[gw].name@);
            assert(guild_matches(post.guilds@[gw], post.memberships@[i].guild.authority,
            post.memberships@[i].guild.name@));
            assert(pre.profile_exists(pre.memberships@[i].agent));
            let pw = choose|p: int|
                0 <= p < pre.profiles@.len() && profile_matches(
                    #[trigger] pre.profiles@[p],
                    pre.memberships@[i].agent,
                );
            assert(post.profiles@[pw].owner == pre.profiles@[pw].owner);
            assert(profile_matches(post.profiles@[pw], post.memberships@[i].agent));
        } else {
            assert(post.memberships@[i] == m);
            assert(guild_matches(post.guilds@[gi], m.guild.authority, m.guild.name@));
            assert(profile_matches(post.profiles@[pi], m.agent));
        }
    }
    assert forall|k: int|
        0 <= k < post.memberships@.len() implies membership_wf(#[trigger] post.memberships@[k]) by {
        if k < pre.memberships@.len() {
            assert(post.memberships@[k] == pre.memberships@[k]);
        }
    }
    assert forall|k: int|
        0 <= k < post.guilds@.len() implies guild_wf(#[trigger] post.guilds@[k]) by {
        if k != gi {
            assert(post.guilds@[k] == pre.guilds@[k]);
        }
    }
    assert forall|k: int|
        0 <= k < post.profiles@.len() implies profile_wf(#[trigger] post.profiles@[k]) by {
        if k != pi {
            assert(post.profiles@[k] == pre.profiles@[k]);
        }
    }
}

/// Leaving: removing a membership while lowering the counted guild's
/// member count and the counted profile's guild count by one keeps the
/// store well-formed.
pub proof fn lemma_wf_leave(pre: Ledger, post: Ledger, gi: int, pi: int, mi: int)
    requires
        pre.wf(),
        0 <= gi < pre.guilds@.len(),
        0 <= pi < pre.profiles@.len(),
        0 <= mi < pre.memberships@.len(),
        membership_matches(
            pre.memberships@[mi],
            pre.guilds@[gi].authority,
            pre.guilds@[gi].name@,
            pre.profiles@[pi].owner,
        ),
        post.memberships@ == pre.memberships@.remove(mi),
        post.guilds@ == pre.guilds@.update(gi, post.guilds@[gi]),
        post.guilds@[gi].authority == pre.guilds@[gi].authority,
        post.guilds@[gi].name@ == pre.guilds@[gi].name@,
        post.guilds@[gi].member_count == pre.guilds@[gi].member_count - 1,
        pre.guilds@[gi].member_count >= 1,
        guild_wf(post.guilds@[gi]),
        post.profiles@ == pre.profiles@.update(pi, post.profiles@[pi]),
        post.profiles@[pi].owner == pre.profiles@[pi].owner,
        post.profiles@[pi].guild_count == pre.profiles@[pi].guild_count - 1,
        pre.profiles@[pi].guild_count >= 1,
        profile_wf(post.profiles@[pi]),
        post.projects@ == pre.projects@,
        post.endorsements@ == pre.endorsements@,
        post.gigs@ == pre.gigs@,
        post.wallets@ == pre.wallets@,
    ensures
        post.wf(),
{
    let m = pre.memberships@[mi];
    assert forall|a: int, b: int|
        0 <= a < b < post.memberships@.len() implies !membership_matches(
        #[trigger] post.memberships@[a],
        (#[trigger] post.memberships@[b]).guild.authority,
        post.memberships@[b].guild.name@,
        post.memberships@[b].agent,
    ) by {
        let a2 = if a < mi {
            a
        } else {
            a + 1
        };
        let b2 = if b < mi {
            b
        } else {
            b + 1
        };
        assert(post.memberships@[a] == pre.memberships@[a2]);
        assert(post.memberships@[b] == pre.memberships@[b2]);
        assert(!membership_matches(pre.memberships@[a2], pre.memberships@[b2].guild.authority,
        pre.memberships@[b2].guild.name@, pre.memberships@[b2].agent));
    }
    assert forall|a: int, b: int|
        0 <= a < b < post.guilds@.len() implies !guild_matches(
        #[trigger] post.guilds@[a],
        (#[trigger] post.guilds@[b]).authority,
        post.guilds@[b].name@,
    ) by {
        assert(!guild_matches(pre.guilds@[a], pre.guilds@[b].authority, pre.guilds@[b].name@));
        assert(post.guilds@[a].authority == pre.guilds@[a].authority && post.guilds@[a].name@
            == pre.guilds@[a].name@);
        assert(post.guilds@[b].authority == pre.guilds@[b].authority && post.guilds@[b].name@
            == pre.guilds@[b].name@);
    }
    assert forall|a: int, b: int|
        0 <= a < b < post.profiles@.len() implies (#[trigger] post.profiles@[a]).owner != (
    #[trigger] post.profiles@[b]).owner by {
        assert(pre.profiles@[a].owner != pre.profiles@[b].owner);
        assert(post.profiles@[a].owner == pre.profiles@[a].owner);
        assert(post.profiles@[b].owner == pre.profiles@[b].owner);
    }
    assert forall|k: int|
        0 <= k < post.guilds@.len() implies (#[trigger] post.guilds@[k]).member_count
        == count_guild_members(post.memberships@, post.guilds@[k].authority, post.guilds@[k].name@)
        by {
        lemma_count_guild_members_remove(
            pre.memberships@,
            mi,
            post.guilds@[k].authority,
            post.guilds@[k].name@,
        );
        if k == gi {
            assert(membership_in_guild(m, post.guilds@[k].authority, post.guilds@[k].name@));
        } else {
            assert(post.guilds@[k] == pre.guilds@[k]);
            if membership_in_guild(m, post.guilds@[k].authority, post.guilds@[k].name@) {
                if k < gi {
                    assert(guild_matches(pre.guilds@[k], pre.guilds@[gi].authority,
                    pre.guilds@[gi].name@));
                } else {
                    assert(guild_matches(pre.guilds@[gi], pre.guilds@[k].authority,
                    pre.guilds@[k].name@));
                }
                assert(false);
            }
        }
    }
    assert forall|k: int|
        0 <= k < post.profiles@.len() implies (#[trigger] post.profiles@[k]).guild_count
        == count_agent_memberships(post.memberships@, post.profiles@[k].owner) by {
        lemma_count_agent_memberships_remove(pre.memberships@, mi, post.profiles@[k].owner);
        if k == pi {
            assert(membership_of_agent(m, post.profiles@[k].owner));
        } else {
            assert(post.profiles@[k] == pre.profiles@[k]);
            assert(pre.profiles@[k].owner != pre.profiles@[pi].owner);
            assert(!membership_of_agent(m, post.profiles@[k].owner));
        }
    }
    assert forall|i: int| #![trigger post.memberships@[i]]
        0 <= i < post.memberships@.len() implies post.guild_exists(
        post.memberships@[i].guild.authority,
        post.memberships@[i].guild.name@,
    ) && post.profile_exists(post.memberships@[i].agent) by {
        let i2 = if i < mi {
            i
        } else {
            i + 1
        };
        assert(post.memberships@[i] == pre.memberships@[i2]);
        assert(pre.guild_exists(
            pre.memberships@[i2].guild.authority,
            pre.memberships@[i2].guild.name@,
        ));
        let gw = choose|g: int|
            0 <= g < pre.guilds@.len() && guild_matches(
                #[trigger] pre.guilds@[g],
                pre.memberships@[i2].guild.authority,
                pre.memberships@[i2].guild.name@,
            );
        assert(post.guilds@[gw].authority == pre.guilds@[gw].authority && post.guilds@[gw].name@
            == pre.guilds@[gw].name@);
        assert(guild_matches(post.guilds@[gw], post.memberships@[i].guild.authority,
        post.memberships@[i].guild.name@));
        assert(pre.profile_exists(pre.memberships@[i2].agent));
        let pw = choose|p: int|
            0 <= p < pre.profiles@.len() && profile_matches(
                #[trigger] pre.profiles@[p],
                pre.memberships@[i2].agent,
            );
        assert(post.profiles@[pw].owner == pre.profiles@[pw].owner);
        assert(profile_matches(post.profiles@[pw], post.memberships@[i].agent));
    }
    assert forall|k: int|
        0 <= k < post.memberships@.len() implies membership_wf(#[trigger] post.memberships@[k]) by {
        let k2 = if k < mi {
            k
        } else {
            k + 1
        };
        assert(post.memberships@[k] == pre.memberships@[k2]);
    }
    assert forall|k: int|
        0 <= k < post.guilds@.len() implies guild_wf(#[trigger] post.guilds@[k]) by {
        if k != gi {
            assert(post.guilds@[k] == pre.guilds@[k]);
        }
    }
    assert forall|k: int|
        0 <= k < post.profiles@.len() implies profile_wf(#[trigger] post.profiles@[k]) by {
        if k != pi {
            assert(post.profiles@[k] == pre.profiles@[k]);
        }
    }
}

/// In every well-formed store — and every operation of [`Ledger`] both
/// requires and re-establishes well-formedness — each guild's
/// `member_count` equals the number of live memberships referencing it,
/// and each profile's `guild_count` equals the number of guilds the agent
/// currently belongs to.
pub proof fn lemma_counters_match_live_records(l: Ledger)
    requires
        l.wf(),
    ensures
        forall|gi: int|
            0 <= gi < l.guilds@.len() ==> (#[trigger] l.guilds@[gi]).member_count
                == count_guild_members(l.memberships@, l.guilds@[gi].authority, l.guilds@[gi].name@),
        forall|pi: int|
            0 <= pi < l.profiles@.len() ==> (#[trigger] l.profiles@[pi]).guild_count
                == count_agent_memberships(l.memberships@, l.profiles@[pi].owner),
{
}

/// Leaving a guild directly after joining it restores the guild's member
/// count and the profile's guild count to their pre-join values, and adds
/// the reputation recorded on the membership to the agent's score.
///
/// `l0` is the store before the join, `l1` the store after it, and `l2`
/// the store after the leave; the hypotheses state exactly what the
/// `ensures` of a successful `join_guild` and a successful `leave_guild`
/// of that same membership guarantee about those stores.
pub proof fn lemma_join_then_leave_round_trip(
    l0: Ledger,
    l1: Ledger,
    l2: Ledger,
    gi: int,
    pi: int,
    mi: int,
)
    requires
        0 <= gi < l0.guilds@.len(),
        0 <= pi < l0.profiles@.len(),
        l1.guilds@ == l0.guilds@.update(gi, l1.guilds@[gi]),
        l1.guilds@[gi].member_count == l0.guilds@[gi].member_count + 1,
        l1.profiles@ == l0.profiles@.update(pi, l1.profiles@[pi]),
        l1.profiles@[pi].guild_count == l0.profiles@[pi].guild_count + 1,
        l1.profiles@[pi].reputation_score == l0.profiles@[pi].reputation_score,
        0 <= mi < l1.memberships@.len(),
        l2.guilds@ == l1.guilds@.update(gi, l2.guilds@[gi]),
        l2.guilds@[gi].member_count == l1.guilds@[gi].member_count - 1,
        l2.profiles@ == l1.profiles@.update(pi, l2.profiles@[pi]),
        l2.profiles@[pi].guild_count == l1.profiles@[pi].guild_count - 1,
        l2.profiles@[pi].reputation_score == l1.profiles@[pi].reputation_score
            + l1.memberships@[mi].reputation_earned,
    ensures
        l2.guilds@[gi].member_count == l0.guilds@[gi].member_count,
        l2.profiles@[pi].guild_count == l0.profiles@[pi].guild_count,
        l2.profiles@[pi].reputation_score == l0.profiles@[pi].reputation_score
            + l1.memberships@[mi].reputation_earned,
{
}

/// Finds the entry of `owner` in a wallet list.
pub fn find_wallet_entry(ws: &Vec<Wallet>, owner: u64) -> (r: Option<usize>)
    ensures
        match r {
            Some(i) => i < ws@.len() && wallet_matches(ws@[i as int], owner),
            None => forall|j: int| 0 <= j < ws@.len() ==> !wallet_matches(#[trigger] ws@[j], owner),
        },
{
    let mut k: usize = 0;
    while k < ws.len()
        invariant
            k <= ws@.len(),
            forall|j: int| 0 <= j < k ==> !wallet_matches(#[trigger] ws@[j], owner),
        decreases ws@.len() - k,
    {
        if ws[k].owner == owner {
            return Some(k);
        }
        k = k + 1;
    }
    None
}

/// Copies a wallet list entry for entry.
pub fn copy_wallets(ws: &Vec<Wallet>) -> (r: Vec<Wallet>)
    ensures
        r@ == ws@,
{
    let mut out: Vec<Wallet> = Vec::new();
    let mut k: usize = 0;
    while k < ws.len()
        invariant
            k <= ws@.len(),
            out@ == ws@.subrange(0, k as int),
        decreases ws@.len() - k,
    {
        out.push(ws[k]);
        proof {
            assert(out@ =~= ws@.subrange(0, k as int + 1));
        }
        k = k + 1;
    }
    proof {
        assert(out@ =~= ws@);
    }
    out
}

/// The keyed record store of the ledger core.
pub struct Ledger {
    pub profiles: Vec<AgentProfile>,
    pub guilds: Vec<Guild>,
    pub memberships: Vec<Membership>,
    pub projects: Vec<Project>,
    pub endorsements: Vec<Endorsement>,
    pub gigs: Vec<Gig>,
    /// Native balances of plain wallet addresses the core observes.
    pub wallets: Vec<Wallet>,
}

impl Ledger {
    /// At most one record per derived address, in every collection.
    pub open spec fn keys_unique(self) -> bool {
        &&& forall|i: int, j: int|
            0 <= i < j < self.profiles@.len() ==> (#[trigger] self.profiles@[i]).owner != (
            #[trigger] self.profiles@[j]).owner
        &&& forall|i: int, j: int|
            0 <= i < j < self.guilds@.len() ==> !guild_matches(
                #[trigger] self.guilds@[i],
                (#[trigger] self.guilds@[j]).authority,
                self.guilds@[j].name@,
            )
        &&& forall|i: int, j: int|
            0 <= i < j < self.memberships@.len() ==> !membership_matches(
                #[trigger] self.memberships@[i],
                (#[trigger] self.memberships@[j]).guild.authority,
                self.memberships@[j].guild.name@,
                self.memberships@[j].agent,
            )
        &&& forall|i: int, j: int|
            0 <= i < j < self.projects@.len() ==> !project_matches(
                #[trigger] self.projects@[i],
                (#[trigger] self.projects@[j]).guild.authority,
                self.projects@[j].guild.name@,
                self.projects@[j].name@,
            )
        &&& forall|i: int, j: int|
            0 <= i < j < self.endorsements@.len() ==> !endorsement_matches(
                #[trigger] self.endorsements@[i],
                (#[trigger] self.endorsements@[j]).from_agent,
                self.endorsements@[j].to_agent,
                self.endorsements@[j].skill@,
            )
        &&& forall|i: int, j: int|
            0 <= i < j < self.gigs@.len() ==> (#[trigger] self.gigs@[i]).name@ != (
            #[trigger] self.gigs@[j]).name@
        &&& forall|i: int, j: int|
            0 <= i < j < self.wallets@.len() ==> (#[trigger] self.wallets@[i]).owner != (
            #[trigger] self.wallets@[j]).owner
    }

    /// Every counter equals the number of live records it counts.
    pub open spec fn counts_consistent(self) -> bool {
        &&& forall|i: int|
            0 <= i < self.guilds@.len() ==> (#[trigger] self.guilds@[i]).member_count
                == count_guild_members(
                self.memberships@,
                self.guilds@[i].authority,
                self.guilds@[i].name@,
            )
        &&& forall|i: int|
            0 <= i < self.profiles@.len() ==> (#[trigger] self.profiles@[i]).guild_count
                == count_agent_memberships(self.memberships@, self.profiles@[i].owner)
    }

    /// Does a guild record live at the derived address of
    /// `(authority, name)`?
    pub open spec fn guild_exists(self, authority: u64, name: Seq<char>) -> bool {
        exists|g: int|
            0 <= g < self.guilds@.len() && guild_matches(#[trigger] self.guilds@[g], authority, name)
    }

    /// Does a profile record live at the derived address of `owner`?
    pub open spec fn profile_exists(self, owner: u64) -> bool {
        exists|p: int|
            0 <= p < self.profiles@.len() && profile_matches(#[trigger] self.profiles@[p], owner)
    }

    /// Every membership links an existing guild to an existing profile.
    pub open spec fn memberships_linked(self) -> bool {
        forall|i: int| #![trigger self.memberships@[i]]
            0 <= i < self.memberships@.len() ==> {
                &&& self.guild_exists(
                    self.memberships@[i].guild.authority,
                    self.memberships@[i].guild.name@,
                )
                &&& self.profile_exists(self.memberships@[i].agent)
            }
    }

    /// Every stored record obeys its field bounds.
    pub open spec fn records_wf(self) -> bool {
        &&& forall|i: int| 0 <= i < self.profiles@.len() ==> profile_wf(#[trigger] self.profiles@[i])
        &&& forall|i: int| 0 <= i < self.guilds@.len() ==> guild_wf(#[trigger] self.guilds@[i])
        &&& forall|i: int|
            0 <= i < self.memberships@.len() ==> membership_wf(#[trigger] self.memberships@[i])
        &&& forall|i: int| 0 <= i < self.projects@.len() ==> project_wf(#[trigger] self.projects@[i])
        &&& forall|i: int|
            0 <= i < self.endorsements@.len() ==> endorsement_wf(#[trigger] self.endorsements@[i])
        &&& forall|i: int| 0 <= i < self.gigs@.len() ==> gig_wf(#[trigger] self.gigs@[i])
    }

    /// Well-formedness of the whole store: unique addressing, counters in
    /// step with the records they count, memberships linking existing
    /// records, and every record within its field bounds.
    pub open spec fn wf(self) -> bool {
        &&& self.keys_unique()
        &&& self.counts_consistent()
        &&& self.memberships_linked()
        &&& self.records_wf()
    }

    /// An empty store, well-formed from the start.
    pub fn new() -> (r: Ledger)
        ensures
            r.wf(),
            r.profiles@.len() == 0,
            r.guilds@.len() == 0,
            r.memberships@.len() == 0,
            r.projects@.len() == 0,
            r.endorsements@.len() == 0,
            r.gigs@.len() == 0,
            r.wallets@.len() == 0,
    {
        Ledger {
            profiles: Vec::new(),
            guilds: Vec::new(),
            memberships: Vec::new(),
            projects: Vec::new(),
            endorsements: Vec::new(),
            gigs: Vec::new(),
            wallets: Vec::new(),
        }
    }

    /// Finds the guild at the derived address of `(authority, name)`.
    pub fn find_guild(&self, authority: u64, name: &String) -> (r: Option<usize>)
        ensures
            match r {
                Some(i) => i < self.guilds@.len() && guild_matches(
                    self.guilds@[i as int],
                    authority,
                    name@,
                ),
                None => forall|j: int|
                    0 <= j < self.guilds@.len() ==> !guild_matches(
                        #[trigger] self.guilds@[j],
                        authority,
                        name@,
                    ),
            },
    {
        let mut k: usize = 0;
        while k < self.guilds.len()
            invariant
                k <= self.guilds@.len(),
                forall|j: int|
                    0 <= j < k ==> !guild_matches(#[trigger] self.guilds@[j], authority, name@),
            decreases self.guilds@.len() - k,
        {
            if self.guilds[k].authority == authority && self.guilds[k].name == *name {
                return Some(k);
            }
            k = k + 1;
        }
        None
    }

    /// Finds the profile at the derived address of `owner`.
    pub fn find_profile(&self, owner: u64) -> (r: Option<usize>)
        ensures
            match r {
                Some(i) => i < self.profiles@.len() && profile_matches(
                    self.profiles@[i as int],
                    owner,
                ),
                None => forall|j: int|
                    0 <= j < self.profiles@.len() ==> !profile_matches(
                        #[trigger] self.profiles@[j],
                        owner,
                    ),
            },
    {
        let mut k: usize = 0;
        while k < self.profiles.len()
            invariant
                k <= self.profiles@.len(),
                forall|j: int| 0 <= j < k ==> !profile_matches(#[trigger] self.profiles@[j], owner),
            decreases self.profiles@.len() - k,
        {
            if self.profiles[k].owner == owner {
                return Some(k);
            }
            k = k + 1;
        }
        None
    }

    /// Finds the membership at the derived address of `(ga, gn, agent)`.
    pub fn find_membership(&self, ga: u64, gn: &String, agent: u64) -> (r: Option<usize>)
        ensures
            match r {
                Some(i) => i < self.memberships@.len() && membership_matches(
                    self.memberships@[i as int],
                    ga,
                    gn@,
                    agent,
                ),
                None => forall|j: int|
                    0 <= j < self.memberships@.len() ==> !membership_matches(
                        #[trigger] self.memberships@[j],
                        ga,
                        gn@,
                        agent,
                    ),
            },
    {
        let mut k: usize = 0;
        while k < self.memberships.len()
            invariant
                k <= self.memberships@.len(),
                forall|j: int|
                    0 <= j < k ==> !membership_matches(
                        #[trigger] self.memberships@[j],
                        ga,
                        gn@,
                        agent,
                    ),
            decreases self.memberships@.len() - k,
        {
            let m = &self.memberships[k];
            if m.guild.authority == ga && m.guild.name == *gn && m.agent == agent {
                return Some(k);
            }
            k = k + 1;
        }
        None
    }

    /// Finds the project at the derived address of `(ga, gn, name)`.
    pub fn find_project(&self, ga: u64, gn: &String, name: &String) -> (r: Option<usize>)
        ensures
            match r {
                Some(i) => i < self.projects@.len() && project_matches(
                    self.projects@[i as int],
                    ga,
                    gn@,
                    name@,
                ),
                None => forall|j: int|
                    0 <= j < self.projects@.len() ==> !project_matches(
                        #[trigger] self.projects@[j],
                        ga,
                        gn@,
                        name@,
                    ),
            },
    {
        let mut k: usize = 0;
        while k < self.projects.len()
            invariant
                k <= self.projects@.len(),
                forall|j: int|
                    0 <= j < k ==> !project_matches(#[trigger] self.projects@[j], ga, gn@, name@),
            decreases self.projects@.len() - k,
        {
            let p = &self.projects[k];
            if p.guild.authority == ga && p.guild.name == *gn && p.name == *name {
                return Some(k);
            }
            k = k + 1;
        }
        None
    }

    /// Finds the endorsement at the derived address of `(from, to, skill)`.
    pub fn find_endorsement(&self, from: u64, to: u64, skill: &String) -> (r: Option<usize>)
        ensures
            match r {
                Some(i) => i < self.endorsements@.len() && endorsement_matches(
                    self.endorsements@[i as int],
                    from,
                    to,
                    skill@,
                ),
                None => forall|j: int|
                    0 <= j < self.endorsements@.len() ==> !endorsement_matches(
                        #[trigger] self.endorsements@[j],
                        from,
                        to,
                        skill@,
                    ),
            },
    {
        let mut k: usize = 0;
        while k < self.endorsements.len()
            invariant
                k <= self.endorsements@.len(),
                forall|j: int|
                    0 <= j < k ==> !endorsement_matches(
                        #[trigger] self.endorsements@[j],
                        from,
                        to,
                        skill@,
                    ),
            decreases self.endorsements@.len() - k,
        {
            let e = &self.endorsements[k];
            if e.from_agent == from && e.to_agent == to && e.skill == *skill {
                return Some(k);
            }
            k = k + 1;
        }
        None
    }

    /// Finds the gig at the derived address of `name`.
    pub fn find_gig(&self, name: &String) -> (r: Option<usize>)
        ensures
            match r {
                Some(i) => i < self.gigs@.len() && gig_matches(self.gigs@[i as int], name@),
                None => forall|j: int|
                    0 <= j < self.gigs@.len() ==> !gig_matches(#[trigger] self.gigs@[j], name@),
            },
    {
        let mut k: usize = 0;
        while k < self.gigs.len()
            invariant
                k <= self.gigs@.len(),
                forall|j: int| 0 <= j < k ==> !gig_matches(#[trigger] self.gigs@[j], name@),
            decreases self.gigs@.len() - k,
        {
            if self.gigs[k].name == *name {
                return Some(k);
            }
            k = k + 1;
        }
        None
    }

    /// Finds the wallet entry of `owner`.
    pub fn find_wallet(&self, owner: u64) -> (r: Option<usize>)
        ensures
            match r {
                Some(i) => i < self.wallets@.len() && wallet_matches(self.wallets@[i as int], owner),
                None => forall|j: int|
                    0 <= j < self.wallets@.len() ==> !wallet_matches(
                        #[trigger] self.wallets@[j],
                        owner,
                    ),
            },
    {
        let mut k: usize = 0;
        while k < self.wallets.len()
            invariant
                k <= self.wallets@.len(),
                forall|j: int| 0 <= j < k ==> !wallet_matches(#[trigger] self.wallets@[j], owner),
            decreases self.wallets@.len() - k,
        {
            if self.wallets[k].owner == owner {
                return Some(k);
            }
            k = k + 1;
        }
        None
    }

    /// Creates the profile of `owner`, with zeroed counters and the agent
    /// available. The record's address is derived from `owner` alone, so a
    /// second profile for the same owner collides.
    #[verifier::loop_isolation(false)]
    pub fn initialize_agent_profile(
        &mut self,
        owner: u64,
        handle: String,
        bio: String,
        skills: Vec<String>,
    ) -> (r: Result<(), MoltGuildError>)
        requires
            old(self).wf(),
        ensures
            final(self).wf(),
            r is Err ==> *final(self) == *old(self),
            r == Err::<(), MoltGuildError>(MoltGuildError::HandleTooLong) <==> handle@.len()
                > MAX_HANDLE_LEN,
            r == Err::<(), MoltGuildError>(MoltGuildError::BioTooLong) <==> handle@.len()
                <= MAX_HANDLE_LEN && bio@.len() > MAX_BIO_LEN,
            r == Err::<(), MoltGuildError>(MoltGuildError::TooManySkills) <==> handle@.len()
                <= MAX_HANDLE_LEN && bio@.len() <= MAX_BIO_LEN && skills@.len() > MAX_SKILLS,
            r == Err::<(), MoltGuildError>(MoltGuildError::SkillTooLong) <==> handle@.len()
                <= MAX_HANDLE_LEN && bio@.len() <= MAX_BIO_LEN && skills@.len() <= MAX_SKILLS && (
            exists|i: int|
                0 <= i < skills@.len() && (#[trigger] skills@[i])@.len() > MAX_SKILL_LEN),
            r == Err::<(), MoltGuildError>(MoltGuildError::AlreadyExists) <==> handle@.len()
                <= MAX_HANDLE_LEN && bio@.len() <= MAX_BIO_LEN && skills@.len() <= MAX_SKILLS && (
            forall|i: int| 0 <= i < skills@.len() ==> (#[trigger] skills@[i])@.len()
                <= MAX_SKILL_LEN) && (exists|j: int|
                0 <= j < old(self).profiles@.len() && profile_matches(
                    #[trigger] old(self).profiles@[j],
                    owner,
                )),
            r is Ok <==> handle@.len() <= MAX_HANDLE_LEN && bio@.len() <= MAX_BIO_LEN
                && skills@.len() <= MAX_SKILLS && (forall|i: int|
                0 <= i < skills@.len() ==> (#[trigger] skills@[i])@.len() <= MAX_SKILL_LEN) && (
            forall|j: int|
                0 <= j < old(self).profiles@.len() ==> !profile_matches(
                    #[trigger] old(self).profiles@[j],
                    owner,
                )),
            r is Ok ==> final(self).profiles@ == old(self).profiles@.push(
                (AgentProfile {
                    owner,
                    handle,
                    bio,
                    skills,
                    guild_count: 0,
                    project_count: 0,
                    reputation_score: 0,
                    availability: Availability::Available,
                }),
            ),
            r is Ok ==> final(self).guilds@ == old(self).guilds@
                && final(self).memberships@ == old(self).memberships@
                && final(self).projects@ == old(self).projects@
                && final(self).endorsements@ == old(self).endorsements@
                && final(self).gigs@ == old(self).gigs@
                && final(self).wallets@ == old(self).wallets@,
    {
        if !char_len_at_most(&handle, MAX_HANDLE_LEN) {
            return Err(MoltGuildError::HandleTooLong);
        }
        if !char_len_at_most(&bio, MAX_BIO_LEN) {
            return Err(MoltGuildError::BioTooLong);
        }
        if skills.len() > MAX_SKILLS {
            return Err(MoltGuildError::TooManySkills);
        }
        let mut k: usize = 0;
        while k < skills.len()
            invariant
                k <= skills@.len(),
                forall|i: int| 0 <= i < k ==> (#[trigger] skills@[i])@.len() <= MAX_SKILL_LEN,
            decreases skills@.len() - k,
        {
            if !char_len_at_most(&skills[k], MAX_SKILL_LEN) {
                return Err(MoltGuildError::SkillTooLong);
            }
            k = k + 1;
        }
        if self.find_profile(owner).is_some() {
            return Err(MoltGuildError::AlreadyExists);
        }
        let record = AgentProfile {
            owner,
            handle,
            bio,
            skills,
            guild_count: 0,
            project_count: 0,
            reputation_score: 0,
            availability: Availability::Available,
        };
        self.profiles.push(record);
        proof {
            lemma_wf_push_profile(*old(self), *self, self.profiles@.last());
        }
        Ok(())
    }

    /// Creates a guild for `authority`, with zero counters, no token gate,
    /// an empty treasury at the guild's derived treasury address, and an
    /// empty prize-split list. The record's address is derived from
    /// `(authority, name)`, so the same authority reusing a name collides.
    #[verifier::loop_isolation(false)]
    pub fn create_guild(
        &mut self,
        authority: u64,
        name: String,
        description: String,
        visibility: GuildVisibility,
        contact: Option<String>,
    ) -> (r: Result<(), MoltGuildError>)
        requires
            old(self).wf(),
        ensures
            final(self).wf(),
            r is Err ==> *final(self) == *old(self),
            r == Err::<(), MoltGuildError>(MoltGuildError::GuildNameTooLong) <==> name@.len()
                > MAX_NAME_LEN,
            r == Err::<(), MoltGuildError>(MoltGuildError::GuildDescriptionTooLong) <==> name@.len()
                <= MAX_NAME_LEN && description@.len() > MAX_DESC_LEN,
            r == Err::<(), MoltGuildError>(MoltGuildError::ContactTooLong) <==> name@.len()
                <= MAX_NAME_LEN && description@.len() <= MAX_DESC_LEN && (contact matches Some(c)
                && c@.len() > MAX_CONTACT_LEN),
            r == Err::<(), MoltGuildError>(MoltGuildError::AlreadyExists) <==> name@.len()
                <= MAX_NAME_LEN && description@.len() <= MAX_DESC_LEN && !(contact matches Some(c)
                && c@.len() > MAX_CONTACT_LEN) && (exists|j: int|
                0 <= j < old(self).guilds@.len() && guild_matches(
                    #[trigger] old(self).guilds@[j],
                    authority,
                    name@,
                )),
            r is Ok <==> name@.len() <= MAX_NAME_LEN && description@.len() <= MAX_DESC_LEN && !(
            contact matches Some(c) && c@.len() > MAX_CONTACT_LEN) && (forall|j: int|
                0 <= j < old(self).guilds@.len() ==> !guild_matches(
                    #[trigger] old(self).guilds@[j],
                    authority,
                    name@,
                )),
            r is Ok ==> final(self).guilds@.len() == old(self).guilds@.len() + 1
                && final(self).guilds@.drop_last() == old(self).guilds@,
            r is Ok ==> ({
                let g = final(self).guilds@.last();
                &&& g.authority == authority
                &&& g.name == name
                &&& g.description == description
                &&& g.member_count == 0
                &&& g.project_count == 0
                &&& g.reputation_score == 0
                &&& g.visibility == visibility
                &&& g.token_mint is None
                &&& g.gig is None
                &&& g.treasury_balance == 0
                &&& g.prize_splits@.len() == 0
                &&& (match contact {
                    Some(c) => g.contact == c,
                    None => g.contact@.len() == 0,
                })
                &&& g.submission_link is None
            }),
            r is Ok ==> final(self).profiles@ == old(self).profiles@
                && final(self).memberships@ == old(self).memberships@
                && final(self).projects@ == old(self).projects@
                && final(self).endorsements@ == old(self).endorsements@
                && final(self).gigs@ == old(self).gigs@
                && final(self).wallets@ == old(self).wallets@,
    {
        if !char_len_at_most(&name, MAX_NAME_LEN) {
            return Err(MoltGuildError::GuildNameTooLong);
        }
        if !char_len_at_most(&description, MAX_DESC_LEN) {
            return Err(MoltGuildError::GuildDescriptionTooLong);
        }
        let contact_value: String = match contact {
            Some(c) => {
                if !char_len_at_most(&c, MAX_CONTACT_LEN) {
                    return Err(MoltGuildError::ContactTooLong);
                }
                c
            }
            None => String::new(),
        };
        if self.find_guild(authority, &name).is_some() {
            return Err(MoltGuildError::AlreadyExists);
        }
        let record = Guild {
            authority,
            name,
            description,
            member_count: 0,
            project_count: 0,
            reputation_score: 0,
            visibility,
            token_mint: None,
            gig: None,
            treasury_balance: 0,
            prize_splits: Vec::new(),
            contact: contact_value,
            submission_link: None,
        };
        self.guilds.push(record);
        proof {
            assert(self.guilds@.drop_last() =~= old(self).guilds@);
            lemma_wf_push_guild(*old(self), *self, self.guilds@.last());
        }
        Ok(())
    }

    /// Announces a gig: an inert public record, stored at the address
    /// derived from its name.
    #[verifier::loop_isolation(false)]
    pub fn create_gig(
        &mut self,
        organizer: u64,
        name: String,
        prize_pool: u64,
        deadline: i64,
        submission_url: String,
        now: i64,
    ) -> (r: Result<(), CreateGigError>)
        requires
            old(self).wf(),
        ensures
            final(self).wf(),
            r is Err ==> *final(self) == *old(self),
            r == Err::<(), CreateGigError>(CreateGigError::NameTooLong) <==> name@.len()
                > MAX_GIG_NAME_LEN,
            r == Err::<(), CreateGigError>(CreateGigError::UrlTooLong) <==> name@.len()
                <= MAX_GIG_NAME_LEN && submission_url@.len() > MAX_URL_LEN,
            r == Err::<(), CreateGigError>(CreateGigError::AlreadyExists) <==> name@.len()
                <= MAX_GIG_NAME_LEN && submission_url@.len() <= MAX_URL_LEN && (exists|j: int|
                0 <= j < old(self).gigs@.len() && (#[trigger] old(self).gigs@[j]).name@ == name@),
            r is Ok <==> name@.len() <= MAX_GIG_NAME_LEN && submission_url@.len() <= MAX_URL_LEN
                && (forall|j: int|
                0 <= j < old(self).gigs@.len() ==> (#[trigger] old(self).gigs@[j]).name@ != name@),
            r is Ok ==> final(self).gigs@ == old(self).gigs@.push(
                (Gig {
                    name,
                    organizer,
                    prize_pool,
                    deadline,
                    submission_url,
                    status: GigStatus::Active,
                    created_at: now,
                }),
            ),
            r is Ok ==> final(self).profiles@ == old(self).profiles@
                && final(self).guilds@ == old(self).guilds@
                && final(self).memberships@ == old(self).memberships@
                && final(self).projects@ == old(self).projects@
                && final(self).endorsements@ == old(self).endorsements@
                && final(self).wallets@ == old(self).wallets@,
    {
        if !char_len_at_most(&name, MAX_GIG_NAME_LEN) {
            return Err(CreateGigError::NameTooLong);
        }
        if !char_len_at_most(&submission_url, MAX_URL_LEN) {
            return Err(CreateGigError::UrlTooLong);
        }
        if self.find_gig(&name).is_some() {
            return Err(CreateGigError::AlreadyExists);
        }
        let record = Gig {
            name,
            organizer,
            prize_pool,
            deadline,
            submission_url,
            status: GigStatus::Active,
            created_at: now,
        };
        self.gigs.push(record);
        proof {
            lemma_wf_push_gig(*old(self), *self, self.gigs@.last());
        }
        Ok(())
    }

    /// Records a native transfer of `amount` into the wallet address of
    /// `owner`, as performed by the host runtime outside the core.
    #[verifier::loop_isolation(false)]
    pub fn deposit(&mut self, owner: u64, amount: u64) -> (r: Result<(), MoltGuildError>)
        requires
            old(self).wf(),
        ensures
            final(self).wf(),
            r is Err ==> *final(self) == *old(self),
            r == Err::<(), MoltGuildError>(MoltGuildError::ArithmeticOverflow) <==> wallets_amount(
                old(self).wallets@,
                owner,
            ) + amount > u64::MAX,
            r is Ok <==> wallets_amount(old(self).wallets@, owner) + amount <= u64::MAX,
            r is Ok ==> wallets_amount(final(self).wallets@, owner) == wallets_amount(
                old(self).wallets@,
                owner,
            ) + amount,
            r is Ok ==> forall|o: u64|
                o != owner ==> wallets_amount(final(self).wallets@, o) == wallets_amount(
                    old(self).wallets@,
                    o,
                ),
            final(self).profiles@ == old(self).profiles@
                && final(self).guilds@ == old(self).guilds@
                && final(self).memberships@ == old(self).memberships@
                && final(self).projects@ == old(self).projects@
                && final(self).endorsements@ == old(self).endorsements@
                && final(self).gigs@ == old(self).gigs@,
    {
        match self.find_wallet(owner) {
            Some(i) => {
                let held: u64 = self.wallets[i].amount;
                proof {
                    lemma_wallets_amount_at(self.wallets@, i as int);
                }
                if amount > u64::MAX - held {
                    return Err(MoltGuildError::ArithmeticOverflow);
                }
                let updated = Wallet { owner, amount: held + amount };
                self.wallets[i] = updated;
                proof {
                    assert forall|a: int, b: int|
                        0 <= a < b < self.wallets@.len() implies (#[trigger] self.wallets@[a]).owner
                        != (#[trigger] self.wallets@[b]).owner by {
                        assert(old(self).wallets@[a].owner != old(self).wallets@[b].owner);
                        if a == i as int {
                            assert(self.wallets@[a].owner == old(self).wallets@[a].owner);
                        }
                        if b == i as int {
                            assert(self.wallets@[b].owner == old(self).wallets@[b].owner);
                        }
                    }
                    assert forall|o: u64| true implies wallets_amount(self.wallets@, o)
                        == wallets_amount(old(self).wallets@, o) + if o == owner {
                        amount as int
                    } else {
                        0
                    } by {
                        lemma_wallets_amount_update(old(self).wallets@, i as int, updated, o);
                    }
                    lemma_linked_carry(*old(self), *self);
                }
                Ok(())
            }
            None => {
                proof {
                    lemma_wallets_amount_zero_prefix(self.wallets@, owner);
                }
                let entry = Wallet { owner, amount };
                self.wallets.push(entry);
                proof {
                    assert forall|o: u64| true implies wallets_amount(self.wallets@, o)
                        == wallets_amount(old(self).wallets@, o) + if o == owner {
                        amount as int
                    } else {
                        0
                    } by {
                        lemma_wallets_amount_push(old(self).wallets@, entry, o);
                    }
                    lemma_linked_carry(*old(self), *self);
                    assert forall|a: int, b: int|
                        0 <= a < b < self.wallets@.len() implies (#[trigger] self.wallets@[a]).owner
                        != (#[trigger] self.wallets@[b]).owner by {
                        assert(self.wallets@[a] == old(self).wallets@[a]);
                        if b < old(self).wallets@.len() {
                            assert(self.wallets@[b] == old(self).wallets@[b]);
                        }
                    }
                }
                Ok(())
            }
        }
    }

    /// Replaces the fields of `owner`'s own profile that are present in
    /// the request, each revalidated against the same bounds as creation.
    #[verifier::loop_isolation(false)]
    pub fn update_agent_profile(
        &mut self,
        owner: u64,
        bio: Option<String>,
        skills: Option<Vec<String>>,
        availability: Option<Availability>,
    ) -> (r: Result<(), MoltGuildError>)
        requires
            old(self).wf(),
        ensures
            final(self).wf(),
            r is Err ==> *final(self) == *old(self),
            r == Err::<(), MoltGuildError>(MoltGuildError::NotFound) <==> !old(
                self,
            ).profile_exists(owner),
            r == Err::<(), MoltGuildError>(MoltGuildError::BioTooLong) <==> old(
                self,
            ).profile_exists(owner) && (bio matches Some(b) && b@.len() > MAX_BIO_LEN),
            r == Err::<(), MoltGuildError>(MoltGuildError::TooManySkills) <==> old(
                self,
            ).profile_exists(owner) && !(bio matches Some(b) && b@.len() > MAX_BIO_LEN) && (
            skills matches Some(s) && s@.len() > MAX_SKILLS),
            r == Err::<(), MoltGuildError>(MoltGuildError::SkillTooLong) <==> old(
                self,
            ).profile_exists(owner) && !(bio matches Some(b) && b@.len() > MAX_BIO_LEN) && !(
            skills matches Some(s) && s@.len() > MAX_SKILLS) && (skills matches Some(s) && (
            exists|i: int|
                0 <= i < s@.len() && (#[trigger] s@[i])@.len() > MAX_SKILL_LEN)),
            r is Ok <==> old(self).profile_exists(owner) && (bio matches Some(b) ==> b@.len()
                <= MAX_BIO_LEN) && (skills matches Some(s) ==> s@.len() <= MAX_SKILLS && (forall|
                i: int,
            |
                0 <= i < s@.len() ==> (#[trigger] s@[i])@.len() <= MAX_SKILL_LEN)),
            r is Ok ==> exists|pi: int|
                {
                    &&& 0 <= pi < old(self).profiles@.len()
                    &&& profile_matches(#[trigger] old(self).profiles@[pi], owner)
                    &&& only_profile_changed(*old(self), *final(self), pi)
                    &&& ({
                        let p0 = old(self).profiles@[pi];
                        let p1 = final(self).profiles@[pi];
                        &&& p1.owner == p0.owner
                        &&& p1.handle == p0.handle
                        &&& p1.bio == (match bio {
                            Some(b) => b,
                            None => p0.bio,
                        })
                        &&& p1.skills@ == (match skills {
                            Some(s) => s@,
                            None => p0.skills@,
                        })
                        &&& p1.availability == (match availability {
                            Some(a) => a,
                            None => p0.availability,
                        })
                        &&& p1.guild_count == p0.guild_count
                        &&& p1.project_count == p0.project_count
                        &&& p1.reputation_score == p0.reputation_score
                    })
                },
    {
        let pi = match self.find_profile(owner) {
            Some(i) => i,
            None => {
                return Err(MoltGuildError::NotFound);
            }
        };
        if let Some(ref b) = bio {
            if !char_len_at_most(b, MAX_BIO_LEN) {
                return Err(MoltGuildError::BioTooLong);
            }
        }
        if let Some(ref s) = skills {
            if s.len() > MAX_SKILLS {
                return Err(MoltGuildError::TooManySkills);
            }
            let mut k: usize = 0;
            while k < s.len()
                invariant
                    k <= s@.len(),
                    forall|i: int| 0 <= i < k ==> (#[trigger] s@[i])@.len() <= MAX_SKILL_LEN,
                decreases s@.len() - k,
            {
                if !char_len_at_most(&s[k], MAX_SKILL_LEN) {
                    return Err(MoltGuildError::SkillTooLong);
                }
                k = k + 1;
            }
        }
        let mut p = self.profiles.remove(pi);
        if let Some(b) = bio {
            p.bio = b;
        }
        if let Some(s) = skills {
            p.skills = s;
        }
        if let Some(a) = availability {
            p.availability = a;
        }
        self.profiles.insert(pi, p);
        proof {
            assert(self.profiles@ =~= old(self).profiles@.update(
                pi as int,
                self.profiles@[pi as int],
            ));
            lemma_wf_update_profile(*old(self), *self, pi as int);
            assert(profile_matches(old(self).profiles@[pi as int], owner));
        }
        Ok(())
    }

    /// Records a native transfer of `amount` into the guild's derived
    /// treasury address, as performed by the host runtime outside the
    /// core.
    #[verifier::loop_isolation(false)]
    pub fn fund_treasury(&mut self, authority: u64, name: &String, amount: u64) -> (r: Result<
        (),
        MoltGuildError,
    >)
        requires
            old(self).wf(),
        ensures
            final(self).wf(),
            r is Err ==> *final(self) == *old(self),
            r == Err::<(), MoltGuildError>(MoltGuildError::NotFound) <==> !old(self).guild_exists(
                authority,
                name@,
            ),
            r == Err::<(), MoltGuildError>(MoltGuildError::ArithmeticOverflow) <==> (exists|gi: int|
                0 <= gi < old(self).guilds@.len() && guild_matches(
                    #[trigger] old(self).guilds@[gi],
                    authority,
                    name@,
                ) && old(self).guilds@[gi].treasury_balance + amount > u64::MAX),
            r is Ok <==> (exists|gi: int|
                0 <= gi < old(self).guilds@.len() && guild_matches(
                    #[trigger] old(self).guilds@[gi],
                    authority,
                    name@,
                ) && old(self).guilds@[gi].treasury_balance + amount <= u64::MAX),
            r is Ok ==> exists|gi: int|
                {
                    &&& 0 <= gi < old(self).guilds@.len()
                    &&& guild_matches(#[trigger] old(self).guilds@[gi], authority, name@)
                    &&& only_guild_changed(*old(self), *final(self), gi)
                    &&& ({
                        let g0 = old(self).guilds@[gi];
                        let g1 = final(self).guilds@[gi];
                        &&& g1 == (Guild { treasury_balance: g1.treasury_balance, ..g0 })
                        &&& g1.treasury_balance == g0.treasury_balance + amount
                    })
                },
    {
        let gi = match self.find_guild(authority, name) {
            Some(i) => i,
            None => {
                return Err(MoltGuildError::NotFound);
            }
        };
        let held: u64 = self.guilds[gi].treasury_balance;
        if amount > u64::MAX - held {
            proof {
                assert(guild_matches(old(self).guilds@[gi as int], authority, name@));
            }
            return Err(MoltGuildError::ArithmeticOverflow);
        }
        let mut g = self.guilds.remove(gi);
        g.treasury_balance = held + amount;
        self.guilds.insert(gi, g);
        proof {
            assert(self.guilds@ =~= old(self).guilds@.update(gi as int, self.guilds@[gi as int]));
            lemma_wf_update_guild(*old(self), *self, gi as int);
            assert(guild_matches(old(self).guilds@[gi as int], authority, name@));
        }
        Ok(())
    }

    /// Replaces a guild's prize-split list wholesale. Only the guild's
    /// authority may do so, the percentages must total exactly 100, and
    /// the list must fit the guild's member cap.
    #[verifier::loop_isolation(false)]
    pub fn update_prize_splits(
        &mut self,
        caller: u64,
        authority: u64,
        name: &String,
        prize_splits: Vec<PrizeSplit>,
    ) -> (r: Result<(), ErrorCode>)
        requires
            old(self).wf(),
        ensures
            final(self).wf(),
            r is Err ==> *final(self) == *old(self),
            r == Err::<(), ErrorCode>(ErrorCode::GuildNotFound) <==> !old(self).guild_exists(
                authority,
                name@,
            ),
            r == Err::<(), ErrorCode>(ErrorCode::NotGuildAuthority) <==> old(self).guild_exists(
                authority,
                name@,
            ) && caller != authority,
            r == Err::<(), ErrorCode>(ErrorCode::InvalidPrizeSplits) <==> old(self).guild_exists(
                authority,
                name@,
            ) && caller == authority && crate::rules::splits_total(prize_splits@) != 100,
            r == Err::<(), ErrorCode>(ErrorCode::TooManySplits) <==> old(self).guild_exists(
                authority,
                name@,
            ) && caller == authority && crate::rules::splits_total(prize_splits@) == 100
                && prize_splits@.len() > MAX_MEMBERS,
            r is Ok <==> old(self).guild_exists(authority, name@) && caller == authority
                && crate::rules::splits_total(prize_splits@) == 100 && prize_splits@.len()
                <= MAX_MEMBERS,
            r is Ok ==> exists|gi: int|
                {
                    &&& 0 <= gi < old(self).guilds@.len()
                    &&& guild_matches(#[trigger] old(self).guilds@[gi], authority, name@)
                    &&& only_guild_changed(*old(self), *final(self), gi)
                    &&& ({
                        let g0 = old(self).guilds@[gi];
                        let g1 = final(self).guilds@[gi];
                        &&& g1 == (Guild { prize_splits: g1.prize_splits, ..g0 })
                        &&& g1.prize_splits@ == prize_splits@
                    })
                },
    {
        let gi = match self.find_guild(authority, name) {
            Some(i) => i,
            None => {
                return Err(ErrorCode::GuildNotFound);
            }
        };
        proof {
            assert(guild_matches(old(self).guilds@[gi as int], authority, name@));
        }
        if caller != authority {
            return Err(ErrorCode::NotGuildAuthority);
        }
        let total_ok: bool = match crate::rules::total_percentage(&prize_splits) {
            Some(t) => t == 100,
            None => false,
        };
        if !total_ok {
            return Err(ErrorCode::InvalidPrizeSplits);
        }
        if prize_splits.len() > MAX_MEMBERS {
            return Err(ErrorCode::TooManySplits);
        }
        let mut g = self.guilds.remove(gi);
        g.prize_splits = prize_splits;
        self.guilds.insert(gi, g);
        proof {
            assert(self.guilds@ =~= old(self).guilds@.update(gi as int, self.guilds@[gi as int]));
            lemma_wf_update_guild(*old(self), *self, gi as int);
        }
        Ok(())
    }

    /// Marks an active project completed, records the completion time,
    /// and awards the fixed reputation bonus to the owning guild. The
    /// escrowed funds stay in escrow: paying out is deliberately a
    /// separate, guild-level distribution step.
    #[verifier::loop_isolation(false)]
    pub fn complete_project(
        &mut self,
        caller: u64,
        authority: u64,
        guild_name: &String,
        project_name: &String,
        now: i64,
    ) -> (r: Result<(), MoltGuildError>)
        requires
            old(self).wf(),
        ensures
            final(self).wf(),
            r is Err ==> *final(self) == *old(self),
            r == Err::<(), MoltGuildError>(MoltGuildError::NotFound) <==> !old(self).guild_exists(
                authority,
                guild_name@,
            ) || (old(self).guild_exists(authority, guild_name@) && caller == authority && (forall|
                j: int,
            |
                0 <= j < old(self).projects@.len() ==> !project_matches(
                    #[trigger] old(self).projects@[j],
                    authority,
                    guild_name@,
                    project_name@,
                ))),
            r == Err::<(), MoltGuildError>(MoltGuildError::NotGuildAuthority) <==> old(
                self,
            ).guild_exists(authority, guild_name@) && caller != authority,
            r == Err::<(), MoltGuildError>(MoltGuildError::ProjectAlreadyCompleted) <==> (exists|
                pj: int,
            |
                0 <= pj < old(self).projects@.len() && project_matches(
                    #[trigger] old(self).projects@[pj],
                    authority,
                    guild_name@,
                    project_name@,
                ) && old(self).projects@[pj].status != ProjectStatus::Active) && old(
                self,
            ).guild_exists(authority, guild_name@) && caller == authority,
            r == Err::<(), MoltGuildError>(MoltGuildError::ArithmeticOverflow) <==> (exists|
                pj: int,
                gj: int,
            |
                0 <= pj < old(self).projects@.len() && 0 <= gj < old(self).guilds@.len()
                    && project_matches(
                    #[trigger] old(self).projects@[pj],
                    authority,
                    guild_name@,
                    project_name@,
                ) && guild_matches(#[trigger] old(self).guilds@[gj], authority, guild_name@) && old(
                    self,
                ).projects@[pj].status == ProjectStatus::Active && old(
                    self,
                ).guilds@[gj].reputation_score + COMPLETION_REPUTATION_AWARD > u64::MAX) && caller
                == authority,
            r is Ok <==> old(self).guild_exists(authority, guild_name@) && caller == authority && (
            exists|pj: int, gj: int|
                0 <= pj < old(self).projects@.len() && 0 <= gj < old(self).guilds@.len()
                    && project_matches(
                    #[trigger] old(self).projects@[pj],
                    authority,
                    guild_name@,
                    project_name@,
                ) && guild_matches(#[trigger] old(self).guilds@[gj], authority, guild_name@) && old(
                    self,
                ).projects@[pj].status == ProjectStatus::Active && old(
                    self,
                ).guilds@[gj].reputation_score + COMPLETION_REPUTATION_AWARD <= u64::MAX),
            r is Ok ==> exists|gi: int, pi: int|
                {
                    &&& 0 <= gi < old(self).guilds@.len()
                    &&& 0 <= pi < old(self).projects@.len()
                    &&& guild_matches(#[trigger] old(self).guilds@[gi], authority, guild_name@)
                    &&& project_matches(
                        #[trigger] old(self).projects@[pi],
                        authority,
                        guild_name@,
                        project_name@,
                    )
                    &&& old(self).projects@[pi].status == ProjectStatus::Active
                    &&& only_guild_and_project_changed(*old(self), *final(self), gi, pi)
                    &&& ({
                        let g0 = old(self).guilds@[gi];
                        let g1 = final(self).guilds@[gi];
                        let p0 = old(self).projects@[pi];
                        let p1 = final(self).projects@[pi];
                        &&& g1 == (Guild { reputation_score: g1.reputation_score, ..g0 })
                        &&& g1.reputation_score == g0.reputation_score
                            + COMPLETION_REPUTATION_AWARD
                        &&& p1 == (Project {
                            status: ProjectStatus::Completed,
                            completed_at: Some(now),
                            ..p0
                        })
                    })
                },
    {
        let gi = match self.find_guild(authority, guild_name) {
            Some(i) => i,
            None => {
                return Err(MoltGuildError::NotFound);
            }
        };
        proof {
            assert(guild_matches(old(self).guilds@[gi as int], authority, guild_name@));
        }
        if caller != authority {
            return Err(MoltGuildError::NotGuildAuthority);
        }
        let pi = match self.find_project(authority, guild_name, project_name) {
            Some(i) => i,
            None => {
                return Err(MoltGuildError::NotFound);
            }
        };
        proof {
            assert(project_matches(
                old(self).projects@[pi as int],
                authority,
                guild_name@,
                project_name@,
            ));
        }
        let active: bool = match self.projects[pi].status {
            ProjectStatus::Active => true,
            _ => false,
        };
        if !active {
            return Err(MoltGuildError::ProjectAlreadyCompleted);
        }
        let rep: u64 = self.guilds[gi].reputation_score;
        if COMPLETION_REPUTATION_AWARD > u64::MAX - rep {
            return Err(MoltGuildError::ArithmeticOverflow);
        }
        let mut p = self.projects.remove(pi);
        p.status = ProjectStatus::Completed;
        p.completed_at = Some(now);
        self.projects.insert(pi, p);
        proof {
            assert(self.projects@ =~= old(self).projects@.update(
                pi as int,
                self.projects@[pi as int],
            ));
            lemma_wf_update_project(*old(self), *self, pi as int);
        }
        let ghost mid = *self;
        let mut g = self.guilds.remove(gi);
        g.reputation_score = rep + COMPLETION_REPUTATION_AWARD;
        self.guilds.insert(gi, g);
        proof {
            assert(self.guilds@ =~= mid.guilds@.update(gi as int, self.guilds@[gi as int]));
            lemma_wf_update_guild(mid, *self, gi as int);
            assert(self.projects@ == old(self).projects@.update(
                pi as int,
                self.projects@[pi as int],
            ));
        }
        Ok(())
    }

    /// Closes a guild: only the authority may close it, and only once its
    /// member count is zero; the record is removed from the store.
    #[verifier::loop_isolation(false)]
    pub fn close_guild(&mut self, caller: u64, authority: u64, name: &String) -> (r: Result<
        (),
        MoltGuildError,
    >)
        requires
            old(self).wf(),
        ensures
            final(self).wf(),
            r is Err ==> *final(self) == *old(self),
            r == Err::<(), MoltGuildError>(MoltGuildError::NotFound) <==> !old(self).guild_exists(
                authority,
                name@,
            ),
            r == Err::<(), MoltGuildError>(MoltGuildError::NotGuildAuthority) <==> old(
                self,
            ).guild_exists(authority, name@) && caller != authority,
            r == Err::<(), MoltGuildError>(MoltGuildError::GuildHasMembers) <==> (exists|gi: int|
                0 <= gi < old(self).guilds@.len() && guild_matches(
                    #[trigger] old(self).guilds@[gi],
                    authority,
                    name@,
                ) && old(self).guilds@[gi].member_count > 0) && caller == authority,
            r is Ok <==> (exists|gi: int|
                0 <= gi < old(self).guilds@.len() && guild_matches(
                    #[trigger] old(self).guilds@[gi],
                    authority,
                    name@,
                ) && old(self).guilds@[gi].member_count == 0) && caller == authority,
            r is Ok ==> exists|gi: int|
                {
                    &&& 0 <= gi < old(self).guilds@.len()
                    &&& guild_matches(#[trigger] old(self).guilds@[gi], authority, name@)
                    &&& final(self).guilds@ == old(self).guilds@.remove(gi)
                    &&& final(self).profiles@ == old(self).profiles@
                    &&& final(self).memberships@ == old(self).memberships@
                    &&& final(self).projects@ == old(self).projects@
                    &&& final(self).endorsements@ == old(self).endorsements@
                    &&& final(self).gigs@ == old(self).gigs@
                    &&& final(self).wallets@ == old(self).wallets@
                },
            r is Ok ==> !final(self).guild_exists(authority, name@),
    {
        let gi = match self.find_guild(authority, name) {
            Some(i) => i,
            None => {
                return Err(MoltGuildError::NotFound);
            }
        };
        proof {
            assert(guild_matches(old(self).guilds@[gi as int], authority, name@));
        }
        if caller != authority {
            return Err(MoltGuildError::NotGuildAuthority);
        }
        if self.guilds[gi].member_count > 0 {
            return Err(MoltGuildError::GuildHasMembers);
        }
        self.guilds.remove(gi);
        proof {
            lemma_wf_remove_guild(*old(self), *self, gi as int);
            assert forall|j: int|
                0 <= j < self.guilds@.len() implies !guild_matches(
                #[trigger] self.guilds@[j],
                authority,
                name@,
            ) by {
                let j2 = if j < gi as int {
                    j
                } else {
                    j + 1
                };
                assert(self.guilds@[j] == old(self).guilds@[j2]);
                assert(!guild_matches(old(self).guilds@[j2], old(self).guilds@[gi as int].authority,
                old(self).guilds@[gi as int].name@));
            }
        }
        Ok(())
    }

    /// Joins the agent owned by `owner` to a guild that admits open
    /// joining, creating the membership edge and raising both counters.
    #[verifier::loop_isolation(false)]
    pub fn join_guild(&mut self, owner: u64, authority: u64, guild_name: &String, now: i64) -> (r:
        Result<(), MoltGuildError>)
        requires
            old(self).wf(),
        ensures
            final(self).wf(),
            r is Err ==> *final(self) == *old(self),
            r == Err::<(), MoltGuildError>(MoltGuildError::NotFound) <==> !old(self).guild_exists(
                authority,
                guild_name@,
            ) || !old(self).profile_exists(owner),
            r == Err::<(), MoltGuildError>(MoltGuildError::GuildIsInviteOnly) <==> old(
                self,
            ).profile_exists(owner) && (exists|gi: int|
                0 <= gi < old(self).guilds@.len() && guild_matches(
                    #[trigger] old(self).guilds@[gi],
                    authority,
                    guild_name@,
                ) && old(self).guilds@[gi].visibility != GuildVisibility::Open),
            r == Err::<(), MoltGuildError>(MoltGuildError::AlreadyExists) <==> old(
                self,
            ).profile_exists(owner) && (exists|gi: int|
                0 <= gi < old(self).guilds@.len() && guild_matches(
                    #[trigger] old(self).guilds@[gi],
                    authority,
                    guild_name@,
                ) && old(self).guilds@[gi].visibility == GuildVisibility::Open) && (exists|mi: int|
                0 <= mi < old(self).memberships@.len() && membership_matches(
                    #[trigger] old(self).memberships@[mi],
                    authority,
                    guild_name@,
                    owner,
                )),
            r == Err::<(), MoltGuildError>(MoltGuildError::ArithmeticOverflow) <==> old(
                self,
            ).profile_exists(owner) && (exists|gi: int|
                0 <= gi < old(self).guilds@.len() && guild_matches(
                    #[trigger] old(self).guilds@[gi],
                    authority,
                    guild_name@,
                ) && old(self).guilds@[gi].visibility == GuildVisibility::Open) && (forall|mi: int|
                0 <= mi < old(self).memberships@.len() ==> !membership_matches(
                    #[trigger] old(self).memberships@[mi],
                    authority,
                    guild_name@,
                    owner,
                )) && (exists|gi: int, pi: int|
                0 <= gi < old(self).guilds@.len() && 0 <= pi < old(self).profiles@.len()
                    && guild_matches(#[trigger] old(self).guilds@[gi], authority, guild_name@)
                    && profile_matches(#[trigger] old(self).profiles@[pi], owner) && (old(
                    self,
                ).guilds@[gi].member_count == u32::MAX || old(self).profiles@[pi].guild_count
                    == u32::MAX)),
            r is Ok ==> exists|gi: int, pi: int|
                {
                    &&& 0 <= gi < old(self).guilds@.len()
                    &&& 0 <= pi < old(self).profiles@.len()
                    &&& guild_matches(#[trigger] old(self).guilds@[gi], authority, guild_name@)
                    &&& profile_matches(#[trigger] old(self).profiles@[pi], owner)
                    &&& old(self).guilds@[gi].visibility == GuildVisibility::Open
                    &&& final(self).guilds@ == old(self).guilds@.update(
                        gi,
                        final(self).guilds@[gi],
                    )
                    &&& final(self).profiles@ == old(self).profiles@.update(
                        pi,
                        final(self).profiles@[pi],
                    )
                    &&& ({
                        let g0 = old(self).guilds@[gi];
                        let g1 = final(self).guilds@[gi];
                        let p0 = old(self).profiles@[pi];
                        let p1 = final(self).profiles@[pi];
                        &&& g1 == (Guild { member_count: g1.member_count, ..g0 })
                        &&& g1.member_count == g0.member_count + 1
                        &&& p1 == (AgentProfile { guild_count: p1.guild_count, ..p0 })
                        &&& p1.guild_count == p0.guild_count + 1
                    })
                },
            r is Ok ==> final(self).memberships@.len() == old(self).memberships@.len() + 1
                && final(self).memberships@.drop_last() == old(self).memberships@ && ({
                let m = final(self).memberships@.last();
                &&& m.guild.authority == authority
                &&& m.guild.name@ == guild_name@
                &&& m.agent == owner
                &&& m.role == MemberRole::Member
                &&& m.joined_at == now
                &&& m.reputation_earned == 0
            }),
            r is Ok ==> final(self).projects@ == old(self).projects@
                && final(self).endorsements@ == old(self).endorsements@
                && final(self).gigs@ == old(self).gigs@
                && final(self).wallets@ == old(self).wallets@,
            r is Ok <==> old(self).profile_exists(owner) && (exists|gi: int|
                0 <= gi < old(self).guilds@.len() && guild_matches(
                    #[trigger] old(self).guilds@[gi],
                    authority,
                    guild_name@,
                ) && old(self).guilds@[gi].visibility == GuildVisibility::Open) && (forall|mi: int|
                0 <= mi < old(self).memberships@.len() ==> !membership_matches(
                    #[trigger] old(self).memberships@[mi],
                    authority,
                    guild_name@,
                    owner,
                )) && (exists|gi: int, pi: int|
                0 <= gi < old(self).guilds@.len() && 0 <= pi < old(self).profiles@.len()
                    && guild_matches(#[trigger] old(self).guilds@[gi], authority, guild_name@)
                    && profile_matches(#[trigger] old(self).profiles@[pi], owner) && old(
                    self,
                ).guilds@[gi].member_count < u32::MAX && old(self).profiles@[pi].guild_count
                    < u32::MAX),
    {
        let gi = match self.find_guild(authority, guild_name) {
            Some(i) => i,
            None => {
                return Err(MoltGuildError::NotFound);
            }
        };
        proof {
            assert(guild_matches(old(self).guilds@[gi as int], authority, guild_name@));
        }
        let pi = match self.find_profile(owner) {
            Some(i) => i,
            None => {
                return Err(MoltGuildError::NotFound);
            }
        };
        proof {
            assert(profile_matches(old(self).profiles@[pi as int], owner));
        }
        let open: bool = match self.guilds[gi].visibility {
            GuildVisibility::Open => true,
            _ => false,
        };
        if !open {
            return Err(MoltGuildError::GuildIsInviteOnly);
        }
        if self.find_membership(authority, guild_name, owner).is_some() {
            return Err(MoltGuildError::AlreadyExists);
        }
        let mc: u32 = self.guilds[gi].member_count;
        let gc: u32 = self.profiles[pi].guild_count;
        if mc == u32::MAX || gc == u32::MAX {
            return Err(MoltGuildError::ArithmeticOverflow);
        }
        let record = Membership {
            guild: GuildKey { authority, name: guild_name.clone() },
            agent: owner,
            role: MemberRole::Member,
            joined_at: now,
            reputation_earned: 0,
        };
        self.memberships.push(record);
        let mut g = self.guilds.remove(gi);
        g.member_count = mc + 1;
        self.guilds.insert(gi, g);
        let mut p = self.profiles.remove(pi);
        p.guild_count = gc + 1;
        self.profiles.insert(pi, p);
        proof {
            assert(self.guilds@ =~= old(self).guilds@.update(gi as int, self.guilds@[gi as int]));
            assert(self.profiles@ =~= old(self).profiles@.update(
                pi as int,
                self.profiles@[pi as int],
            ));
            lemma_wf_join(*old(self), *self, gi as int, pi as int);
        }
        Ok(())
    }

    /// Removes the membership of `owner` in the named guild, first
    /// carrying the reputation it accrued home to the agent's profile,
    /// and lowers both counters.
    #[verifier::loop_isolation(false)]
    pub fn leave_guild(&mut self, owner: u64, authority: u64, guild_name: &String) -> (r: Result<
        (),
        MoltGuildError,
    >)
        requires
            old(self).wf(),
        ensures
            final(self).wf(),
            r is Err ==> *final(self) == *old(self),
            r == Err::<(), MoltGuildError>(MoltGuildError::NotFound) <==> !old(self).guild_exists(
                authority,
                guild_name@,
            ) || !old(self).profile_exists(owner) || (forall|mi: int|
                0 <= mi < old(self).memberships@.len() ==> !membership_matches(
                    #[trigger] old(self).memberships@[mi],
                    authority,
                    guild_name@,
                    owner,
                )),
            r == Err::<(), MoltGuildError>(MoltGuildError::ArithmeticOverflow) <==> old(
                self,
            ).guild_exists(authority, guild_name@) && (exists|mi: int, pi: int|
                0 <= mi < old(self).memberships@.len() && 0 <= pi < old(self).profiles@.len()
                    && membership_matches(
                    #[trigger] old(self).memberships@[mi],
                    authority,
                    guild_name@,
                    owner,
                ) && profile_matches(#[trigger] old(self).profiles@[pi], owner) && old(
                    self,
                ).profiles@[pi].reputation_score + old(self).memberships@[mi].reputation_earned
                    > u64::MAX),
            r is Ok <==> old(self).guild_exists(authority, guild_name@) && (exists|
                mi: int,
                pi: int,
            |
                0 <= mi < old(self).memberships@.len() && 0 <= pi < old(self).profiles@.len()
                    && membership_matches(
                    #[trigger] old(self).memberships@[mi],
                    authority,
                    guild_name@,
                    owner,
                ) && profile_matches(#[trigger] old(self).profiles@[pi], owner) && old(
                    self,
                ).profiles@[pi].reputation_score + old(self).memberships@[mi].reputation_earned
                    <= u64::MAX),
            r is Ok ==> exists|gi: int, pi: int, mi: int|
                {
                    &&& 0 <= gi < old(self).guilds@.len()
                    &&& 0 <= pi < old(self).profiles@.len()
                    &&& 0 <= mi < old(self).memberships@.len()
                    &&& guild_matches(#[trigger] old(self).guilds@[gi], authority, guild_name@)
                    &&& profile_matches(#[trigger] old(self).profiles@[pi], owner)
                    &&& membership_matches(
                        #[trigger] old(self).memberships@[mi],
                        authority,
                        guild_name@,
                        owner,
                    )
                    &&& final(self).memberships@ == old(self).memberships@.remove(mi)
                    &&& final(self).guilds@ == old(self).guilds@.update(
                        gi,
                        final(self).guilds@[gi],
                    )
                    &&& final(self).profiles@ == old(self).profiles@.update(
                        pi,
                        final(self).profiles@[pi],
                    )
                    &&& ({
                        let g0 = old(self).guilds@[gi];
                        let g1 = final(self).guilds@[gi];
                        let p0 = old(self).profiles@[pi];
                        let p1 = final(self).profiles@[pi];
                        let m = old(self).memberships@[mi];
                        &&& g1 == (Guild { member_count: g1.member_count, ..g0 })
                        &&& g1.member_count == g0.member_count - 1
                        &&& p1 == (AgentProfile {
                            guild_count: p1.guild_count,
                            reputation_score: p1.reputation_score,
                            ..p0
                        })
                        &&& p1.guild_count == p0.guild_count - 1
                        &&& p1.reputation_score == p0.reputation_score + m.reputation_earned
                    })
                },
            r is Ok ==> final(self).projects@ == old(self).projects@
                && final(self).endorsements@ == old(self).endorsements@
                && final(self).gigs@ == old(self).gigs@
                && final(self).wallets@ == old(self).wallets@,
    {
        let gi = match self.find_guild(authority, guild_name) {
            Some(i) => i,
            None => {
                return Err(MoltGuildError::NotFound);
            }
        };
        proof {
            assert(guild_matches(old(self).guilds@[gi as int], authority, guild_name@));
        }
        let pi = match self.find_profile(owner) {
            Some(i) => i,
            None => {
                return Err(MoltGuildError::NotFound);
            }
        };
        proof {
            assert(profile_matches(old(self).profiles@[pi as int], owner));
        }
        let mi = match self.find_membership(authority, guild_name, owner) {
            Some(i) => i,
            None => {
                return Err(MoltGuildError::NotFound);
            }
        };
        proof {
            assert(membership_matches(
                old(self).memberships@[mi as int],
                authority,
                guild_name@,
                owner,
            ));
        }
        let earned: u64 = self.memberships[mi].reputation_earned;
        let score: u64 = self.profiles[pi].reputation_score;
        if earned > u64::MAX - score {
            return Err(MoltGuildError::ArithmeticOverflow);
        }
        proof {
            lemma_count_guild_members_pos(self.memberships@, mi as int, authority, guild_name@);
            lemma_count_agent_memberships_pos(self.memberships@, mi as int, owner);
        }
        let mc: u32 = self.guilds[gi].member_count;
        let gc: u32 = self.profiles[pi].guild_count;
        let mut p = self.profiles.remove(pi);
        p.reputation_score = score + earned;
        p.guild_count = gc - 1;
        self.profiles.insert(pi, p);
        let mut g = self.guilds.remove(gi);
        g.member_count = mc - 1;
        self.guilds.insert(gi, g);
        self.memberships.remove(mi);
        proof {
            assert(self.guilds@ =~= old(self).guilds@.update(gi as int, self.guilds@[gi as int]));
            assert(self.profiles@ =~= old(self).profiles@.update(
                pi as int,
                self.profiles@[pi as int],
            ));
            lemma_wf_leave(*old(self), *self, gi as int, pi as int, mi as int);
        }
        Ok(())
    }

    /// Records one peer vote from the agent owned by `from_owner` for the
    /// agent owned by `to_owner`, weighted by the endorser's current
    /// reputation tier, and adds the weight to the endorsed agent's
    /// score. Self-endorsement always fails, whatever the other inputs.
    #[verifier::loop_isolation(false)]
    pub fn endorse_agent(
        &mut self,
        from_owner: u64,
        to_owner: u64,
        skill: String,
        comment: String,
        now: i64,
    ) -> (r: Result<(), MoltGuildError>)
        requires
            old(self).wf(),
        ensures
            final(self).wf(),
            r is Err ==> *final(self) == *old(self),
            r == Err::<(), MoltGuildError>(MoltGuildError::CannotEndorseSelf) <==> from_owner
                == to_owner,
            r == Err::<(), MoltGuildError>(MoltGuildError::EndorsementSkillTooLong) <==> from_owner
                != to_owner && skill@.len() > MAX_SKILL_LEN,
            r == Err::<(), MoltGuildError>(MoltGuildError::EndorsementCommentTooLong) <==>
                from_owner != to_owner && skill@.len() <= MAX_SKILL_LEN && comment@.len()
                > MAX_COMMENT_LEN,
            r == Err::<(), MoltGuildError>(MoltGuildError::NotFound) <==> from_owner != to_owner
                && skill@.len() <= MAX_SKILL_LEN && comment@.len() <= MAX_COMMENT_LEN && (!old(
                self,
            ).profile_exists(from_owner) || !old(self).profile_exists(to_owner)),
            r == Err::<(), MoltGuildError>(MoltGuildError::AlreadyExists) <==> from_owner
                != to_owner && skill@.len() <= MAX_SKILL_LEN && comment@.len() <= MAX_COMMENT_LEN
                && old(self).profile_exists(from_owner) && old(self).profile_exists(to_owner) && (
            exists|j: int|
                0 <= j < old(self).endorsements@.len() && endorsement_matches(
                    #[trigger] old(self).endorsements@[j],
                    from_owner,
                    to_owner,
                    skill@,
                )),
            r == Err::<(), MoltGuildError>(MoltGuildError::ArithmeticOverflow) <==> from_owner
                != to_owner && skill@.len() <= MAX_SKILL_LEN && comment@.len() <= MAX_COMMENT_LEN
                && (forall|j: int|
                0 <= j < old(self).endorsements@.len() ==> !endorsement_matches(
                    #[trigger] old(self).endorsements@[j],
                    from_owner,
                    to_owner,
                    skill@,
                )) && (exists|fi: int, ti: int|
                0 <= fi < old(self).profiles@.len() && 0 <= ti < old(self).profiles@.len()
                    && profile_matches(#[trigger] old(self).profiles@[fi], from_owner)
                    && profile_matches(#[trigger] old(self).profiles@[ti], to_owner) && old(
                    self,
                ).profiles@[ti].reputation_score + crate::rules::weight_of(
                    old(self).profiles@[fi].reputation_score,
                ) > u64::MAX),
            r is Ok <==> from_owner != to_owner && skill@.len() <= MAX_SKILL_LEN && comment@.len()
                <= MAX_COMMENT_LEN && (forall|j: int|
                0 <= j < old(self).endorsements@.len() ==> !endorsement_matches(
                    #[trigger] old(self).endorsements@[j],
                    from_owner,
                    to_owner,
                    skill@,
                )) && (exists|fi: int, ti: int|
                0 <= fi < old(self).profiles@.len() && 0 <= ti < old(self).profiles@.len()
                    && profile_matches(#[trigger] old(self).profiles@[fi], from_owner)
                    && profile_matches(#[trigger] old(self).profiles@[ti], to_owner) && old(
                    self,
                ).profiles@[ti].reputation_score + crate::rules::weight_of(
                    old(self).profiles@[fi].reputation_score,
                ) <= u64::MAX),
            r is Ok ==> exists|fi: int, ti: int|
                {
                    &&& 0 <= fi < old(self).profiles@.len()
                    &&& 0 <= ti < old(self).profiles@.len()
                    &&& profile_matches(#[trigger] old(self).profiles@[fi], from_owner)
                    &&& profile_matches(#[trigger] old(self).profiles@[ti], to_owner)
                    &&& final(self).profiles@ == old(self).profiles@.update(
                        ti,
                        final(self).profiles@[ti],
                    )
                    &&& ({
                        let p0 = old(self).profiles@[ti];
                        let p1 = final(self).profiles@[ti];
                        let w = crate::rules::weight_of(old(self).profiles@[fi].reputation_score);
                        &&& p1 == (AgentProfile { reputation_score: p1.reputation_score, ..p0 })
                        &&& p1.reputation_score == p0.reputation_score + w
                        &&& final(self).endorsements@.len() == old(self).endorsements@.len() + 1
                        &&& final(self).endorsements@.drop_last() == old(self).endorsements@
                        &&& ({
                            let e = final(self).endorsements@.last();
                            &&& e.from_agent == from_owner
                            &&& e.to_agent == to_owner
                            &&& e.skill == skill
                            &&& e.comment == comment
                            &&& e.reputation_weight == w
                            &&& e.created_at == now
                        })
                    })
                },
            r is Ok ==> final(self).guilds@ == old(self).guilds@
                && final(self).memberships@ == old(self).memberships@
                && final(self).projects@ == old(self).projects@
                && final(self).gigs@ == old(self).gigs@
                && final(self).wallets@ == old(self).wallets@,
    {
        if from_owner == to_owner {
            return Err(MoltGuildError::CannotEndorseSelf);
        }
        if !char_len_at_most(&skill, MAX_SKILL_LEN) {
            return Err(MoltGuildError::EndorsementSkillTooLong);
        }
        if !char_len_at_most(&comment, MAX_COMMENT_LEN) {
            return Err(MoltGuildError::EndorsementCommentTooLong);
        }
        let fi = match self.find_profile(from_owner) {
            Some(i) => i,
            None => {
                return Err(MoltGuildError::NotFound);
            }
        };
        proof {
            assert(profile_matches(old(self).profiles@[fi as int], from_owner));
        }
        let ti = match self.find_profile(to_owner) {
            Some(i) => i,
            None => {
                return Err(MoltGuildError::NotFound);
            }
        };
        proof {
            assert(profile_matches(old(self).profiles@[ti as int], to_owner));
        }
        if self.find_endorsement(from_owner, to_owner, &skill).is_some() {
            return Err(MoltGuildError::AlreadyExists);
        }
        let weight: u64 = crate::rules::endorsement_weight(self.profiles[fi].reputation_score);
        let to_score: u64 = self.profiles[ti].reputation_score;
        if weight > u64::MAX - to_score {
            return Err(MoltGuildError::ArithmeticOverflow);
        }
        let mut p = self.profiles.remove(ti);
        p.reputation_score = to_score + weight;
        self.profiles.insert(ti, p);
        proof {
            assert(self.profiles@ =~= old(self).profiles@.update(
                ti as int,
                self.profiles@[ti as int],
            ));
            lemma_wf_update_profile(*old(self), *self, ti as int);
        }
        let ghost mid = *self;
        let record = Endorsement {
            from_agent: from_owner,
            to_agent: to_owner,
            skill,
            comment,
            reputation_weight: weight,
            created_at: now,
        };
        self.endorsements.push(record);
        proof {
            lemma_wf_push_endorsement(mid, *self, self.endorsements@.last());
            assert(self.endorsements@.drop_last() =~= old(self).endorsements@);
        }
        Ok(())
    }

    /// Creates an escrow-funded project under a guild: only the guild's
    /// authority may create one, and the reward moves from the
    /// authority's wallet into the project's derived escrow address in
    /// the same atomic step as the record's creation.
    #[verifier::loop_isolation(false)]
    pub fn create_project(
        &mut self,
        caller: u64,
        authority: u64,
        guild_name: &String,
        name: String,
        reward_amount: u64,
        now: i64,
    ) -> (r: Result<(), MoltGuildError>)
        requires
            old(self).wf(),
        ensures
            final(self).wf(),
            r is Err ==> *final(self) == *old(self),
            r == Err::<(), MoltGuildError>(MoltGuildError::NotFound) <==> !old(self).guild_exists(
                authority,
                guild_name@,
            ),
            r == Err::<(), MoltGuildError>(MoltGuildError::NotGuildAuthority) <==> old(
                self,
            ).guild_exists(authority, guild_name@) && caller != authority,
            r == Err::<(), MoltGuildError>(MoltGuildError::ProjectNameTooLong) <==> old(
                self,
            ).guild_exists(authority, guild_name@) && caller == authority && name@.len()
                > MAX_PROJECT_NAME_LEN,
            r == Err::<(), MoltGuildError>(MoltGuildError::AlreadyExists) <==> old(
                self,
            ).guild_exists(authority, guild_name@) && caller == authority && name@.len()
                <= MAX_PROJECT_NAME_LEN && (exists|j: int|
                0 <= j < old(self).projects@.len() && project_matches(
                    #[trigger] old(self).projects@[j],
                    authority,
                    guild_name@,
                    name@,
                )),
            r == Err::<(), MoltGuildError>(MoltGuildError::InsufficientFunds) <==> old(
                self,
            ).guild_exists(authority, guild_name@) && caller == authority && name@.len()
                <= MAX_PROJECT_NAME_LEN && (forall|j: int|
                0 <= j < old(self).projects@.len() ==> !project_matches(
                    #[trigger] old(self).projects@[j],
                    authority,
                    guild_name@,
                    name@,
                )) && wallets_amount(old(self).wallets@, authority) < reward_amount,
            r == Err::<(), MoltGuildError>(MoltGuildError::ArithmeticOverflow) <==> old(
                self,
            ).guild_exists(authority, guild_name@) && caller == authority && name@.len()
                <= MAX_PROJECT_NAME_LEN && (forall|j: int|
                0 <= j < old(self).projects@.len() ==> !project_matches(
                    #[trigger] old(self).projects@[j],
                    authority,
                    guild_name@,
                    name@,
                )) && wallets_amount(old(self).wallets@, authority) >= reward_amount && (exists|
                gi: int,
            |
                0 <= gi < old(self).guilds@.len() && guild_matches(
                    #[trigger] old(self).guilds@[gi],
                    authority,
                    guild_name@,
                ) && old(self).guilds@[gi].project_count == u32::MAX),
            r is Ok <==> old(self).guild_exists(authority, guild_name@) && caller == authority
                && name@.len() <= MAX_PROJECT_NAME_LEN && (forall|j: int|
                0 <= j < old(self).projects@.len() ==> !project_matches(
                    #[trigger] old(self).projects@[j],
                    authority,
                    guild_name@,
                    name@,
                )) && wallets_amount(old(self).wallets@, authority) >= reward_amount && (exists|
                gi: int,
            |
                0 <= gi < old(self).guilds@.len() && guild_matches(
                    #[trigger] old(self).guilds@[gi],
                    authority,
                    guild_name@,
                ) && old(self).guilds@[gi].project_count < u32::MAX),
            r is Ok ==> wallets_amount(final(self).wallets@, authority) == wallets_amount(
                old(self).wallets@,
                authority,
            ) - reward_amount,
            r is Ok ==> forall|o: u64|
                o != authority ==> wallets_amount(final(self).wallets@, o) == wallets_amount(
                    old(self).wallets@,
                    o,
                ),
            r is Ok ==> final(self).projects@.len() == old(self).projects@.len() + 1
                && final(self).projects@.drop_last() == old(self).projects@ && ({
                let p = final(self).projects@.last();
                &&& p.guild.authority == authority
                &&& p.guild.name@ == guild_name@
                &&& p.name == name
                &&& p.escrow_balance == reward_amount
                &&& p.reward_amount == reward_amount
                &&& p.status == ProjectStatus::Active
                &&& p.created_at == now
                &&& p.completed_at is None
            }),
            r is Ok ==> exists|gi: int|
                {
                    &&& 0 <= gi < old(self).guilds@.len()
                    &&& guild_matches(#[trigger] old(self).guilds@[gi], authority, guild_name@)
                    &&& final(self).guilds@ == old(self).guilds@.update(
                        gi,
                        final(self).guilds@[gi],
                    )
                    &&& ({
                        let g0 = old(self).guilds@[gi];
                        let g1 = final(self).guilds@[gi];
                        &&& g1 == (Guild { project_count: g1.project_count, ..g0 })
                        &&& g1.project_count == g0.project_count + 1
                    })
                },
            r is Ok ==> final(self).profiles@ == old(self).profiles@
                && final(self).memberships@ == old(self).memberships@
                && final(self).endorsements@ == old(self).endorsements@
                && final(self).gigs@ == old(self).gigs@,
    {
        let gi = match self.find_guild(authority, guild_name) {
            Some(i) => i,
            None => {
                return Err(MoltGuildError::NotFound);
            }
        };
        proof {
            assert(guild_matches(old(self).guilds@[gi as int], authority, guild_name@));
        }
        if caller != authority {
            return Err(MoltGuildError::NotGuildAuthority);
        }
        if !char_len_at_most(&name, MAX_PROJECT_NAME_LEN) {
            return Err(MoltGuildError::ProjectNameTooLong);
        }
        if self.find_project(authority, guild_name, &name).is_some() {
            return Err(MoltGuildError::AlreadyExists);
        }
        let held: u64 = self.wallet_balance(authority);
        if held < reward_amount {
            return Err(MoltGuildError::InsufficientFunds);
        }
        let pc: u32 = self.guilds[gi].project_count;
        if pc == u32::MAX {
            return Err(MoltGuildError::ArithmeticOverflow);
        }
        if reward_amount > 0 {
            let wi = match self.find_wallet(authority) {
                Some(i) => i,
                None => {
                    proof {
                        lemma_wallets_amount_zero_prefix(self.wallets@, authority);
                        assert(false);
                    }
                    return Err(MoltGuildError::InsufficientFunds);
                }
            };
            proof {
                lemma_wallets_amount_at(self.wallets@, wi as int);
            }
            let debited = Wallet { owner: authority, amount: held - reward_amount };
            self.wallets[wi] = debited;
            proof {
                assert forall|a: int, b: int|
                    0 <= a < b < self.wallets@.len() implies (#[trigger] self.wallets@[a]).owner
                    != (#[trigger] self.wallets@[b]).owner by {
                    assert(old(self).wallets@[a].owner != old(self).wallets@[b].owner);
                    if a == wi as int {
                        assert(self.wallets@[a].owner == old(self).wallets@[a].owner);
                    }
                    if b == wi as int {
                        assert(self.wallets@[b].owner == old(self).wallets@[b].owner);
                    }
                }
                assert forall|o: u64| true implies wallets_amount(self.wallets@, o)
                    == wallets_amount(old(self).wallets@, o) - if o == authority {
                    reward_amount as int
                } else {
                    0
                } by {
                    lemma_wallets_amount_update(old(self).wallets@, wi as int, debited, o);
                }
                lemma_linked_carry(*old(self), *self);
            }
        }
        let ghost mid1 = *self;
        let mut g = self.guilds.remove(gi);
        g.project_count = pc + 1;
        self.guilds.insert(gi, g);
        proof {
            assert(self.guilds@ =~= mid1.guilds@.update(gi as int, self.guilds@[gi as int]));
            lemma_wf_update_guild(mid1, *self, gi as int);
        }
        let ghost mid2 = *self;
        let record = Project {
            guild: GuildKey { authority, name: guild_name.clone() },
            name,
            escrow_balance: reward_amount,
            reward_amount,
            status: ProjectStatus::Active,
            created_at: now,
            completed_at: None,
        };
        self.projects.push(record);
        proof {
            assert(project_wf(self.projects@.last()));
            lemma_wf_push_project(mid2, *self, self.projects@.last());
            assert(self.projects@.drop_last() =~= old(self).projects@);
        }
        Ok(())
    }

    /// Distributes the guild's treasury by its stored prize splits. Any
    /// caller may invoke it: the operation is constrained by the
    /// recipient-matching check alone. Each recipient is paid the floor
    /// of `balance * percentage / 100`; the fractional dust stays in the
    /// treasury.
    #[verifier::loop_isolation(false)]
    pub fn distribute_prize(
        &mut self,
        caller: u64,
        authority: u64,
        guild_name: &String,
        recipients: &Vec<u64>,
    ) -> (r: Result<(), DistributePrizeError>)
        requires
            old(self).wf(),
        ensures
            final(self).wf(),
            r is Err ==> *final(self) == *old(self),
            r == Err::<(), DistributePrizeError>(DistributePrizeError::GuildNotFound) <==> !old(
                self,
            ).guild_exists(authority, guild_name@),
            r == Err::<(), DistributePrizeError>(DistributePrizeError::NoPrizeToDistribute) <==> (
            exists|gi: int|
                0 <= gi < old(self).guilds@.len() && guild_matches(
                    #[trigger] old(self).guilds@[gi],
                    authority,
                    guild_name@,
                ) && old(self).guilds@[gi].treasury_balance == 0),
            r == Err::<(), DistributePrizeError>(DistributePrizeError::NoPrizeSplitsDefined) <==> (
            exists|gi: int|
                0 <= gi < old(self).guilds@.len() && guild_matches(
                    #[trigger] old(self).guilds@[gi],
                    authority,
                    guild_name@,
                ) && old(self).guilds@[gi].treasury_balance > 0 && old(
                    self,
                ).guilds@[gi].prize_splits@.len() == 0),
            r == Err::<(), DistributePrizeError>(DistributePrizeError::InvalidPrizeSplits) <==> (
            exists|gi: int|
                0 <= gi < old(self).guilds@.len() && guild_matches(
                    #[trigger] old(self).guilds@[gi],
                    authority,
                    guild_name@,
                ) && old(self).guilds@[gi].treasury_balance > 0 && old(
                    self,
                ).guilds@[gi].prize_splits@.len() > 0 && crate::rules::splits_total(
                    old(self).guilds@[gi].prize_splits@,
                ) != 100),
            r == Err::<(), DistributePrizeError>(DistributePrizeError::InvalidRecipientAccounts)
                <==> (exists|gi: int|
                0 <= gi < old(self).guilds@.len() && guild_matches(
                    #[trigger] old(self).guilds@[gi],
                    authority,
                    guild_name@,
                ) && old(self).guilds@[gi].treasury_balance > 0 && old(
                    self,
                ).guilds@[gi].prize_splits@.len() > 0 && crate::rules::splits_total(
                    old(self).guilds@[gi].prize_splits@,
                ) == 100 && recipients@.len() != old(self).guilds@[gi].prize_splits@.len()),
            r == Err::<(), DistributePrizeError>(DistributePrizeError::InvalidRecipientAccount)
                <==> (exists|gi: int|
                0 <= gi < old(self).guilds@.len() && guild_matches(
                    #[trigger] old(self).guilds@[gi],
                    authority,
                    guild_name@,
                ) && old(self).guilds@[gi].treasury_balance > 0 && old(
                    self,
                ).guilds@[gi].prize_splits@.len() > 0 && crate::rules::splits_total(
                    old(self).guilds@[gi].prize_splits@,
                ) == 100 && recipients@.len() == old(self).guilds@[gi].prize_splits@.len() && (
                exists|k: int|
                    0 <= k < recipients@.len() && recipients@[k] != (#[trigger] old(
                        self,
                    ).guilds@[gi].prize_splits@[k]).agent)),
            r == Err::<(), DistributePrizeError>(DistributePrizeError::BalanceOverflow) <==> (
            exists|gi: int|
                0 <= gi < old(self).guilds@.len() && guild_matches(
                    #[trigger] old(self).guilds@[gi],
                    authority,
                    guild_name@,
                ) && old(self).guilds@[gi].treasury_balance > 0 && old(
                    self,
                ).guilds@[gi].prize_splits@.len() > 0 && crate::rules::splits_total(
                    old(self).guilds@[gi].prize_splits@,
                ) == 100 && recipients@.len() == old(self).guilds@[gi].prize_splits@.len() && (
                forall|k: int|
                    0 <= k < recipients@.len() ==> recipients@[k] == (#[trigger] old(
                        self,
                    ).guilds@[gi].prize_splits@[k]).agent) && (exists|o: u64|
                    wallets_amount(old(self).wallets@, o) + crate::rules::owed_to(
                        old(self).guilds@[gi].prize_splits@,
                        old(self).guilds@[gi].treasury_balance,
                        o,
                    ) > u64::MAX)),
            r is Ok <==> (exists|gi: int|
                0 <= gi < old(self).guilds@.len() && guild_matches(
                    #[trigger] old(self).guilds@[gi],
                    authority,
                    guild_name@,
                ) && old(self).guilds@[gi].treasury_balance > 0 && old(
                    self,
                ).guilds@[gi].prize_splits@.len() > 0 && crate::rules::splits_total(
                    old(self).guilds@[gi].prize_splits@,
                ) == 100 && recipients@.len() == old(self).guilds@[gi].prize_splits@.len() && (
                forall|k: int|
                    0 <= k < recipients@.len() ==> recipients@[k] == (#[trigger] old(
                        self,
                    ).guilds@[gi].prize_splits@[k]).agent) && (forall|o: u64|
                    wallets_amount(old(self).wallets@, o) + crate::rules::owed_to(
                        old(self).guilds@[gi].prize_splits@,
                        old(self).guilds@[gi].treasury_balance,
                        o,
                    ) <= u64::MAX)),
            r is Ok ==> exists|gi: int|
                {
                    &&& 0 <= gi < old(self).guilds@.len()
                    &&& guild_matches(#[trigger] old(self).guilds@[gi], authority, guild_name@)
                    &&& final(self).guilds@ == old(self).guilds@.update(
                        gi,
                        final(self).guilds@[gi],
                    )
                    &&& ({
                        let g0 = old(self).guilds@[gi];
                        let g1 = final(self).guilds@[gi];
                        let b = g0.treasury_balance;
                        &&& g1 == (Guild { treasury_balance: g1.treasury_balance, ..g0 })
                        &&& g1.treasury_balance == b - crate::rules::shares_total(
                            g0.prize_splits@,
                            b,
                        )
                        &&& (forall|o: u64|
                            wallets_amount(final(self).wallets@, o) == wallets_amount(
                                old(self).wallets@,
                                o,
                            ) + crate::rules::owed_to(g0.prize_splits@, b, o))
                    })
                },
            r is Ok ==> final(self).profiles@ == old(self).profiles@
                && final(self).memberships@ == old(self).memberships@
                && final(self).projects@ == old(self).projects@
                && final(self).endorsements@ == old(self).endorsements@
                && final(self).gigs@ == old(self).gigs@,
    {
        let _ = caller;
        let gi = match self.find_guild(authority, guild_name) {
            Some(i) => i,
            None => {
                return Err(DistributePrizeError::GuildNotFound);
            }
        };
        proof {
            assert(guild_matches(old(self).guilds@[gi as int], authority, guild_name@));
        }
        let balance: u64 = self.guilds[gi].treasury_balance;
        if balance == 0 {
            return Err(DistributePrizeError::NoPrizeToDistribute);
        }
        let n: usize = self.guilds[gi].prize_splits.len();
        if n == 0 {
            return Err(DistributePrizeError::NoPrizeSplitsDefined);
        }
        let total_ok: bool = match crate::rules::total_percentage(&self.guilds[gi].prize_splits) {
            Some(t) => t == 100,
            None => false,
        };
        if !total_ok {
            return Err(DistributePrizeError::InvalidPrizeSplits);
        }
        let ghost splits = self.guilds@[gi as int].prize_splits@;
        if recipients.len() != n {
            return Err(DistributePrizeError::InvalidRecipientAccounts);
        }
        let mut k: usize = 0;
        while k < n
            invariant
                k <= n,
                forall|j: int| 0 <= j < k ==> recipients@[j] == (#[trigger] splits[j]).agent,
            decreases n - k,
        {
            if recipients[k] != self.guilds[gi].prize_splits[k].agent {
                return Err(DistributePrizeError::InvalidRecipientAccount);
            }
            k = k + 1;
        }
        let mut ws: Vec<Wallet> = copy_wallets(&self.wallets);
        let mut paid: u64 = 0;
        let mut i: usize = 0;
        while i < n
            invariant
                i <= n,
                ws@.len() >= 0,
                forall|a: int, b: int|
                    0 <= a < b < ws@.len() ==> (#[trigger] ws@[a]).owner != (
                    #[trigger] ws@[b]).owner,
                forall|o: u64|
                    wallets_amount(ws@, o) == wallets_amount(old(self).wallets@, o)
                        + crate::rules::owed_to(splits.subrange(0, i as int), balance, o),
                paid == crate::rules::shares_total(splits.subrange(0, i as int), balance),
                paid <= balance,
            decreases n - i,
        {
            proof {
                assert(splits.subrange(0, i as int + 1).drop_last() =~= splits.subrange(
                    0,
                    i as int,
                ));
                assert(splits.subrange(0, i as int + 1).last() == splits[i as int]);
                crate::rules::lemma_split_le_total(splits, i as int);
                crate::rules::lemma_shares_total_prefix(splits, i as int + 1, balance);
                crate::rules::lemma_shares_within_balance(splits, balance);
            }
            let pct: u8 = self.guilds[gi].prize_splits[i].percentage;
            let recipient: u64 = self.guilds[gi].prize_splits[i].agent;
            let share: u64 = crate::rules::prize_share(balance, pct);
            if share > 0 {
                match find_wallet_entry(&ws, recipient) {
                    Some(wi) => {
                        let cur: u64 = ws[wi].amount;
                        proof {
                            lemma_wallets_amount_at(ws@, wi as int);
                        }
                        if share > u64::MAX - cur {
                            proof {
                                crate::rules::lemma_owed_to_prefix(
                                    splits,
                                    i as int + 1,
                                    balance,
                                    recipient,
                                );
                                assert(wallets_amount(old(self).wallets@, recipient)
                                    + crate::rules::owed_to(splits, balance, recipient)
                                    > u64::MAX);
                            }
                            return Err(DistributePrizeError::BalanceOverflow);
                        }
                        let credited = Wallet { owner: recipient, amount: cur + share };
                        let ghost ws_pre = ws@;
                        ws[wi] = credited;
                        proof {
                            assert forall|a: int, b: int|
                                0 <= a < b < ws@.len() implies (#[trigger] ws@[a]).owner != (
                            #[trigger] ws@[b]).owner by {
                                assert(ws_pre[a].owner != ws_pre[b].owner);
                                if a == wi as int {
                                    assert(ws@[a].owner == ws_pre[a].owner);
                                }
                                if b == wi as int {
                                    assert(ws@[b].owner == ws_pre[b].owner);
                                }
                            }
                            assert forall|o: u64| true implies wallets_amount(ws@, o)
                                == wallets_amount(old(self).wallets@, o) + crate::rules::owed_to(
                                splits.subrange(0, i as int + 1),
                                balance,
                                o,
                            ) by {
                                lemma_wallets_amount_update(ws_pre, wi as int, credited, o);
                            }
                        }
                    }
                    None => {
                        proof {
                            lemma_wallets_amount_zero_prefix(ws@, recipient);
                        }
                        let entry = Wallet { owner: recipient, amount: share };
                        let ghost ws_pre = ws@;
                        ws.push(entry);
                        proof {
                            assert forall|a: int, b: int|
                                0 <= a < b < ws@.len() implies (#[trigger] ws@[a]).owner != (
                            #[trigger] ws@[b]).owner by {
                                assert(ws@[a] == ws_pre[a]);
                                if b < ws_pre.len() {
                                    assert(ws@[b] == ws_pre[b]);
                                }
                            }
                            assert forall|o: u64| true implies wallets_amount(ws@, o)
                                == wallets_amount(old(self).wallets@, o) + crate::rules::owed_to(
                                splits.subrange(0, i as int + 1),
                                balance,
                                o,
                            ) by {
                                lemma_wallets_amount_push(ws_pre, entry, o);
                            }
                        }
                    }
                }
            }
            paid = paid + share;
            i = i + 1;
        }
        proof {
            assert(splits.subrange(0, n as int) =~= splits);
        }
        self.wallets = ws;
        proof {
            lemma_linked_carry(*old(self), *self);
        }
        let ghost mid = *self;
        let mut g = self.guilds.remove(gi);
        g.treasury_balance = balance - paid;
        self.guilds.insert(gi, g);
        proof {
            assert(self.guilds@ =~= mid.guilds@.update(gi as int, self.guilds@[gi as int]));
            lemma_wf_update_guild(mid, *self, gi as int);
            assert forall|o: u64| true implies wallets_amount(old(self).wallets@, o)
                + crate::rules::owed_to(splits, balance, o) <= u64::MAX by {
                lemma_wallets_amount_bound(self.wallets@, o);
            }
        }
        Ok(())
    }

    /// The balance held at the wallet address of `owner`; zero when the
    /// core has observed no funds there.
    pub fn wallet_balance(&self, owner: u64) -> (r: u64)
        requires
            self.wf(),
        ensures
            r == wallets_amount(self.wallets@, owner),
    {
        match self.find_wallet(owner) {
            Some(i) => {
                proof {
                    lemma_wallets_amount_at(self.wallets@, i as int);
                }
                self.wallets[i].amount
            }
            None => {
                proof {
                    lemma_wallets_amount_zero_prefix(self.wallets@, owner);
                }
                0
            }
        }
    }
}

} // verus!
