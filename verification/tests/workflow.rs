use qawakun::workflow::{
    build_claim_profile, check_eligibility, claim_response, claim_status_response,
    record_vote_paired, run_claim, wallet_address_valid, ClaimError, ClaimStore, LedgerModel,
    VoteError,
};
use qawakun::ENGAGEMENT_THRESHOLD;

fn fresh_world() -> (LedgerModel, ClaimStore) {
    (LedgerModel::new(String::from("0xSERVICE")), ClaimStore::new())
}

#[test]
fn threshold_gate_refuses_five_turns() {
    assert_eq!(check_eligibility(0, 5), Err(ClaimError::InsufficientEngagement(5)));
}

#[test]
fn threshold_gate_admits_six_turns() {
    assert_eq!(check_eligibility(0, 6), Ok(()));
}

#[test]
fn positive_balance_means_already_claimed() {
    assert_eq!(check_eligibility(1, 100), Err(ClaimError::AlreadyClaimed));
}

#[test]
fn threshold_constant_is_six() {
    assert_eq!(ENGAGEMENT_THRESHOLD, 6);
}

#[test]
fn end_to_end_claim_and_repeat() {
    let (mut ledger, mut claims) = fresh_world();
    let wallet = String::from("0xA");

    let token = run_claim(&mut ledger, &mut claims, &wallet, 42, 7, String::from("2024-01-15"), true, true)
        .expect("first claim succeeds");
    assert_eq!(ledger.mint_count, 1);
    assert_eq!(ledger.balance_of(&wallet), 1);
    assert_eq!(claims.claims.len(), 1);
    assert_eq!(claims.claims[0].wallet, "0xA");
    assert_eq!(claims.claims[0].fid, 42);
    assert_eq!(claims.claims[0].token_id, token);
    assert!(claims.has_claim(&wallet));

    let second = run_claim(&mut ledger, &mut claims, &wallet, 42, 9, String::from("2024-01-16"), true, true);
    assert_eq!(second, Err(ClaimError::AlreadyClaimed));
    assert_eq!(ledger.mint_count, 1);
    assert_eq!(claims.claims.len(), 1);
}

#[test]
fn insufficient_engagement_leaves_world_untouched() {
    let (mut ledger, mut claims) = fresh_world();
    let wallet = String::from("0xB");
    let r = run_claim(&mut ledger, &mut claims, &wallet, 7, 5, String::from("2024-02-01"), true, true);
    assert_eq!(r, Err(ClaimError::InsufficientEngagement(5)));
    assert_eq!(ledger.mint_count, 0);
    assert_eq!(claims.claims.len(), 0);
    assert!(!claims.has_claim(&wallet));
}

#[test]
fn distinct_wallets_claim_independently() {
    let (mut ledger, mut claims) = fresh_world();
    let a = String::from("0xA");
    let b = String::from("0xB");
    let ta = run_claim(&mut ledger, &mut claims, &a, 1, 6, String::from("t1"), true, true).expect("a claims");
    let tb = run_claim(&mut ledger, &mut claims, &b, 2, 8, String::from("t2"), true, true).expect("b claims");
    assert_ne!(ta, tb);
    assert_eq!(ledger.mint_count, 2);
    assert_eq!(ledger.balance_of(&a), 1);
    assert_eq!(ledger.balance_of(&b), 1);
}

#[test]
fn mint_guard_reverts_for_holder() {
    let (mut ledger, mut claims) = fresh_world();
    let wallet = String::from("0xC");
    run_claim(&mut ledger, &mut claims, &wallet, 3, 6, String::from("t"), true, true).expect("claims");
    let r = ledger.mint(&wallet);
    assert_eq!(r, Err(qawakun::ledger::LedgerError::GasEstimationError));
    assert_eq!(ledger.mint_count, 1);
}

#[test]
fn undelivered_transfer_strands_asset_with_service() {
    let (mut ledger, mut claims) = fresh_world();
    let wallet = String::from("0xD");
    let r = run_claim(&mut ledger, &mut claims, &wallet, 4, 8, String::from("t"), true, false);
    assert_eq!(r, Err(ClaimError::Ledger(qawakun::ledger::LedgerError::TransferFailed)));
    // the mint was submitted, but the asset stays with the service wallet
    // and no claim record exists: the manual-recovery boundary
    assert_eq!(ledger.mint_count, 1);
    assert_eq!(ledger.balance_of(&wallet), 0);
    assert_eq!(ledger.balance_of(&String::from("0xSERVICE")), 1);
    assert_eq!(claims.claims.len(), 0);
    assert!(!claims.has_claim(&wallet));
}

#[test]
fn undelivered_mint_changes_nothing() {
    let (mut ledger, mut claims) = fresh_world();
    let wallet = String::from("0xE");
    let r = run_claim(&mut ledger, &mut claims, &wallet, 5, 8, String::from("t"), false, true);
    assert_eq!(r, Err(ClaimError::Ledger(qawakun::ledger::LedgerError::TransactionFailed)));
    assert_eq!(ledger.mint_count, 0);
    assert_eq!(ledger.balance_of(&wallet), 0);
    assert_eq!(claims.claims.len(), 0);
}

#[test]
fn wallet_format_is_checked() {
    assert!(wallet_address_valid("0x52908400098527886E0F7030069857D2E4169EE7"));
    assert!(wallet_address_valid("0xde709f2102306220921060314715629080e2fb77"));
    assert!(!wallet_address_valid("0xA"));
    assert!(!wallet_address_valid("52908400098527886E0F7030069857D2E4169EE7"));
    assert!(!wallet_address_valid("0x52908400098527886E0F7030069857D2E4169EZ7"));
    assert!(!wallet_address_valid(""));
}

#[test]
fn paired_vote_records_nothing_on_mint_failure() {
    let mut store = qawakun::proposal::ProposalStore::new();
    store.submit(voting_proposal("0xP"));
    let outcome: Result<u64, ClaimError> = Err(ClaimError::AlreadyClaimed);
    let r = record_vote_paired(
        &mut store,
        &String::from("0xP"),
        String::from("0xV"),
        &outcome,
        String::from("t"),
    );
    assert_eq!(r, Err(VoteError::Mint(ClaimError::AlreadyClaimed)));
    let p = store.get(&String::from("0xP")).expect("record exists");
    assert_eq!(p.votes, 0);
    assert_eq!(p.voters.len(), 0);
}

#[test]
fn paired_vote_records_on_mint_success() {
    let mut store = qawakun::proposal::ProposalStore::new();
    store.submit(voting_proposal("0xP"));
    let outcome: Result<u64, ClaimError> = Ok(7);
    let r = record_vote_paired(
        &mut store,
        &String::from("0xP"),
        String::from("0xV"),
        &outcome,
        String::from("t"),
    );
    assert_eq!(r, Ok(7));
    let p = store.get(&String::from("0xP")).expect("record exists");
    assert_eq!(p.votes, 1);
    assert_eq!(p.voters, vec![String::from("0xV")]);
    assert_eq!(p.vote_nfts[0].token_id, 7);
    assert_eq!(p.description, "keep");
    let again = record_vote_paired(
        &mut store,
        &String::from("0xP"),
        String::from("0xV"),
        &outcome,
        String::from("t2"),
    );
    assert_eq!(
        again,
        Err(VoteError::Proposal(qawakun::proposal::ProposalError::AlreadyVoted))
    );
}

fn voting_proposal(wallet: &str) -> qawakun::proposal::Proposal {
    qawakun::proposal::Proposal {
        wallet: String::from(wallet),
        fid: 1,
        proposal_type: String::from("WORLD"),
        description: String::from("keep"),
        flexibility: 5,
        contact: String::from("c"),
        message_history: Vec::new(),
        timestamp: String::from("1"),
        status: qawakun::proposal::STATUS_IN_VOTING,
        voters: Vec::new(),
        votes: 0,
        vote_nfts: Vec::new(),
    }
}

#[test]
fn transfer_fails_for_unowned_token() {
    let (mut ledger, _) = fresh_world();
    let from = String::from("0xX");
    let to = String::from("0xY");
    let r = ledger.transfer_from(&from, &to, 5);
    assert_eq!(r, Err(qawakun::ledger::LedgerError::TransactionFailed));
}

#[test]
fn claim_response_reports_success() {
    let wallet = String::from("0xA");
    let resp = claim_response(&Ok(9), &wallet);
    assert!(resp.has_claimed);
    assert_eq!(resp.token_id, Some(9));
    assert_eq!(resp.message, "NFT claim successful");
}

#[test]
fn claim_response_reports_engagement_count() {
    let wallet = String::from("0xA");
    let resp = claim_response(&Err(ClaimError::InsufficientEngagement(5)), &wallet);
    assert!(!resp.has_claimed);
    assert_eq!(resp.token_id, None);
    assert_eq!(resp.message, "Not enough interactions. Current: 5, Required: 6");
}

#[test]
fn claim_response_reports_already_claimed() {
    let wallet = String::from("0xA");
    let resp = claim_response(&Err(ClaimError::AlreadyClaimed), &wallet);
    assert!(resp.has_claimed);
    assert_eq!(resp.token_id, None);
    assert_eq!(resp.message, "NFT already claimed");
}

#[test]
fn claim_response_names_wallet_without_conversation() {
    let wallet = String::from("0xA");
    let resp = claim_response(&Err(ClaimError::NoConversation), &wallet);
    assert_eq!(resp.message, "No conversation found for wallet: 0xA");
}

#[test]
fn claim_profile_embeds_the_claim_payload() {
    let profile = build_claim_profile(&String::from("0xA"), 42, 7, "2024-01-15", "the transcript");
    assert_eq!(profile.username, "Farcaster User 42");
    assert_eq!(profile.wallet_address, "0xA");
    assert_eq!(profile.email, "");
    assert_eq!(profile.avatar_url, "");
    assert_eq!(
        profile.additional_data,
        Some(String::from(
            "{\"fid\":42,\"message_count\":7,\"claim_timestamp\":\"2024-01-15\",\"conversation\":\"the transcript\"}"
        ))
    );
}

#[test]
fn claim_status_responses() {
    let claimed = claim_status_response(true);
    assert!(claimed.has_claimed);
    assert_eq!(claimed.message, "Come back soon!");
    let open = claim_status_response(false);
    assert!(!open.has_claimed);
    assert_eq!(open.message, "Not claimed yet");
}
