use qawakun::proposal::{
    build_conversation_json, collect_resolved, from_contract_proposal, has_voted, is_vote_action,
    months_through, parse_conversation_json, pending_proposals, proposal_type_code,
    proposal_type_name, push_resolved, record_vote, summarize, to_contract_proposal,
    update_status, ContractProposal,
    ContractProposalResponse, Proposal, ProposalError, ProposalStore, ProposalUpdate,
    STATUS_IN_REVIEW, STATUS_IN_VOTING, STATUS_NEW, STATUS_REJECTED,
};

fn sample_proposal(wallet: &str, status: i32) -> Proposal {
    Proposal {
        wallet: String::from(wallet),
        fid: 7,
        proposal_type: String::from("WORLD"),
        description: String::from("expand the northern realm"),
        flexibility: 5,
        contact: String::from("user@example.com"),
        message_history: vec![String::from("hi"), String::from("yo")],
        timestamp: String::from("2024-01-15T10:30:00Z"),
        status,
        voters: Vec::new(),
        votes: 0,
        vote_nfts: Vec::new(),
    }
}

#[test]
fn status_update_accepts_lifecycle_codes() {
    let mut p = sample_proposal("0xA", STATUS_NEW);
    assert_eq!(update_status(&mut p, STATUS_IN_VOTING), Ok(()));
    assert_eq!(p.status, STATUS_IN_VOTING);
    assert_eq!(p.wallet, "0xA");
    assert_eq!(p.description, "expand the northern realm");
}

#[test]
fn status_update_rejects_out_of_range() {
    let mut p = sample_proposal("0xA", STATUS_IN_REVIEW);
    for bad in [0, 5, -1, 99] {
        assert_eq!(update_status(&mut p, bad), Err(ProposalError::InvalidStatus));
        assert_eq!(p.status, STATUS_IN_REVIEW);
        assert_eq!(p.wallet, "0xA");
        assert_eq!(p.votes, 0);
    }
}

#[test]
fn vote_recording_appends_everything_in_step() {
    let mut p = sample_proposal("0xA", STATUS_IN_VOTING);
    let voter = String::from("0xV");
    assert_eq!(record_vote(&mut p, voter.clone(), 11, String::from("t1")), Ok(()));
    assert_eq!(p.votes, 1);
    assert_eq!(p.voters, vec![String::from("0xV")]);
    assert_eq!(p.vote_nfts.len(), 1);
    assert_eq!(p.vote_nfts[0].token_id, 11);
    assert_eq!(p.vote_nfts[0].voter_wallet, "0xV");
    assert!(has_voted(&p, &voter));
}

#[test]
fn vote_idempotence() {
    let mut p = sample_proposal("0xA", STATUS_IN_VOTING);
    let voter = String::from("0xV");
    assert_eq!(record_vote(&mut p, voter.clone(), 11, String::from("t1")), Ok(()));
    let second = record_vote(&mut p, voter.clone(), 12, String::from("t2"));
    assert_eq!(second, Err(ProposalError::AlreadyVoted));
    assert_eq!(p.votes, 1);
    assert_eq!(p.voters, vec![String::from("0xV")]);
    assert_eq!(p.vote_nfts.len(), 1);
    assert_eq!(p.vote_nfts[0].token_id, 11);
}

#[test]
fn distinct_voters_accumulate() {
    let mut p = sample_proposal("0xA", STATUS_IN_VOTING);
    assert_eq!(record_vote(&mut p, String::from("0xV"), 1, String::from("t1")), Ok(()));
    assert_eq!(record_vote(&mut p, String::from("0xW"), 2, String::from("t2")), Ok(()));
    assert_eq!(p.votes, 2);
    assert_eq!(p.voters.len(), 2);
}

#[test]
fn store_upsert_is_last_write_wins() {
    let mut store = ProposalStore::new();
    store.submit(sample_proposal("0xA", STATUS_NEW));
    store.submit(sample_proposal("0xB", STATUS_NEW));
    let mut replacement = sample_proposal("0xA", STATUS_IN_REVIEW);
    replacement.description = String::from("revised");
    store.submit(replacement);
    assert_eq!(store.entries.len(), 2);
    let got = store.get(&String::from("0xA")).expect("record exists");
    assert_eq!(got.status, STATUS_IN_REVIEW);
    assert_eq!(got.description, "revised");
    assert!(store.get(&String::from("0xC")).is_none());
}

#[test]
fn store_status_update_flows() {
    let mut store = ProposalStore::new();
    store.submit(sample_proposal("0xA", STATUS_NEW));
    assert_eq!(
        store.update_status_by_wallet(&String::from("0xA"), 9),
        Err(ProposalError::InvalidStatus)
    );
    assert_eq!(
        store.update_status_by_wallet(&String::from("0xZ"), STATUS_REJECTED),
        Err(ProposalError::NotFound)
    );
    assert_eq!(store.update_status_by_wallet(&String::from("0xA"), STATUS_REJECTED), Ok(()));
    assert_eq!(store.get(&String::from("0xA")).expect("exists").status, STATUS_REJECTED);
}

#[test]
fn store_vote_flows() {
    let mut store = ProposalStore::new();
    store.submit(sample_proposal("0xA", STATUS_IN_VOTING));
    assert_eq!(
        store.record_vote_by_wallet(
            &String::from("0xZ"),
            String::from("0xV"),
            1,
            String::from("t")
        ),
        Err(ProposalError::NotFound)
    );
    assert_eq!(
        store.record_vote_by_wallet(
            &String::from("0xA"),
            String::from("0xV"),
            1,
            String::from("t")
        ),
        Ok(())
    );
    assert_eq!(
        store.record_vote_by_wallet(
            &String::from("0xA"),
            String::from("0xV"),
            2,
            String::from("t2")
        ),
        Err(ProposalError::AlreadyVoted)
    );
    let got = store.get(&String::from("0xA")).expect("exists");
    assert_eq!(got.votes, 1);
}

#[test]
fn pending_filter_keeps_new_and_in_review() {
    let mut store = ProposalStore::new();
    store.submit(sample_proposal("0xA", STATUS_NEW));
    store.submit(sample_proposal("0xB", STATUS_IN_VOTING));
    store.submit(sample_proposal("0xC", STATUS_IN_REVIEW));
    store.submit(sample_proposal("0xD", STATUS_REJECTED));
    let pending = pending_proposals(&store);
    assert_eq!(pending.len(), 2);
    assert_eq!(pending[0].wallet, "0xA");
    assert_eq!(pending[1].wallet, "0xC");
}

#[test]
fn summaries_mirror_the_store() {
    let mut store = ProposalStore::new();
    store.submit(sample_proposal("0xA", STATUS_NEW));
    store.submit(sample_proposal("0xB", STATUS_IN_VOTING));
    let rows = summarize(&store);
    assert_eq!(rows.len(), 2);
    assert_eq!(rows[0].wallet, "0xA");
    assert_eq!(rows[0].proposal_type, "WORLD");
    assert_eq!(rows[1].status, STATUS_IN_VOTING);
}

#[test]
fn type_codes_round_trip() {
    assert_eq!(proposal_type_code(&String::from("WORLD")), Some(0));
    assert_eq!(proposal_type_code(&String::from("CHARACTERS")), Some(1));
    assert_eq!(proposal_type_code(&String::from("LAWS")), Some(2));
    assert_eq!(proposal_type_code(&String::from("OTHER")), None);
    assert_eq!(proposal_type_name(0), Some(String::from("WORLD")));
    assert_eq!(proposal_type_name(1), Some(String::from("CHARACTERS")));
    assert_eq!(proposal_type_name(2), Some(String::from("LAWS")));
    assert_eq!(proposal_type_name(3), None);
}

#[test]
fn conversation_blob_is_exact_json() {
    let messages = vec![String::from("hi"), String::from("yo")];
    let blob = build_conversation_json(&messages, "user@example.com", 5);
    assert_eq!(
        blob,
        "{\"messages\":[\"hi\",\"yo\"],\"contact\":\"user@example.com\",\"flexibility\":5}"
    );
}

#[test]
fn conversation_blob_escapes_specials() {
    let messages = vec![String::from("say \"hi\"\\now"), String::from("line\nbreak")];
    let blob = build_conversation_json(&messages, "c", -2);
    assert_eq!(
        blob,
        "{\"messages\":[\"say \\\"hi\\\"\\\\now\",\"line\\u000abreak\"],\"contact\":\"c\",\"flexibility\":-2}"
    );
}

#[test]
fn contract_conversion_succeeds_on_well_formed_record() {
    let p = sample_proposal("0xA", STATUS_NEW);
    let c = to_contract_proposal(&p).expect("conversion succeeds");
    assert_eq!(c.proposer, "0xA");
    assert_eq!(c.proposal_type, 0);
    assert_eq!(c.description, "expand the northern realm");
    assert_eq!(c.timestamp, 20240115103000);
    assert_eq!(
        c.conversation,
        "{\"messages\":[\"hi\",\"yo\"],\"contact\":\"user@example.com\",\"flexibility\":5}"
    );
}

#[test]
fn contract_conversion_rejects_unknown_type() {
    let mut p = sample_proposal("0xA", STATUS_NEW);
    p.proposal_type = String::from("OTHER");
    match to_contract_proposal(&p) {
        Err(e) => assert_eq!(e, ProposalError::InvalidProposalType),
        Ok(_) => panic!("conversion must fail"),
    }
}

#[test]
fn contract_conversion_rejects_digitless_timestamp() {
    let mut p = sample_proposal("0xA", STATUS_NEW);
    p.timestamp = String::from("no-digits-here");
    match to_contract_proposal(&p) {
        Err(e) => assert_eq!(e, ProposalError::InvalidTimestamp),
        Ok(_) => panic!("conversion must fail"),
    }
}

#[test]
fn winners_aggregate_over_all_months_so_far() {
    let months = months_through(4);
    assert_eq!(months, vec![1, 2, 3, 4]);
    assert_eq!(months_through(0), Vec::<u64>::new());
}

fn resolved(id: u128) -> ContractProposalResponse {
    ContractProposalResponse {
        id,
        proposer: String::from("0xA"),
        proposal_type: 0,
        description: String::from("d"),
        conversation: String::from("{}"),
        timestamp: 1,
        approval_count: 0,
        rejection_count: 0,
        status: 1,
    }
}

#[test]
fn failed_resolutions_are_skipped_not_fatal() {
    let mut out = Vec::new();
    push_resolved(&mut out, Some(resolved(1)));
    push_resolved(&mut out, None);
    push_resolved(&mut out, Some(resolved(3)));
    assert_eq!(out.len(), 2);
    assert_eq!(out[0].id, 1);
    assert_eq!(out[1].id, 3);
}

#[test]
fn listing_keeps_resolved_in_order() {
    let items = vec![Some(resolved(1)), None, Some(resolved(3)), Some(resolved(4)), None];
    let out = collect_resolved(items);
    assert_eq!(out.len(), 3);
    assert_eq!(out[0].id, 1);
    assert_eq!(out[1].id, 3);
    assert_eq!(out[2].id, 4);
    assert_eq!(collect_resolved(Vec::new()).len(), 0);
}

#[test]
fn conversation_blob_parses_back() {
    let messages = vec![String::from("say \"hi\"\\now"), String::from("line\nbreak")];
    let blob = build_conversation_json(&messages, "user@example.com", -7);
    let (m, c, f) = parse_conversation_json(&blob).expect("own blob parses");
    assert_eq!(m, messages);
    assert_eq!(c, "user@example.com");
    assert_eq!(f, -7);
}

#[test]
fn conversation_blob_parses_back_when_empty() {
    let messages: Vec<String> = Vec::new();
    let blob = build_conversation_json(&messages, "", 10);
    let (m, c, f) = parse_conversation_json(&blob).expect("own blob parses");
    assert_eq!(m, messages);
    assert_eq!(c, "");
    assert_eq!(f, 10);
}

#[test]
fn conversation_parse_rejects_foreign_text() {
    assert!(parse_conversation_json("not a blob").is_none());
    assert!(parse_conversation_json("{\"messages\":[\"hi\"]").is_none());
    assert!(parse_conversation_json("").is_none());
}

#[test]
fn contract_round_trip_keeps_the_conversation() {
    let p = sample_proposal("0xA", STATUS_IN_VOTING);
    let c = to_contract_proposal(&p).expect("conversion succeeds");
    let back = from_contract_proposal(&c).expect("reverse conversion succeeds");
    assert_eq!(back.wallet, p.wallet);
    assert_eq!(back.proposal_type, p.proposal_type);
    assert_eq!(back.description, p.description);
    assert_eq!(back.message_history, p.message_history);
    assert_eq!(back.contact, p.contact);
    assert_eq!(back.flexibility, p.flexibility);
    assert_eq!(back.timestamp, "20240115103000");
    assert_eq!(back.status, STATUS_NEW);
    assert_eq!(back.fid, 0);
    assert_eq!(back.votes, 0);
}

#[test]
fn reverse_conversion_rejects_unknown_code() {
    let c = ContractProposal {
        proposer: String::from("0xA"),
        proposal_type: 9,
        description: String::from("d"),
        conversation: String::from("{\"messages\":[],\"contact\":\"\",\"flexibility\":1}"),
        timestamp: 1,
    };
    match from_contract_proposal(&c) {
        Err(e) => assert_eq!(e, ProposalError::InvalidProposalType),
        Ok(_) => panic!("must fail"),
    }
}

#[test]
fn reverse_conversion_rejects_foreign_blob() {
    let c = ContractProposal {
        proposer: String::from("0xA"),
        proposal_type: 0,
        description: String::from("d"),
        conversation: String::from("{\"unexpected\":true}"),
        timestamp: 1,
    };
    match from_contract_proposal(&c) {
        Err(e) => assert_eq!(e, ProposalError::MalformedConversation),
        Ok(_) => panic!("must fail"),
    }
}

#[test]
fn vote_action_recognised() {
    let u = ProposalUpdate {
        action: String::from("vote"),
        voter_wallet: Some(String::from("0xV")),
        timestamp: None,
        status: None,
    };
    assert!(is_vote_action(&u));
    let other = ProposalUpdate {
        action: String::from("rename"),
        voter_wallet: None,
        timestamp: None,
        status: None,
    };
    assert!(!is_vote_action(&other));
}
