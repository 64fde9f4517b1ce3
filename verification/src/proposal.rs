//! Proposal records and their lifecycle.
//!
//! A proposal is keyed by the submitting wallet and moves through the
//! statuses new (1), in review (2), in voting (3) and rejected (4). Votes
//! are recorded at most once per voter wallet, each paired with the
//! credential minted for the voter: either both happen or neither does.

use crate::jsontext::{append_dec_i32, append_json_string, append_json_string_list, dec_char_val,
    lemma_dec_digits_all_digits, lemma_dec_val_of_digits, lemma_digit_run_of_emit,
    lemma_parse_array_of_emit, lemma_parse_body_of_escape, lemma_skip_shift, append_dec_u128,
    dec_val_of_range, digit_run_end, lit_at, parse_digits_u128, parse_json_string,
    parse_string_array, spec_dec_digits, spec_dec_signed, spec_dec_val, spec_digit_run_end,
    spec_digits_of, spec_json_escape, spec_json_string, spec_json_string_list, spec_lit_at,
    spec_parse_json_string, spec_parse_string_array};
use vstd::prelude::*;
use vstd::string::{StrSliceExecFns, StringExecFns};

verus! {

/// Status of a freshly submitted proposal.
pub const STATUS_NEW: i32 = 1;

/// Status of a proposal under review.
pub const STATUS_IN_REVIEW: i32 = 2;

/// Status of a proposal opened for voting.
pub const STATUS_IN_VOTING: i32 = 3;

/// Status of a rejected proposal.
pub const STATUS_REJECTED: i32 = 4;

/// The status codes a proposal record may hold.
pub open spec fn valid_status(s: i32) -> bool {
    1 <= s <= 4
}

/// Failure of a proposal operation.
#[derive(Clone, Copy, Debug, PartialEq, Eq, Structural)]
pub enum ProposalError {
    /// The requested status is not one of the four lifecycle codes.
    InvalidStatus,
    /// No proposal record exists for the given wallet.
    NotFound,
    /// The voter wallet already voted on this proposal.
    AlreadyVoted,
    /// The proposal type is none of the three known kinds.
    InvalidProposalType,
    /// The timestamp holds no digits, or its digits exceed the integer
    /// range of the on-chain field.
    InvalidTimestamp,
    /// An on-chain conversation blob is not one this service wrote, or
    /// its flexibility does not fit the record's range.
    MalformedConversation,
}

impl ProposalError {
    /// A short reason text for logs and responses.
    pub fn message(&self) -> (r: String)
        ensures
            r@.len() > 0,
    {
        let r = match self {
            ProposalError::InvalidStatus => "invalid status",
            ProposalError::NotFound => "proposal not found",
            ProposalError::AlreadyVoted => "already voted on this proposal",
            ProposalError::InvalidProposalType => "invalid proposal type",
            ProposalError::InvalidTimestamp => "invalid timestamp",
            ProposalError::MalformedConversation => "malformed conversation blob",
        };
        proof {
            reveal_strlit("invalid status");
            reveal_strlit("proposal not found");
            reveal_strlit("already voted on this proposal");
            reveal_strlit("invalid proposal type");
            reveal_strlit("invalid timestamp");
            reveal_strlit("malformed conversation blob");
        }
        String::from_str(r)
    }
}

/// One recorded vote: the credential minted for the voter, who cast it,
/// and when.
pub struct VoteNft {
    pub token_id: u64,
    pub voter_wallet: String,
    pub timestamp: String,
}

/// Mathematical shape of a recorded vote.
pub ghost struct VoteNftView {
    pub token_id: u64,
    pub voter_wallet: Seq<char>,
    pub timestamp: Seq<char>,
}

impl View for VoteNft {
    type V = VoteNftView;

    open spec fn view(&self) -> VoteNftView {
        VoteNftView {
            token_id: self.token_id,
            voter_wallet: self.voter_wallet@,
            timestamp: self.timestamp@,
        }
    }
}

/// A community proposal record, keyed by the submitting wallet.
pub struct Proposal {
    pub wallet: String,
    pub fid: u64,
    pub proposal_type: String,
    pub description: String,
    pub flexibility: i32,
    pub contact: String,
    pub message_history: Vec<String>,
    pub timestamp: String,
    pub status: i32,
    pub voters: Vec<String>,
    pub votes: u64,
    pub vote_nfts: Vec<VoteNft>,
}

/// The views of a list of recorded votes.
pub open spec fn nft_views(s: Seq<VoteNft>) -> Seq<VoteNftView> {
    s.map(|i: int, v: VoteNft| v@)
}

/// The views of a list of proposal records.
pub open spec fn proposal_views(s: Seq<Proposal>) -> Seq<ProposalView> {
    s.map(|i: int, p: Proposal| p@)
}

/// Mathematical shape of a proposal record.
pub ghost struct ProposalView {
    pub wallet: Seq<char>,
    pub fid: u64,
    pub proposal_type: Seq<char>,
    pub description: Seq<char>,
    pub flexibility: i32,
    pub contact: Seq<char>,
    pub message_history: Seq<Seq<char>>,
    pub timestamp: Seq<char>,
    pub status: i32,
    pub voters: Seq<Seq<char>>,
    pub votes: u64,
    pub vote_nfts: Seq<VoteNftView>,
}

impl View for Proposal {
    type V = ProposalView;

    open spec fn view(&self) -> ProposalView {
        ProposalView {
            wallet: self.wallet@,
            fid: self.fid,
            proposal_type: self.proposal_type@,
            description: self.description@,
            flexibility: self.flexibility,
            contact: self.contact@,
            message_history: self.message_history.deep_view(),
            timestamp: self.timestamp@,
            status: self.status,
            voters: self.voters.deep_view(),
            votes: self.votes,
            vote_nfts: nft_views(self.vote_nfts@),
        }
    }
}

/// The vote bookkeeping of a record is consistent: one voter entry and one
/// paired credential per counted vote.
pub open spec fn proposal_vote_wf(p: ProposalView) -> bool {
    &&& p.votes == p.voters.len()
    &&& p.vote_nfts.len() == p.voters.len()
}

/// The record `after` is `before` with only its status replaced by `s`.
pub open spec fn status_updated(before: ProposalView, after: ProposalView, s: i32) -> bool {
    after == ProposalView { status: s, ..before }
}

/// Set a proposal's status. A status outside the four lifecycle codes is
/// rejected and the record is left exactly as it was.
pub fn update_status(p: &mut Proposal, new_status: i32) -> (r: Result<(), ProposalError>)
    ensures
        valid_status(new_status) ==> r == Ok::<(), ProposalError>(()) && status_updated(
            old(p)@,
            final(p)@,
            new_status,
        ),
        !valid_status(new_status) ==> r == Err::<(), ProposalError>(ProposalError::InvalidStatus)
            && final(p)@ == old(p)@,
{
    if new_status < 1 || new_status > 4 {
        return Err(ProposalError::InvalidStatus);
    }
    p.status = new_status;
    Ok(())
}

/// Whether `voter` already voted on this proposal.
pub fn has_voted(p: &Proposal, voter: &String) -> (r: bool)
    ensures
        r == p@.voters.contains(voter@),
{
    let n = p.voters.len();
    let mut i: usize = 0;
    while i < n
        invariant
            i <= n,
            n == p.voters@.len(),
            forall|k: int| 0 <= k < i ==> p@.voters[k] != voter@,
        decreases n - i,
    {
        proof {
            assert(p@.voters[i as int] =~= p.voters@[i as int]@);
        }
        if p.voters[i].eq(voter) {
            proof {
                assert(p@.voters.contains(voter@));
            }
            return true;
        }
        i = i + 1;
    }
    proof {
        if p@.voters.contains(voter@) {
            let k = choose|k: int| 0 <= k < p@.voters.len() && p@.voters[k] == voter@;
            assert(p@.voters[k] != voter@);
        }
    }
    false
}

/// Record a vote paired with the credential minted for the voter. A wallet
/// already in the voter list is refused with `AlreadyVoted` and the record
/// is left exactly as it was; otherwise the voter is appended, the count
/// rises by one, and the paired credential entry is appended.
pub fn record_vote(p: &mut Proposal, voter: String, token_id: u64, timestamp: String) -> (r:
    Result<(), ProposalError>)
    requires
        proposal_vote_wf(old(p)@),
    ensures
        proposal_vote_wf(final(p)@),
        old(p)@.voters.contains(voter@) ==> r == Err::<(), ProposalError>(
            ProposalError::AlreadyVoted,
        ) && final(p)@ == old(p)@,
        !old(p)@.voters.contains(voter@) ==> {
            &&& r == Ok::<(), ProposalError>(())
            &&& final(p)@.voters == old(p)@.voters.push(voter@)
            &&& final(p)@.voters.contains(voter@)
            &&& final(p)@.votes == old(p)@.votes + 1
            &&& final(p)@.vote_nfts == old(p)@.vote_nfts.push(
                VoteNftView { token_id, voter_wallet: voter@, timestamp: timestamp@ },
            )
            &&& final(p)@ == ProposalView {
                voters: final(p)@.voters,
                votes: final(p)@.votes,
                vote_nfts: final(p)@.vote_nfts,
                ..old(p)@
            }
        },
{
    if has_voted(p, &voter) {
        return Err(ProposalError::AlreadyVoted);
    }
    let ghost before = p@;
    let ghost voter_view = voter@;
    let nft = VoteNft { token_id, voter_wallet: voter.clone(), timestamp };
    p.voters.push(voter);
    p.votes = p.voters.len() as u64;
    p.vote_nfts.push(nft);
    proof {
        assert(final(p)@.voters =~= before.voters.push(voter_view));
        assert(final(p)@.vote_nfts =~= before.vote_nfts.push(
            VoteNftView { token_id, voter_wallet: voter_view, timestamp: nft.timestamp@ },
        ));
        assert(final(p)@.voters[before.voters.len() as int] == voter_view);
        assert(final(p)@.voters.contains(voter_view));
    }
    Ok(())
}

/// The record store for proposals: one record per wallet, keyed by the
/// wallet text, as the shared key/value store's `proposals` collection
/// holds them.
pub struct ProposalStore {
    pub entries: Vec<Proposal>,
}

impl View for ProposalStore {
    type V = Seq<ProposalView>;

    open spec fn view(&self) -> Seq<ProposalView> {
        proposal_views(self.entries@)
    }
}

/// Some record in `s` is keyed by wallet `w`.
pub open spec fn has_wallet(s: Seq<ProposalView>, w: Seq<char>) -> bool {
    exists|i: int| 0 <= i < s.len() && s[i].wallet == w
}

/// No two records share a wallet key.
pub open spec fn store_wf(s: Seq<ProposalView>) -> bool {
    forall|i: int, j: int|
        0 <= i < j < s.len() ==> (#[trigger] s[i].wallet) != (#[trigger] s[j].wallet)
}

/// The record keyed by `w`, if any.
pub open spec fn spec_get(s: Seq<ProposalView>, w: Seq<char>) -> Option<ProposalView> {
    if has_wallet(s, w) {
        Some(s[choose|i: int| 0 <= i < s.len() && s[i].wallet == w])
    } else {
        None
    }
}

impl ProposalStore {
    /// An empty store.
    pub fn new() -> (r: ProposalStore)
        ensures
            r@ == Seq::<ProposalView>::empty(),
            store_wf(r@),
    {
        let r = ProposalStore { entries: Vec::new() };
        proof {
            assert(r@ =~= Seq::<ProposalView>::empty());
        }
        r
    }

    /// The index of the record keyed by `wallet`, if any.
    fn find(&self, wallet: &String) -> (r: Option<usize>)
        ensures
            match r {
                Some(i) => i < self@.len() && self@[i as int].wallet == wallet@,
                None => !has_wallet(self@, wallet@),
            },
    {
        let n = self.entries.len();
        let mut i: usize = 0;
        while i < n
            invariant
                i <= n,
                n == self.entries@.len(),
                forall|k: int| 0 <= k < i ==> self@[k].wallet != wallet@,
            decreases n - i,
        {
            if self.entries[i].wallet.eq(wallet) {
                return Some(i);
            }
            i = i + 1;
        }
        proof {
            if has_wallet(self@, wallet@) {
                let k = choose|k: int| 0 <= k < self@.len() && self@[k].wallet == wallet@;
                assert(self@[k].wallet != wallet@);
            }
        }
        None
    }

    /// Fetch the record keyed by `wallet`.
    pub fn get(&self, wallet: &String) -> (r: Option<&Proposal>)
        requires
            store_wf(self@),
        ensures
            match r {
                Some(p) => spec_get(self@, wallet@) == Some(p@),
                None => spec_get(self@, wallet@) is None,
            },
    {
        match self.find(wallet) {
            Some(i) => {
                proof {
                    let k = choose|k: int| 0 <= k < self@.len() && self@[k].wallet == wallet@;
                    assert(self@[k].wallet == self@[i as int].wallet);
                    assert(k == i);
                }
                Some(&self.entries[i])
            },
            None => None,
        }
    }

    /// Submit a proposal: upsert by wallet key, last write wins. After the
    /// call the submitted record is the one its wallet maps to, and every
    /// other wallet maps to what it mapped to before.
    pub fn submit(&mut self, p: Proposal)
        requires
            store_wf(old(self)@),
        ensures
            store_wf(final(self)@),
            store_votes_wf(old(self)@) && proposal_vote_wf(p@) ==> store_votes_wf(final(self)@),
            spec_get(final(self)@, p@.wallet) == Some(p@),
            forall|w: Seq<char>|
                w != p@.wallet ==> #[trigger] spec_get(final(self)@, w) == spec_get(old(self)@, w),
            final(self)@.len() == if has_wallet(old(self)@, p@.wallet) {
                old(self)@.len()
            } else {
                old(self)@.len() + 1
            },
    {
        let ghost pview = p@;
        let ghost before = self@;
        match self.find(&p.wallet) {
            Some(i) => {
                self.entries[i] = p;
                proof {
                    assert(final(self)@ =~= before.update(i as int, pview));
                    if store_votes_wf(before) && proposal_vote_wf(pview) {
                        assert forall|k: int| 0 <= k < self@.len() implies proposal_vote_wf(
                            #[trigger] self@[k],
                        ) by {
                            if k != i {
                                assert(self@[k] == before[k]);
                            }
                        }
                    }
                    lemma_upsert_semantics(before, final(self)@, pview, i as int);
                }
            },
            None => {
                self.entries.push(p);
                proof {
                    assert(final(self)@ =~= before.push(pview));
                    lemma_append_semantics(before, final(self)@, pview);
                    if store_votes_wf(before) && proposal_vote_wf(pview) {
                        assert forall|k: int| 0 <= k < self@.len() implies proposal_vote_wf(
                            #[trigger] self@[k],
                        ) by {
                            if k < before.len() {
                                assert(self@[k] == before[k]);
                            } else {
                                assert(self@[k] == pview);
                            }
                        }
                    }
                }
            },
        }
    }
}

/// Every record's vote bookkeeping is consistent.
pub open spec fn store_votes_wf(s: Seq<ProposalView>) -> bool {
    forall|i: int| 0 <= i < s.len() ==> proposal_vote_wf(#[trigger] s[i])
}

impl ProposalStore {
    /// Set the status of the record keyed by `wallet`. A status outside
    /// the four lifecycle codes is refused before the store is read; a
    /// wallet without a record is `NotFound`; otherwise only that record's
    /// status changes.
    pub fn update_status_by_wallet(&mut self, wallet: &String, new_status: i32) -> (r: Result<
        (),
        ProposalError,
    >)
        requires
            store_wf(old(self)@),
        ensures
            store_wf(final(self)@),
            !valid_status(new_status) ==> r == Err::<(), ProposalError>(
                ProposalError::InvalidStatus,
            ) && final(self)@ == old(self)@,
            valid_status(new_status) && !has_wallet(old(self)@, wallet@) ==> r == Err::<
                (),
                ProposalError,
            >(ProposalError::NotFound) && final(self)@ == old(self)@,
            valid_status(new_status) && has_wallet(old(self)@, wallet@) ==> {
                &&& r == Ok::<(), ProposalError>(())
                &&& spec_get(final(self)@, wallet@) matches Some(p) && spec_get(old(self)@, wallet@)
                    matches Some(q) && status_updated(q, p, new_status)
                &&& forall|w: Seq<char>|
                    w != wallet@ ==> #[trigger] spec_get(final(self)@, w) == spec_get(
                        old(self)@,
                        w,
                    )
            },
    {
        if new_status < 1 || new_status > 4 {
            return Err(ProposalError::InvalidStatus);
        }
        let ghost before = self@;
        match self.find(wallet) {
            None => Err(ProposalError::NotFound),
            Some(i) => {
                let ghost old_rec = self@[i as int];
                let res = update_status(&mut self.entries[i], new_status);
                proof {
                    assert(res == Ok::<(), ProposalError>(()));
                    let new_rec = self@[i as int];
                    assert(final(self)@ =~= before.update(i as int, new_rec));
                    assert(new_rec.wallet == old_rec.wallet);
                    lemma_upsert_semantics(before, self@, new_rec, i as int);
                    lemma_get_at(before, i as int);
                }
                Ok(())
            },
        }
    }

    /// Record a vote on the record keyed by `wallet`, paired with the
    /// credential minted for the voter. A wallet without a record is
    /// `NotFound`; a voter already admitted is refused with
    /// `AlreadyVoted`; otherwise only that record changes, as
    /// [`record_vote`] says.
    pub fn record_vote_by_wallet(
        &mut self,
        wallet: &String,
        voter: String,
        token_id: u64,
        timestamp: String,
    ) -> (r: Result<(), ProposalError>)
        requires
            store_wf(old(self)@),
            store_votes_wf(old(self)@),
        ensures
            store_wf(final(self)@),
            store_votes_wf(final(self)@),
            !has_wallet(old(self)@, wallet@) ==> r == Err::<(), ProposalError>(
                ProposalError::NotFound,
            ) && final(self)@ == old(self)@,
            has_wallet(old(self)@, wallet@) && spec_get(old(self)@, wallet@)->0.voters.contains(
                voter@,
            ) ==> r == Err::<(), ProposalError>(ProposalError::AlreadyVoted) && final(self)@ == old(
                self,
            )@,
            has_wallet(old(self)@, wallet@) && !spec_get(old(self)@, wallet@)->0.voters.contains(
                voter@,
            ) ==> {
                &&& r == Ok::<(), ProposalError>(())
                &&& spec_get(final(self)@, wallet@) matches Some(p) && {
                    &&& p.voters == spec_get(old(self)@, wallet@)->0.voters.push(voter@)
                    &&& p.votes == spec_get(old(self)@, wallet@)->0.votes + 1
                    &&& p.vote_nfts == spec_get(old(self)@, wallet@)->0.vote_nfts.push(
                        VoteNftView { token_id, voter_wallet: voter@, timestamp: timestamp@ },
                    )
                    &&& p == ProposalView {
                        voters: p.voters,
                        votes: p.votes,
                        vote_nfts: p.vote_nfts,
                        ..spec_get(old(self)@, wallet@)->0
                    }
                }
                &&& forall|w: Seq<char>|
                    w != wallet@ ==> #[trigger] spec_get(final(self)@, w) == spec_get(
                        old(self)@,
                        w,
                    )
            },
    {
        let ghost before = self@;
        match self.find(wallet) {
            None => Err(ProposalError::NotFound),
            Some(i) => {
                let ghost old_rec = self@[i as int];
                proof {
                    lemma_get_at(before, i as int);
                    assert(proposal_vote_wf(old_rec));
                }
                let res = record_vote(&mut self.entries[i], voter, token_id, timestamp);
                let ghost new_rec = self@[i as int];
                proof {
                    assert(final(self)@ =~= before.update(i as int, new_rec));
                    assert(new_rec.wallet == old_rec.wallet);
                    lemma_upsert_semantics(before, self@, new_rec, i as int);
                    assert forall|k: int| 0 <= k < self@.len() implies proposal_vote_wf(
                        #[trigger] self@[k],
                    ) by {
                        if k != i {
                            assert(self@[k] == before[k]);
                        }
                    }
                }
                match res {
                    Ok(()) => Ok(()),
                    Err(e) => {
                        proof {
                            assert(final(self)@ =~= before);
                        }
                        Err(e)
                    },
                }
            },
        }
    }
}

/// Replacing the record at the key's own index keeps the store a map and
/// changes only that key's record.
proof fn lemma_upsert_semantics(before: Seq<ProposalView>, after: Seq<ProposalView>, p: ProposalView, i: int)
    requires
        store_wf(before),
        0 <= i < before.len(),
        before[i].wallet == p.wallet,
        after == before.update(i, p),
    ensures
        store_wf(after),
        spec_get(after, p.wallet) == Some(p),
        forall|w: Seq<char>| w != p.wallet ==> #[trigger] spec_get(after, w) == spec_get(before, w),
{
    assert forall|a: int, b: int| 0 <= a < b < after.len() implies (#[trigger] after[a].wallet)
        != (#[trigger] after[b].wallet) by {
        assert(before[a].wallet != before[b].wallet);
    }
    assert(after[i].wallet == p.wallet);
    assert(has_wallet(after, p.wallet));
    let k = choose|k: int| 0 <= k < after.len() && after[k].wallet == p.wallet;
    assert(k == i) by {
        if k != i {
            if k < i {
                assert(after[k].wallet != after[i].wallet);
            } else {
                assert(after[i].wallet != after[k].wallet);
            }
        }
    }
    assert forall|w: Seq<char>| w != p.wallet implies #[trigger] spec_get(after, w) == spec_get(
        before,
        w,
    ) by {
        assert(forall|j: int|
            0 <= j < after.len() && j != i ==> #[trigger] after[j] == before[j]);
        if has_wallet(after, w) {
            let a = choose|a: int| 0 <= a < after.len() && after[a].wallet == w;
            assert(a != i);
            assert(before[a].wallet == w);
            lemma_get_at(before, a);
            lemma_get_at(after, a);
        } else {
            if has_wallet(before, w) {
                let a = choose|a: int| 0 <= a < before.len() && before[a].wallet == w;
                assert(a != i);
                assert(after[a].wallet == w);
            }
        }
    }
}

/// Appending a record under a fresh key keeps the store a map, maps the new
/// key to it, and changes no other key's record.
proof fn lemma_append_semantics(before: Seq<ProposalView>, after: Seq<ProposalView>, p: ProposalView)
    requires
        store_wf(before),
        !has_wallet(before, p.wallet),
        after == before.push(p),
    ensures
        store_wf(after),
        spec_get(after, p.wallet) == Some(p),
        forall|w: Seq<char>| w != p.wallet ==> #[trigger] spec_get(after, w) == spec_get(before, w),
{
    let n = before.len() as int;
    assert forall|a: int, b: int| 0 <= a < b < after.len() implies (#[trigger] after[a].wallet)
        != (#[trigger] after[b].wallet) by {
        if b < n {
            assert(before[a].wallet != before[b].wallet);
        } else {
            assert(after[b] == p);
            assert(after[a] == before[a]);
            if before[a].wallet == p.wallet {
                assert(has_wallet(before, p.wallet));
            }
        }
    }
    assert(after[n].wallet == p.wallet);
    assert(has_wallet(after, p.wallet));
    let k = choose|k: int| 0 <= k < after.len() && after[k].wallet == p.wallet;
    assert(k == n) by {
        if k < n {
            assert(before[k].wallet == p.wallet);
            assert(has_wallet(before, p.wallet));
        }
    }
    assert forall|w: Seq<char>| w != p.wallet implies #[trigger] spec_get(after, w) == spec_get(
        before,
        w,
    ) by {
        if has_wallet(after, w) {
            let a = choose|a: int| 0 <= a < after.len() && after[a].wallet == w;
            assert(a < n);
            assert(before[a].wallet == w);
            lemma_get_at(before, a);
            lemma_get_at(after, a);
        } else {
            if has_wallet(before, w) {
                let a = choose|a: int| 0 <= a < before.len() && before[a].wallet == w;
                assert(after[a].wallet == w);
            }
        }
    }
}

/// In a well-formed store, the record found at an index holding key `w` is
/// the record `spec_get` returns for `w`.
proof fn lemma_get_at(s: Seq<ProposalView>, i: int)
    requires
        store_wf(s),
        0 <= i < s.len(),
    ensures
        spec_get(s, s[i].wallet) == Some(s[i]),
{
    assert(has_wallet(s, s[i].wallet));
    let k = choose|k: int| 0 <= k < s.len() && s[k].wallet == s[i].wallet;
    if k != i {
        if k < i {
            assert(s[k].wallet != s[i].wallet);
        } else {
            assert(s[i].wallet != s[k].wallet);
        }
    }
}

/// The fixed-arity tuple shape in which a proposal is mirrored on-chain.
pub struct ContractProposal {
    pub proposer: String,
    pub proposal_type: u8,
    pub description: String,
    pub conversation: String,
    pub timestamp: u128,
}

/// Read-only projection of a proposal as the ledger contract reports it.
pub struct ContractProposalResponse {
    pub id: u128,
    pub proposer: String,
    pub proposal_type: u8,
    pub description: String,
    pub conversation: String,
    pub timestamp: u128,
    pub approval_count: u128,
    pub rejection_count: u128,
    pub status: u8,
}

/// A listing row for a proposal: key, kind, when, and where it stands.
pub struct ProposalSummary {
    pub wallet: String,
    pub proposal_type: String,
    pub timestamp: String,
    pub status: i32,
}

/// The on-chain code of a proposal type name; `None` for an unknown name.
pub open spec fn spec_type_code(t: Seq<char>) -> Option<u8> {
    if t == "WORLD"@ {
        Some(0u8)
    } else if t == "CHARACTERS"@ {
        Some(1u8)
    } else if t == "LAWS"@ {
        Some(2u8)
    } else {
        None
    }
}

/// The proposal type name of an on-chain code; `None` for an unknown code.
pub open spec fn spec_type_name(c: u8) -> Option<Seq<char>> {
    if c == 0 {
        Some("WORLD"@)
    } else if c == 1 {
        Some("CHARACTERS"@)
    } else if c == 2 {
        Some("LAWS"@)
    } else {
        None
    }
}

/// Map a proposal type name to its on-chain code.
pub fn proposal_type_code(t: &String) -> (r: Option<u8>)
    ensures
        r == spec_type_code(t@),
{
    let world = String::from_str("WORLD");
    let characters = String::from_str("CHARACTERS");
    let laws = String::from_str("LAWS");
    if t.eq(&world) {
        Some(0)
    } else if t.eq(&characters) {
        Some(1)
    } else if t.eq(&laws) {
        Some(2)
    } else {
        None
    }
}

/// Map an on-chain code back to its proposal type name.
pub fn proposal_type_name(c: u8) -> (r: Option<String>)
    ensures
        match r {
            Some(s) => spec_type_name(c) == Some(s@),
            None => spec_type_name(c) is None,
        },
{
    if c == 0 {
        Some(String::from_str("WORLD"))
    } else if c == 1 {
        Some(String::from_str("CHARACTERS"))
    } else if c == 2 {
        Some(String::from_str("LAWS"))
    } else {
        None
    }
}

/// The conversation blob a proposal carries on-chain: its message history,
/// contact and flexibility as one JSON object text.
pub open spec fn spec_conversation_json(
    messages: Seq<Seq<char>>,
    contact: Seq<char>,
    flexibility: i32,
) -> Seq<char> {
    "{\"messages\":["@ + spec_json_string_list(messages) + "],\"contact\":"@ + spec_json_string(
        contact,
    ) + ",\"flexibility\":"@ + spec_dec_signed(flexibility as int) + "}"@
}

/// Build the conversation blob.
pub fn build_conversation_json(messages: &Vec<String>, contact: &str, flexibility: i32) -> (r:
    String)
    ensures
        r@ == spec_conversation_json(messages.deep_view(), contact@, flexibility),
{
    let mut out = String::new();
    out.append("{\"messages\":[");
    append_json_string_list(&mut out, messages);
    out.append("],\"contact\":");
    append_json_string(&mut out, contact);
    out.append(",\"flexibility\":");
    append_dec_i32(&mut out, flexibility);
    out.append("}");
    proof {
        assert(out@ =~= spec_conversation_json(messages.deep_view(), contact@, flexibility));
    }
    out
}

/// Read a conversation blob back into its message history, contact and
/// flexibility; `None` unless the text is exactly one blob as
/// [`spec_conversation_json`] writes them.
pub open spec fn spec_parse_conversation(t: Seq<char>) -> Option<(Seq<Seq<char>>, Seq<char>, int)> {
    if !spec_lit_at(t, 0, "{\"messages\":["@) {
        None
    } else {
        match spec_parse_string_array(t, "{\"messages\":["@.len() as int) {
            None => None,
            Some((messages, p1)) => {
                if !spec_lit_at(t, p1, ",\"contact\":"@) {
                    None
                } else {
                    match spec_parse_json_string(t, p1 + ",\"contact\":"@.len()) {
                        None => None,
                        Some((contact, p2)) => {
                            if !spec_lit_at(t, p2, ",\"flexibility\":"@) {
                                None
                            } else {
                                let d0 = p2 + ",\"flexibility\":"@.len() as int;
                                let neg = d0 < t.len() && t[d0] == '-';
                                let ds = if neg {
                                    d0 + 1
                                } else {
                                    d0
                                };
                                let e = spec_digit_run_end(t, ds);
                                if e == ds {
                                    None
                                } else {
                                    let v = spec_dec_val(t.subrange(ds, e));
                                    let f: int = if neg {
                                        -(v as int)
                                    } else {
                                        v as int
                                    };
                                    if e < t.len() && e + 1 == t.len() && t[e] == '}' {
                                        Some((messages, contact, f))
                                    } else {
                                        None
                                    }
                                }
                            }
                        },
                    }
                }
            },
        }
    }
}

/// The conversation blob is lossless: reading back what
/// [`spec_conversation_json`] wrote recovers the message history, the
/// contact and the flexibility exactly.
#[verifier::rlimit(100)]
#[verifier::spinoff_prover]
pub proof fn lemma_parse_conversation_of_emit(
    messages: Seq<Seq<char>>,
    contact: Seq<char>,
    flexibility: i32,
)
    ensures
        spec_parse_conversation(spec_conversation_json(messages, contact, flexibility)) == Some(
            (messages, contact, flexibility as int),
        ),
{
    let t = spec_conversation_json(messages, contact, flexibility);
    let l1 = "{\"messages\":["@;
    let l2full = "],\"contact\":"@;
    let l2 = ",\"contact\":"@;
    let l3 = ",\"flexibility\":"@;
    let l4 = "}"@;
    reveal_strlit("{\"messages\":[");
    reveal_strlit("],\"contact\":");
    reveal_strlit(",\"contact\":");
    reveal_strlit(",\"flexibility\":");
    reveal_strlit("}");
    assert(l2full =~= seq![']'] + l2);
    assert(l4 =~= seq!['}']);
    let fdigits = spec_dec_digits(
        if flexibility < 0 {
            (-(flexibility as int)) as nat
        } else {
            flexibility as nat
        },
    );
    let num = spec_dec_signed(flexibility as int);
    assert(num == if flexibility < 0 {
        seq!['-'] + fdigits
    } else {
        fdigits
    });
    let tail3: Seq<char> = seq!['}'];
    let rest2 = l3 + num + tail3;
    let rest1 = spec_json_string(contact) + rest2;
    let tail1 = l2 + rest1;
    assert(t.skip(0) =~= t);
    assert(t =~= l1 + ((spec_json_string_list(messages) + seq![']']) + tail1));
    lemma_skip_shift(t, 0, l1, (spec_json_string_list(messages) + seq![']']) + tail1);
    let p0 = l1.len() as int;
    assert(spec_lit_at(t, 0, l1)) by {
        assert(t.subrange(0, p0) =~= l1);
    }
    lemma_parse_array_of_emit(t, p0, messages, tail1);
    let p1 = t.len() - tail1.len();
    assert(spec_parse_string_array(t, p0) == Some((messages, p1)));
    lemma_skip_shift(t, p0, spec_json_string_list(messages) + seq![']'], tail1);
    assert(p0 + (spec_json_string_list(messages) + seq![']']).len() == p1);
    assert(t.skip(p1) == tail1);
    assert(t.skip(p1) =~= l2 + rest1);
    lemma_skip_shift(t, p1, l2, rest1);
    assert(spec_lit_at(t, p1, l2)) by {
        assert(t.subrange(p1, p1 + l2.len()) =~= l2);
    }
    let q = p1 + l2.len() as int;
    assert(t.skip(q) == rest1);
    assert(t.skip(q) =~= seq!['"'] + (spec_json_escape(contact) + seq!['"'] + rest2)) by {
        assert(spec_json_string(contact) =~= seq!['"'] + (spec_json_escape(contact) + seq!['"']));
    }
    lemma_skip_shift(t, q, seq!['"'], spec_json_escape(contact) + seq!['"'] + rest2);
    assert(t[q + 0] == seq!['"'][0]);
    assert(t[q] == '"');
    lemma_parse_body_of_escape(t, q + 1, contact, rest2);
    let p2 = t.len() - rest2.len();
    assert(spec_parse_json_string(t, q) == Some((contact, p2)));
    lemma_skip_shift(t, q + 1, spec_json_escape(contact) + seq!['"'], rest2);
    assert(q + 1 + (spec_json_escape(contact).len() + 1) == p2);
    assert(t.skip(p2) == rest2);
    assert(t.skip(p2) =~= l3 + (num + tail3));
    lemma_skip_shift(t, p2, l3, num + tail3);
    assert(spec_lit_at(t, p2, l3)) by {
        assert(t.subrange(p2, p2 + l3.len()) =~= l3);
    }
    let d0 = p2 + l3.len() as int;
    assert(t.skip(d0) == num + tail3);
    lemma_dec_digits_all_digits(
        if flexibility < 0 {
            (-(flexibility as int)) as nat
        } else {
            flexibility as nat
        },
    );
    assert(dec_char_val('}') is None);
    assert(dec_char_val('-') is None);
    if flexibility < 0 {
        assert(t.skip(d0) =~= seq!['-'] + (fdigits + tail3));
        lemma_skip_shift(t, d0, seq!['-'], fdigits + tail3);
        assert(t[d0 + 0] == seq!['-'][0]);
        assert(t[d0] == '-');
        assert(d0 < t.len()) by {
            assert(t.skip(d0).len() == t.len() - d0);
        }
        let ds = d0 + 1;
        assert(t.skip(ds) == fdigits + tail3);
        lemma_digit_run_of_emit(t, ds, fdigits, tail3);
        let e = ds + fdigits.len() as int;
        assert(spec_digit_run_end(t, ds) == e);
        assert(e != ds);
        lemma_dec_val_of_digits((-(flexibility as int)) as nat);
        assert(spec_dec_val(t.subrange(ds, e)) == (-(flexibility as int)) as nat);
        lemma_skip_shift(t, ds, fdigits, tail3);
        assert(t.skip(e) == tail3);
        assert(t.skip(e).len() == t.len() - e);
        assert(e + 1 == t.len());
        assert(t.skip(e)[0] == t[e]);
        assert(t[e] == '}');
        assert(-(spec_dec_val(t.subrange(ds, e)) as int) == flexibility as int);
    } else {
        assert(t.skip(d0) =~= fdigits + tail3);
        lemma_digit_run_of_emit(t, d0, fdigits, tail3);
        assert(d0 < t.len()) by {
            assert(t.skip(d0).len() == t.len() - d0);
            assert(fdigits.len() >= 1);
        }
        assert(t.skip(d0)[0] == t[d0]);
        assert(t[d0] == fdigits[0]);
        assert(t[d0] != '-') by {
            assert(dec_char_val(fdigits[0]) is Some);
        }
        let e = d0 + fdigits.len() as int;
        assert(spec_digit_run_end(t, d0) == e);
        assert(e != d0);
        lemma_dec_val_of_digits(flexibility as nat);
        assert(spec_dec_val(t.subrange(d0, e)) == flexibility as nat);
        lemma_skip_shift(t, d0, fdigits, tail3);
        assert(t.skip(e) == tail3);
        assert(t.skip(e).len() == t.len() - e);
        assert(e + 1 == t.len());
        assert(t.skip(e)[0] == t[e]);
        assert(t[e] == '}');
    }
}

/// Read a conversation blob back into record values; `None` when the
/// text is not a blob this service writes, or its flexibility does not
/// fit the record's range.
pub fn parse_conversation_json(s: &str) -> (r: Option<(Vec<String>, String, i32)>)
    ensures
        match spec_parse_conversation(s@) {
            Some(p) => if i32::MIN <= p.2 <= i32::MAX {
                r matches Some(q) && q.0.deep_view() == p.0 && q.1@ == p.1 && q.2 as int == p.2
            } else {
                r is None
            },
            None => r is None,
        },
{
    let n = s.unicode_len();
    if !lit_at(s, 0, "{\"messages\":[") {
        return None;
    }
    let p0 = "{\"messages\":[".unicode_len();
    proof {
        assert(p0 <= s@.len());
    }
    let (messages, p1) = match parse_string_array(s, p0) {
        Some(x) => x,
        None => {
            return None;
        },
    };
    if !lit_at(s, p1, ",\"contact\":") {
        return None;
    }
    let q1 = p1 + ",\"contact\":".unicode_len();
    let (contact, p2) = match parse_json_string(s, q1) {
        Some(x) => x,
        None => {
            return None;
        },
    };
    if !lit_at(s, p2, ",\"flexibility\":") {
        return None;
    }
    let d0 = p2 + ",\"flexibility\":".unicode_len();
    let neg = d0 < n && s.get_char(d0) == '-';
    let ds = if neg {
        d0 + 1
    } else {
        d0
    };
    let e = digit_run_end(s, ds);
    if e == ds {
        return None;
    }
    let v = match dec_val_of_range(s, ds, e) {
        Some(v) => v,
        None => {
            proof {
                assert(u128::MAX > i32::MAX);
            }
            return None;
        },
    };
    if neg {
        if v > 2147483648u128 {
            return None;
        }
    } else {
        if v > 2147483647u128 {
            return None;
        }
    }
    let f: i32 = if neg {
        if v == 2147483648u128 {
            i32::MIN
        } else {
            -(v as i32)
        }
    } else {
        v as i32
    };
    if e < n && e + 1 == n && s.get_char(e) == '}' {
        Some((messages, contact, f))
    } else {
        None
    }
}

/// Convert an on-chain tuple back to a proposal record: code to type
/// name, the conversation blob back to history, contact and flexibility,
/// and the integer timestamp to its decimal text. The external identifier
/// and the lifecycle state are not carried on-chain: the record comes
/// back with no identifier and as a new submission, with no votes.
pub fn from_contract_proposal(c: &ContractProposal) -> (r: Result<Proposal, ProposalError>)
    ensures
        match r {
            Ok(p) => {
                &&& spec_type_name(c.proposal_type) == Some(p@.proposal_type)
                &&& spec_parse_conversation(c.conversation@) matches Some(conv) && {
                    &&& p@.message_history == conv.0
                    &&& p@.contact == conv.1
                    &&& p@.flexibility as int == conv.2
                }
                &&& p@.wallet == c.proposer@
                &&& p@.description == c.description@
                &&& p@.timestamp == spec_dec_digits(c.timestamp as nat)
                &&& p@.fid == 0
                &&& p@.status == STATUS_NEW
                &&& p@.voters.len() == 0
                &&& p@.votes == 0
                &&& p@.vote_nfts.len() == 0
            },
            Err(e) => {
                &&& (e == ProposalError::InvalidProposalType <==> spec_type_name(c.proposal_type)
                    is None)
                &&& (e == ProposalError::InvalidProposalType || e
                    == ProposalError::MalformedConversation)
            },
        },
        (spec_type_name(c.proposal_type) is Some && (spec_parse_conversation(c.conversation@)
            matches Some(conv) && i32::MIN <= conv.2 <= i32::MAX)) ==> r is Ok,
{
    let name = match proposal_type_name(c.proposal_type) {
        Some(n) => n,
        None => {
            return Err(ProposalError::InvalidProposalType);
        },
    };
    let parsed = match parse_conversation_json(c.conversation.as_str()) {
        Some(p) => p,
        None => {
            return Err(ProposalError::MalformedConversation);
        },
    };
    let (message_history, contact, flexibility) = parsed;
    let mut timestamp = String::new();
    append_dec_u128(&mut timestamp, c.timestamp);
    proof {
        assert(timestamp@ =~= spec_dec_digits(c.timestamp as nat));
    }
    let p = Proposal {
        wallet: c.proposer.clone(),
        fid: 0,
        proposal_type: name,
        description: c.description.clone(),
        flexibility,
        contact,
        message_history,
        timestamp,
        status: STATUS_NEW,
        voters: Vec::new(),
        votes: 0,
        vote_nfts: Vec::new(),
    };
    proof {
        assert(p@.voters =~= Seq::<Seq<char>>::empty());
        assert(p@.vote_nfts =~= Seq::<VoteNftView>::empty());
    }
    Ok(p)
}

/// The digit-stripped integer read of a proposal timestamp fits the
/// on-chain field.
pub open spec fn timestamp_readable(t: Seq<char>) -> bool {
    spec_digits_of(t).len() > 0 && spec_dec_val(spec_digits_of(t)) <= u128::MAX
}

/// Convert a proposal record to the on-chain tuple shape: type name to
/// code, message history with contact and flexibility to the conversation
/// blob, and the timestamp to the integer its digits spell. An unknown
/// type name is `InvalidProposalType`; a timestamp with no digits, or one
/// whose digits exceed the field, is `InvalidTimestamp`.
pub fn to_contract_proposal(p: &Proposal) -> (r: Result<ContractProposal, ProposalError>)
    ensures
        match r {
            Ok(c) => {
                &&& spec_type_code(p@.proposal_type) == Some(c.proposal_type)
                &&& c.proposer@ == p@.wallet
                &&& c.description@ == p@.description
                &&& c.conversation@ == spec_conversation_json(
                    p@.message_history,
                    p@.contact,
                    p@.flexibility,
                )
                &&& timestamp_readable(p@.timestamp)
                &&& c.timestamp as nat == spec_dec_val(spec_digits_of(p@.timestamp))
            },
            Err(e) => {
                &&& (e == ProposalError::InvalidProposalType <==> spec_type_code(p@.proposal_type)
                    is None)
                &&& (e == ProposalError::InvalidTimestamp <==> (spec_type_code(p@.proposal_type)
                    is Some && !timestamp_readable(p@.timestamp)))
                &&& (e == ProposalError::InvalidProposalType || e == ProposalError::InvalidTimestamp)
            },
        },
        (spec_type_code(p@.proposal_type) is Some && timestamp_readable(p@.timestamp)) ==> r is Ok,
{
    let code = match proposal_type_code(&p.proposal_type) {
        Some(c) => c,
        None => {
            return Err(ProposalError::InvalidProposalType);
        },
    };
    let timestamp = match parse_digits_u128(p.timestamp.as_str()) {
        Some(v) => v,
        None => {
            return Err(ProposalError::InvalidTimestamp);
        },
    };
    let conversation = build_conversation_json(
        &p.message_history,
        p.contact.as_str(),
        p.flexibility,
    );
    Ok(
        ContractProposal {
            proposer: p.wallet.clone(),
            proposal_type: code,
            description: p.description.clone(),
            conversation,
            timestamp,
        },
    )
}

/// Clone a list of texts.
pub(crate) fn clone_strings(v: &Vec<String>) -> (r: Vec<String>)
    ensures
        r@ == v@,
{
    let mut r: Vec<String> = Vec::new();
    let n = v.len();
    let mut i: usize = 0;
    while i < n
        invariant
            i <= n,
            n == v@.len(),
            r@ == v@.take(i as int),
        decreases n - i,
    {
        r.push(v[i].clone());
        proof {
            assert(v@.take(i + 1) =~= v@.take(i as int).push(v@[i as int]));
        }
        i = i + 1;
    }
    proof {
        assert(v@.take(n as int) =~= v@);
    }
    r
}

impl VoteNft {
    /// An equal copy of the entry.
    pub fn duplicate(&self) -> (r: VoteNft)
        ensures
            r@ == self@,
    {
        VoteNft {
            token_id: self.token_id,
            voter_wallet: self.voter_wallet.clone(),
            timestamp: self.timestamp.clone(),
        }
    }
}

impl Proposal {
    /// An equal copy of the record.
    pub fn duplicate(&self) -> (r: Proposal)
        ensures
            r@ == self@,
    {
        let mut vote_nfts: Vec<VoteNft> = Vec::new();
        let n = self.vote_nfts.len();
        let mut i: usize = 0;
        while i < n
            invariant
                i <= n,
                n == self.vote_nfts@.len(),
                vote_nfts@.len() == i,
                forall|k: int| 0 <= k < i ==> (#[trigger] vote_nfts@[k])@ == self.vote_nfts@[k]@,
            decreases n - i,
        {
            vote_nfts.push(self.vote_nfts[i].duplicate());
            i = i + 1;
        }
        let r = Proposal {
            wallet: self.wallet.clone(),
            fid: self.fid,
            proposal_type: self.proposal_type.clone(),
            description: self.description.clone(),
            flexibility: self.flexibility,
            contact: self.contact.clone(),
            message_history: clone_strings(&self.message_history),
            timestamp: self.timestamp.clone(),
            status: self.status,
            voters: clone_strings(&self.voters),
            votes: self.votes,
            vote_nfts,
        };
        proof {
            assert(nft_views(r.vote_nfts@) =~= nft_views(self.vote_nfts@));
        }
        r
    }
}

/// A record is pending while it is new or under review.
pub open spec fn is_pending(p: ProposalView) -> bool {
    p.status == STATUS_NEW || p.status == STATUS_IN_REVIEW
}

/// The records that still await a decision: those with status new or in
/// review, in store order.
pub fn pending_proposals(store: &ProposalStore) -> (r: Vec<Proposal>)
    ensures
        proposal_views(r@) == store@.filter(|pv: ProposalView| is_pending(pv)),
{
    let mut r: Vec<Proposal> = Vec::new();
    let n = store.entries.len();
    let mut i: usize = 0;
    proof {
        reveal(Seq::filter);
        assert(store@.take(0).filter(|pv: ProposalView| is_pending(pv)) =~= Seq::<
            ProposalView,
        >::empty());
    }
    while i < n
        invariant
            i <= n,
            n == store.entries@.len(),
            proposal_views(r@) == store@.take(i as int).filter(|pv: ProposalView| is_pending(pv)),
        decreases n - i,
    {
        let p = &store.entries[i];
        proof {
            reveal(Seq::filter);
            assert(store@.take(i + 1).drop_last() =~= store@.take(i as int));
            assert(store@.take(i + 1).last() == store@[i as int]);
            assert(store@[i as int] == p@);
        }
        if p.status == STATUS_NEW || p.status == STATUS_IN_REVIEW {
            let ghost prev = r@;
            r.push(p.duplicate());
            proof {
                assert(proposal_views(r@) =~= proposal_views(prev).push(p@));
            }
        }
        i = i + 1;
    }
    proof {
        assert(store@.take(n as int) =~= store@);
    }
    r
}

/// One listing row per stored record, in store order.
pub fn summarize(store: &ProposalStore) -> (r: Vec<ProposalSummary>)
    ensures
        r@.len() == store@.len(),
        forall|i: int|
            0 <= i < store@.len() ==> {
                &&& (#[trigger] r@[i]).wallet@ == store@[i].wallet
                &&& r@[i].proposal_type@ == store@[i].proposal_type
                &&& r@[i].timestamp@ == store@[i].timestamp
                &&& r@[i].status == store@[i].status
            },
{
    let mut r: Vec<ProposalSummary> = Vec::new();
    let n = store.entries.len();
    let mut i: usize = 0;
    while i < n
        invariant
            i <= n,
            n == store.entries@.len(),
            r@.len() == i,
            forall|k: int|
                0 <= k < i ==> {
                    &&& (#[trigger] r@[k]).wallet@ == store@[k].wallet
                    &&& r@[k].proposal_type@ == store@[k].proposal_type
                    &&& r@[k].timestamp@ == store@[k].timestamp
                    &&& r@[k].status == store@[k].status
                },
        decreases n - i,
    {
        let p = &store.entries[i];
        r.push(
            ProposalSummary {
                wallet: p.wallet.clone(),
                proposal_type: p.proposal_type.clone(),
                timestamp: p.timestamp.clone(),
                status: p.status,
            },
        );
        i = i + 1;
    }
    r
}

/// The months to aggregate winners over: every month from the first
/// through the current one, in order.
pub fn months_through(current: u64) -> (r: Vec<u64>)
    requires
        current < u64::MAX,
        current <= usize::MAX,
    ensures
        r@.len() == current,
        forall|i: int| 0 <= i < current ==> r@[i] == i + 1,
{
    let mut r: Vec<u64> = Vec::new();
    let mut m: u64 = 1;
    while m <= current
        invariant
            1 <= m <= current + 1,
            current < u64::MAX,
            current <= usize::MAX,
            r@.len() == m - 1,
            forall|i: int| 0 <= i < m - 1 ==> r@[i] == i + 1,
        decreases current + 1 - m,
    {
        r.push(m);
        m = m + 1;
    }
    r
}

/// The successfully resolved entries of a listing, in order: a failed
/// resolution is dropped, not fatal.
pub open spec fn spec_resolved(s: Seq<Option<ContractProposalResponse>>) -> Seq<
    ContractProposalResponse,
>
    decreases s.len(),
{
    if s.len() == 0 {
        Seq::<ContractProposalResponse>::empty()
    } else if s.last() is Some {
        spec_resolved(s.drop_last()).push(s.last()->0)
    } else {
        spec_resolved(s.drop_last())
    }
}

/// Collect a listing's resolved proposals, keeping their order and
/// skipping every id whose resolution failed.
pub fn collect_resolved(items: Vec<Option<ContractProposalResponse>>) -> (r: Vec<
    ContractProposalResponse,
>)
    ensures
        r@ == spec_resolved(items@),
{
    let ghost orig = items@;
    let mut rest = items;
    let mut backwards: Vec<ContractProposalResponse> = Vec::new();
    proof {
        assert(Seq::<ContractProposalResponse>::empty().reverse()
            =~= Seq::<ContractProposalResponse>::empty());
        assert(spec_resolved(orig) + Seq::<ContractProposalResponse>::empty()
            =~= spec_resolved(orig));
    }
    while rest.len() > 0
        invariant
            spec_resolved(orig) == spec_resolved(rest@) + backwards@.reverse(),
        decreases rest@.len(),
    {
        let ghost before = rest@;
        let item = rest.pop();
        match item {
            Some(Some(p)) => {
                let ghost b = backwards@;
                backwards.push(p);
                proof {
                    assert(backwards@.reverse() =~= seq![p] + b.reverse());
                    assert(spec_resolved(rest@) + (seq![p] + b.reverse()) =~= (spec_resolved(
                        rest@,
                    ).push(p)) + b.reverse());
                    assert(before.last() == Some(p));
                    assert(spec_resolved(before) == spec_resolved(rest@).push(p));
                }
            },
            Some(None) => {
                proof {
                    assert(before.last() is None);
                    assert(spec_resolved(before) == spec_resolved(rest@));
                }
            },
            None => {
            },
        }
    }
    proof {
        assert(spec_resolved(rest@) =~= Seq::<ContractProposalResponse>::empty());
        assert(Seq::<ContractProposalResponse>::empty() + backwards@.reverse()
            =~= backwards@.reverse());
    }
    let ghost full = backwards@;
    let m = backwards.len();
    let mut r: Vec<ContractProposalResponse> = Vec::new();
    let mut j: usize = m;
    proof {
        assert(full.take(m as int) =~= full);
        assert(full.reverse().take(0) =~= r@);
    }
    while j > 0
        invariant
            j <= m,
            m == full.len(),
            backwards@ == full.take(j as int),
            r@ == full.reverse().take((m - j) as int),
        decreases j,
    {
        j = j - 1;
        let item = backwards.pop();
        proof {
            assert(full.take(j + 1).drop_last() =~= full.take(j as int));
            assert(full.take(j + 1).last() == full[j as int]);
        }
        match item {
            Some(p) => {
                r.push(p);
                proof {
                    assert(full.reverse()[(m - j - 1) as int] == full[j as int]);
                    assert(full.reverse().take((m - j) as int) =~= full.reverse().take(
                        (m - j - 1) as int,
                    ).push(full.reverse()[(m - j - 1) as int]));
                }
            },
            None => {
            },
        }
    }
    proof {
        assert(full.reverse().take(m as int) =~= full.reverse());
    }
    r
}

/// Fold one resolved proposal into an aggregation, skipping an id whose
/// resolution failed rather than aborting the whole listing.
pub fn push_resolved(out: &mut Vec<ContractProposalResponse>, item: Option<ContractProposalResponse>)
    ensures
        match item {
            Some(p) => final(out)@ == old(out)@.push(p),
            None => final(out)@ == old(out)@,
        },
{
    match item {
        Some(p) => out.push(p),
        None => (),
    }
}

/// The payload of a proposal update request: which wallet's record to
/// touch and what to do to it.
pub struct UpdateData {
    pub wallet: String,
    pub update: ProposalUpdate,
}

/// One requested change to a proposal record.
pub struct ProposalUpdate {
    pub action: String,
    pub voter_wallet: Option<String>,
    pub timestamp: Option<String>,
    pub status: Option<i32>,
}

/// Whether an update request asks to record a vote.
pub fn is_vote_action(u: &ProposalUpdate) -> (r: bool)
    ensures
        r == (u.action@ == "vote"@),
{
    let vote = String::from_str("vote");
    u.action.eq(&vote)
}

/// Vote idempotence, at the level of the voter list: once a recording has
/// admitted a wallet, the list contains it, so by [`record_vote`]'s
/// contract every later recording from the same wallet returns
/// `AlreadyVoted` and leaves the record unchanged.
pub proof fn lemma_vote_idempotent(voters: Seq<Seq<char>>, voter: Seq<char>)
    ensures
        voters.push(voter).contains(voter),
{
    assert(voters.push(voter)[voters.len() as int] == voter);
}

} // verus!
