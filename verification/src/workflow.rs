//! The engagement-gated issuance workflow.
//!
//! A claim for a wallet proceeds through eligibility (zero on-chain balance
//! and enough stored user-authored turns), a mint owned by the service
//! wallet, and a transfer to the claimant, and is then recorded once in the
//! claims collection. The on-chain side is modelled by [`LedgerModel`]: the
//! ledger and record store a run works against, with the contract's own
//! duplicate-claim guard. [`lemma_at_most_one_claim`] states that a second
//! completed run for the same wallet is refused as `AlreadyClaimed` without
//! submitting another mint transaction.

use crate::jsontext::{append_dec_u128, append_json_string, spec_dec_digits, spec_json_string};
use crate::ledger::LedgerError;
use crate::profile::UserData;
use crate::proposal::{has_wallet, spec_get, store_votes_wf, store_wf, ProposalError, ProposalStore,
    ProposalView, VoteNftView};
use crate::ENGAGEMENT_THRESHOLD;
use vstd::prelude::*;
use vstd::string::StringExecFns;

verus! {

/// Failure of a claim attempt.
#[derive(Clone, Copy, Debug, PartialEq, Eq, Structural)]
pub enum ClaimError {
    /// The wallet already holds its credential.
    AlreadyClaimed,
    /// The wallet's stored conversation has fewer user-authored turns than
    /// the threshold; carries the count found.
    InsufficientEngagement(u64),
    /// No stored conversation was found for the wallet at all.
    NoConversation,
    /// An on-chain step failed.
    Ledger(LedgerError),
}

/// A persisted claim record: written once per wallet, on success only.
pub struct Claim {
    pub fid: u64,
    pub wallet: String,
    pub timestamp: String,
    pub token_id: u64,
}

/// Mathematical shape of a claim record.
pub ghost struct ClaimView {
    pub fid: u64,
    pub wallet: Seq<char>,
    pub timestamp: Seq<char>,
    pub token_id: u64,
}

impl View for Claim {
    type V = ClaimView;

    open spec fn view(&self) -> ClaimView {
        ClaimView {
            fid: self.fid,
            wallet: self.wallet@,
            timestamp: self.timestamp@,
            token_id: self.token_id,
        }
    }
}

/// The views of a list of claim records.
pub open spec fn claim_views(s: Seq<Claim>) -> Seq<ClaimView> {
    s.map(|i: int, c: Claim| c@)
}

/// The claims collection: one record per wallet, written on success only.
pub struct ClaimStore {
    pub claims: Vec<Claim>,
}

impl ClaimStore {
    /// An empty claims collection.
    pub fn new() -> (r: ClaimStore)
        ensures
            claim_views(r.claims@) == Seq::<ClaimView>::empty(),
    {
        let r = ClaimStore { claims: Vec::new() };
        proof {
            assert(claim_views(r.claims@) =~= Seq::<ClaimView>::empty());
        }
        r
    }

    /// Whether a claim record exists for `wallet`.
    pub fn has_claim(&self, wallet: &String) -> (r: bool)
        ensures
            r == exists|i: int|
                0 <= i < claim_views(self.claims@).len() && claim_views(self.claims@)[i].wallet
                    == wallet@,
    {
        let n = self.claims.len();
        let mut i: usize = 0;
        while i < n
            invariant
                i <= n,
                n == self.claims@.len(),
                forall|k: int| 0 <= k < i ==> claim_views(self.claims@)[k].wallet != wallet@,
            decreases n - i,
        {
            if self.claims[i].wallet.eq(wallet) {
                proof {
                    assert(claim_views(self.claims@)[i as int].wallet == wallet@);
                }
                return true;
            }
            i = i + 1;
        }
        proof {
            if exists|k: int|
                0 <= k < claim_views(self.claims@).len() && claim_views(self.claims@)[k].wallet
                    == wallet@ {
                let k = choose|k: int|
                    0 <= k < claim_views(self.claims@).len() && claim_views(self.claims@)[k].wallet
                        == wallet@;
                assert(claim_views(self.claims@)[k].wallet != wallet@);
            }
        }
        false
    }
}

/// The ledger contract as the workflow sees it: who owns which token, the
/// next token id, and how many mint transactions have been submitted. The
/// sealed profile and image URI ride along in the mint transaction; the
/// guard the contract applies reads only the claimant's balance.
pub struct LedgerModel {
    pub service_wallet: String,
    pub owners: Vec<(u64, String)>,
    pub next_token_id: u64,
    pub mint_count: u64,
}

/// The views of the ownership table.
pub open spec fn owner_views(s: Seq<(u64, String)>) -> Seq<(u64, Seq<char>)> {
    s.map(|i: int, t: (u64, String)| (t.0, t.1@))
}

/// How many tokens `w` owns.
pub open spec fn spec_balance(owners: Seq<(u64, Seq<char>)>, w: Seq<char>) -> nat
    decreases owners.len(),
{
    if owners.len() == 0 {
        0
    } else {
        spec_balance(owners.drop_last(), w) + if owners.last().1 == w {
            1nat
        } else {
            0nat
        }
    }
}

/// An owner of some token has a positive balance.
pub proof fn lemma_balance_positive(owners: Seq<(u64, Seq<char>)>, w: Seq<char>, i: int)
    requires
        0 <= i < owners.len(),
        owners[i].1 == w,
    ensures
        spec_balance(owners, w) > 0,
    decreases owners.len(),
{
    if i == owners.len() - 1 {
        assert(owners.last() == owners[i]);
    } else {
        assert(owners.drop_last()[i] == owners[i]);
        lemma_balance_positive(owners.drop_last(), w, i);
    }
}

/// Every minted token id is below the next id, and no id repeats.
pub open spec fn ledger_wf(owners: Seq<(u64, Seq<char>)>, next_token_id: u64) -> bool {
    &&& forall|i: int| 0 <= i < owners.len() ==> (#[trigger] owners[i]).0 < next_token_id
    &&& forall|i: int, j: int|
        0 <= i < j < owners.len() ==> (#[trigger] owners[i]).0 != (#[trigger] owners[j]).0
}

impl LedgerModel {
    /// A fresh ledger with no tokens.
    pub fn new(service_wallet: String) -> (r: LedgerModel)
        ensures
            r.service_wallet@ == service_wallet@,
            owner_views(r.owners@) == Seq::<(u64, Seq<char>)>::empty(),
            r.next_token_id == 0,
            r.mint_count == 0,
            ledger_wf(owner_views(r.owners@), r.next_token_id),
    {
        let r = LedgerModel { service_wallet, owners: Vec::new(), next_token_id: 0, mint_count: 0 };
        proof {
            assert(owner_views(r.owners@) =~= Seq::<(u64, Seq<char>)>::empty());
        }
        r
    }

    /// The number of tokens `wallet` owns; a read, no gas.
    pub fn balance_of(&self, wallet: &String) -> (r: u64)
        requires
            self.owners@.len() <= u64::MAX,
        ensures
            r as nat == spec_balance(owner_views(self.owners@), wallet@),
    {
        let n = self.owners.len();
        let mut count: u64 = 0;
        let mut i: usize = 0;
        while i < n
            invariant
                i <= n,
                n == self.owners@.len() <= u64::MAX,
                count as nat == spec_balance(owner_views(self.owners@).take(i as int), wallet@),
                count <= i,
            decreases n - i,
        {
            proof {
                let ov = owner_views(self.owners@);
                assert(ov.take(i + 1).drop_last() =~= ov.take(i as int));
                assert(ov.take(i + 1).last() == ov[i as int]);
            }
            if self.owners[i].1.eq(wallet) {
                count = count + 1;
            }
            i = i + 1;
        }
        proof {
            assert(owner_views(self.owners@).take(n as int) =~= owner_views(self.owners@));
        }
        count
    }

    /// Submit a mint transaction for `claimant`. The contract's guard
    /// rejects the simulation when the claimant already holds a token, so
    /// gas estimation fails and nothing is submitted; otherwise the next
    /// token id is minted, owned by the service wallet.
    pub fn mint(&mut self, claimant: &String) -> (r: Result<u64, LedgerError>)
        requires
            old(self).owners@.len() < u64::MAX,
            old(self).next_token_id < u64::MAX,
            old(self).mint_count < u64::MAX,
            ledger_wf(owner_views(old(self).owners@), old(self).next_token_id),
        ensures
            ledger_wf(owner_views(final(self).owners@), final(self).next_token_id),
            final(self).service_wallet@ == old(self).service_wallet@,
            spec_balance(owner_views(old(self).owners@), claimant@) > 0 ==> r == Err::<
                u64,
                LedgerError,
            >(LedgerError::GasEstimationError) && final(self).owners@ == old(self).owners@ && final(self).next_token_id == old(self).next_token_id && final(self).mint_count == old(self).mint_count,
            spec_balance(owner_views(old(self).owners@), claimant@) == 0 ==> {
                &&& r == Ok::<u64, LedgerError>(old(self).next_token_id)
                &&& owner_views(final(self).owners@) == owner_views(old(self).owners@).push(
                    (old(self).next_token_id, old(self).service_wallet@),
                )
                &&& final(self).next_token_id == old(self).next_token_id + 1
                &&& final(self).mint_count == old(self).mint_count + 1
            },
    {
        let balance = self.balance_of(claimant);
        if balance > 0 {
            return Err(LedgerError::GasEstimationError);
        }
        let token = self.next_token_id;
        let service = self.service_wallet.clone();
        self.owners.push((token, service));
        self.next_token_id = token + 1;
        self.mint_count = self.mint_count + 1;
        proof {
            assert(owner_views(self.owners@) =~= owner_views(old(self).owners@).push(
                (token, old(self).service_wallet@),
            ));
            let before = owner_views(old(self).owners@);
            let after = owner_views(self.owners@);
            assert forall|a: int| 0 <= a < after.len() implies (#[trigger] after[a]).0
                < self.next_token_id by {
                if a < before.len() {
                    assert(after[a] == before[a]);
                    assert(before[a].0 < token);
                }
            }
            assert forall|a: int, b: int| 0 <= a < b < after.len() implies (#[trigger] after[a]).0
                != (#[trigger] after[b]).0 by {
                if b < before.len() {
                    assert(before[a].0 != before[b].0);
                } else {
                    assert(after[a] == before[a]);
                    assert(before[a].0 < token);
                }
            }
        }
        Ok(token)
    }

    /// Submit a transfer of `token_id` from `from` to `to`. The
    /// transaction succeeds exactly when `from` owns the token, and then
    /// reassigns it.
    pub fn transfer_from(&mut self, from: &String, to: &String, token_id: u64) -> (r: Result<
        (),
        LedgerError,
    >)
        requires
            ledger_wf(owner_views(old(self).owners@), old(self).next_token_id),
        ensures
            final(self).service_wallet@ == old(self).service_wallet@,
            final(self).next_token_id == old(self).next_token_id,
            final(self).mint_count == old(self).mint_count,
            ledger_wf(owner_views(final(self).owners@), final(self).next_token_id),
            (exists|i: int|
                0 <= i < owner_views(old(self).owners@).len() && owner_views(old(self).owners@)[i]
                    == (token_id, from@)) ==> {
                &&& r == Ok::<(), LedgerError>(())
                &&& exists|i: int|
                    {
                        &&& 0 <= i < owner_views(old(self).owners@).len()
                        &&& owner_views(old(self).owners@)[i] == (token_id, from@)
                        &&& owner_views(final(self).owners@) == owner_views(
                            old(self).owners@,
                        ).update(i, (token_id, to@))
                    }
            },
            !(exists|i: int|
                0 <= i < owner_views(old(self).owners@).len() && owner_views(old(self).owners@)[i]
                    == (token_id, from@)) ==> r == Err::<(), LedgerError>(
                LedgerError::TransactionFailed,
            ) && final(self).owners@ == old(self).owners@,
    {
        let n = self.owners.len();
        let mut i: usize = 0;
        while i < n
            invariant
                i <= n,
                n == self.owners@.len(),
                forall|k: int|
                    0 <= k < i ==> #[trigger] owner_views(self.owners@)[k] != (token_id, from@),
                self == old(self),
                ledger_wf(owner_views(self.owners@), self.next_token_id),
            decreases n - i,
        {
            if self.owners[i].0 == token_id && self.owners[i].1.eq(from) {
                let ghost before = owner_views(self.owners@);
                let to_owner = to.clone();
                self.owners[i] = (token_id, to_owner);
                proof {
                    assert(owner_views(self.owners@) =~= before.update(
                        i as int,
                        (token_id, to@),
                    ));
                    assert(before[i as int] == (token_id, from@));
                    let after = owner_views(self.owners@);
                    assert forall|a: int| 0 <= a < after.len() implies (#[trigger] after[a]).0
                        < self.next_token_id by {
                        assert(before[a].0 < self.next_token_id);
                        if a != i {
                            assert(after[a] == before[a]);
                        }
                    }
                    assert forall|a: int, b: int| 0 <= a < b < after.len() implies (
                    #[trigger] after[a]).0 != (#[trigger] after[b]).0 by {
                        assert(before[a].0 != before[b].0);
                        if a != i {
                            assert(after[a] == before[a]);
                        }
                        if b != i {
                            assert(after[b] == before[b]);
                        }
                    }
                }
                return Ok(());
            }
            proof {
                assert(owner_views(self.owners@)[i as int] == (
                    self.owners@[i as int].0,
                    self.owners@[i as int].1@,
                ));
            }
            i = i + 1;
        }
        proof {
            if exists|k: int|
                0 <= k < owner_views(self.owners@).len() && owner_views(self.owners@)[k] == (
                    token_id,
                    from@,
                ) {
                let k = choose|k: int|
                    0 <= k < owner_views(self.owners@).len() && owner_views(self.owners@)[k] == (
                        token_id,
                        from@,
                    );
                assert(owner_views(self.owners@)[k] != (token_id, from@));
            }
        }
        Err(LedgerError::TransactionFailed)
    }
}


/// The whole world one issuance run reads and writes: the ledger contract
/// state and the claims collection.
pub ghost struct WorldView {
    pub service: Seq<char>,
    pub owners: Seq<(u64, Seq<char>)>,
    pub next_token_id: u64,
    pub mint_count: u64,
    pub claims: Seq<ClaimView>,
}

/// The world the given ledger and claims collection stand in.
pub open spec fn spec_world(ledger: LedgerModel, claims: ClaimStore) -> WorldView {
    WorldView {
        service: ledger.service_wallet@,
        owners: owner_views(ledger.owners@),
        next_token_id: ledger.next_token_id,
        mint_count: ledger.mint_count,
        claims: claim_views(claims.claims@),
    }
}

/// What one issuance run does, as a function of the prior world and of
/// the two on-chain steps' fates: refused as `AlreadyClaimed` on a
/// positive balance, as `InsufficientEngagement` below the turn
/// threshold. `mint_delivered` is the node's answer to the mint
/// submission: when it is false nothing lands on-chain, no record is
/// written and the run is rejected. `transfer_delivered` is the node's
/// answer to the awaited transfer: when it is false the run ends in
/// `TransferFailed`, the minted asset stays with the service wallet and
/// no claim record is written (the manual-recovery boundary); when both
/// steps land the asset is handed to the claimant and recorded once. A
/// ledger whose counters have no headroom left refuses the transaction.
pub open spec fn spec_run_claim(
    w: WorldView,
    wallet: Seq<char>,
    fid: u64,
    user_turns: u64,
    timestamp: Seq<char>,
    mint_delivered: bool,
    transfer_delivered: bool,
) -> (WorldView, Result<u64, ClaimError>) {
    if spec_balance(w.owners, wallet) > 0 {
        (w, Err(ClaimError::AlreadyClaimed))
    } else if user_turns < crate::ENGAGEMENT_THRESHOLD {
        (w, Err(ClaimError::InsufficientEngagement(user_turns)))
    } else if w.next_token_id == u64::MAX || w.mint_count == u64::MAX || w.owners.len() + 1
        >= u64::MAX {
        (w, Err(ClaimError::Ledger(LedgerError::TransactionFailed)))
    } else if !mint_delivered {
        (w, Err(ClaimError::Ledger(LedgerError::TransactionFailed)))
    } else if !transfer_delivered {
        (
            WorldView {
                owners: w.owners.push((w.next_token_id, w.service)),
                next_token_id: (w.next_token_id + 1) as u64,
                mint_count: (w.mint_count + 1) as u64,
                ..w
            },
            Err(ClaimError::Ledger(LedgerError::TransferFailed)),
        )
    } else {
        (
            WorldView {
                owners: w.owners.push((w.next_token_id, wallet)),
                next_token_id: (w.next_token_id + 1) as u64,
                mint_count: (w.mint_count + 1) as u64,
                claims: w.claims.push(
                    ClaimView { fid, wallet, timestamp, token_id: w.next_token_id },
                ),
                ..w
            },
            Ok(w.next_token_id),
        )
    }
}

/// The eligibility gate: a positive balance means the wallet already
/// claimed; below the engagement threshold the current count is reported;
/// at or above it the claim may proceed.
pub fn check_eligibility(balance: u64, user_turns: u64) -> (r: Result<(), ClaimError>)
    ensures
        balance > 0 ==> r == Err::<(), ClaimError>(ClaimError::AlreadyClaimed),
        balance == 0 && user_turns < crate::ENGAGEMENT_THRESHOLD ==> r == Err::<(), ClaimError>(
            ClaimError::InsufficientEngagement(user_turns),
        ),
        balance == 0 && user_turns >= crate::ENGAGEMENT_THRESHOLD ==> r == Ok::<(), ClaimError>(()),
{
    if balance > 0 {
        Err(ClaimError::AlreadyClaimed)
    } else if user_turns < ENGAGEMENT_THRESHOLD {
        Err(ClaimError::InsufficientEngagement(user_turns))
    } else {
        Ok(())
    }
}

/// Run the issuance workflow for `wallet` against the ledger and the
/// claims collection: eligibility, mint, transfer to the claimant, then
/// the claim record. `mint_delivered` and `transfer_delivered` are the
/// ledger node's answers to the two awaited transactions, outside events
/// the caller hands in: a run whose mint does not land is rejected with
/// nothing on-chain and no record; a run whose handoff is not delivered
/// ends in `TransferFailed` without a claim record, the asset staying
/// with the service wallet. The run does to the world exactly what
/// [`spec_run_claim`] says.
pub fn run_claim(
    ledger: &mut LedgerModel,
    claims: &mut ClaimStore,
    wallet: &String,
    fid: u64,
    user_turns: u64,
    timestamp: String,
    mint_delivered: bool,
    transfer_delivered: bool,
) -> (r: Result<u64, ClaimError>)
    requires
        ledger_wf(owner_views(old(ledger).owners@), old(ledger).next_token_id),
    ensures
        ledger_wf(owner_views(final(ledger).owners@), final(ledger).next_token_id),
        ({
            let (w2, r2) = spec_run_claim(
                spec_world(*old(ledger), *old(claims)),
                wallet@,
                fid,
                user_turns,
                timestamp@,
                mint_delivered,
                transfer_delivered,
            );
            spec_world(*final(ledger), *final(claims)) == w2 && r == r2
        }),
{
    let ghost w0 = spec_world(*old(ledger), *old(claims));
    let n = ledger.owners.len();
    let balance = ledger.balance_of(wallet);
    if let Err(e) = check_eligibility(balance, user_turns) {
        proof {
            assert(spec_world(*ledger, *claims) =~= w0);
        }
        return Err(e);
    }
    if ledger.next_token_id == u64::MAX || ledger.mint_count == u64::MAX || (n as u64) >= u64::MAX
        - 1 {
        proof {
            assert(spec_world(*ledger, *claims) =~= w0);
        }
        return Err(ClaimError::Ledger(LedgerError::TransactionFailed));
    }
    if !mint_delivered {
        proof {
            assert(spec_world(*ledger, *claims) =~= w0);
        }
        return Err(ClaimError::Ledger(LedgerError::TransactionFailed));
    }
    let token = match ledger.mint(wallet) {
        Ok(t) => t,
        Err(_) => {
            // unreachable: the balance was checked to be zero just above
            return Err(ClaimError::AlreadyClaimed);
        },
    };
    let service = ledger.service_wallet.clone();
    let ghost after_mint = owner_views(ledger.owners@);
    proof {
        assert(after_mint[after_mint.len() - 1] == (token, service@));
    }
    if !transfer_delivered {
        proof {
            assert(after_mint =~= w0.owners.push((token, w0.service)));
            assert(spec_world(*ledger, *claims) =~= spec_run_claim(
                w0,
                wallet@,
                fid,
                user_turns,
                timestamp@,
                mint_delivered,
                transfer_delivered,
            ).0);
        }
        return Err(ClaimError::Ledger(LedgerError::TransferFailed));
    }
    match ledger.transfer_from(&service, wallet, token) {
        Ok(()) => {},
        Err(_) => {
            // unreachable: the token was just minted to the service wallet
            return Err(ClaimError::Ledger(LedgerError::TransferFailed));
        },
    }
    proof {
        let i = choose|i: int|
            {
                &&& 0 <= i < after_mint.len()
                &&& after_mint[i] == (token, service@)
                &&& owner_views(ledger.owners@) == after_mint.update(i, (token, wallet@))
            };
        assert(i == after_mint.len() - 1) by {
            if i < after_mint.len() - 1 {
                assert(after_mint[i] == w0.owners[i]);
                assert(w0.owners[i].0 < token);
            }
        }
        assert(owner_views(ledger.owners@) =~= w0.owners.push((token, wallet@)));
    }
    let record = Claim { fid, wallet: wallet.clone(), timestamp, token_id: token };
    let ghost claims_before = claim_views(claims.claims@);
    let ghost record_view = record@;
    claims.claims.push(record);
    proof {
        assert(claim_views(claims.claims@) =~= claims_before.push(record_view));
        assert(spec_world(*ledger, *claims) =~= spec_run_claim(
            w0,
            wallet@,
            fid,
            user_turns,
            record_view.timestamp,
            mint_delivered,
            transfer_delivered,
        ).0);
    }
    Ok(token)
}

/// At-most-one-claim: after a run for a wallet completes successfully, a
/// second run for the same wallet is refused as `AlreadyClaimed` and
/// leaves the world untouched; in particular no second mint transaction is
/// submitted.
pub proof fn lemma_at_most_one_claim(
    w: WorldView,
    wallet: Seq<char>,
    fid1: u64,
    turns1: u64,
    ts1: Seq<char>,
    md1: bool,
    td1: bool,
    fid2: u64,
    turns2: u64,
    ts2: Seq<char>,
    md2: bool,
    td2: bool,
)
    ensures
        ({
            let (w1, r1) = spec_run_claim(w, wallet, fid1, turns1, ts1, md1, td1);
            let (w2, r2) = spec_run_claim(w1, wallet, fid2, turns2, ts2, md2, td2);
            r1 is Ok ==> {
                &&& r2 == Err::<u64, ClaimError>(ClaimError::AlreadyClaimed)
                &&& w2 == w1
                &&& w2.mint_count == w1.mint_count
            }
        }),
{
    let (w1, r1) = spec_run_claim(w, wallet, fid1, turns1, ts1, md1, td1);
    if r1 is Ok {
        lemma_balance_positive(w1.owners, wallet, w1.owners.len() - 1);
    }
}

/// The manual-recovery boundary: a run whose mint lands but whose handoff
/// is not delivered submits exactly one transaction, writes no claim
/// record, and leaves the freshly minted asset owned by the service
/// wallet.
pub proof fn lemma_failed_transfer_strands_asset(
    w: WorldView,
    wallet: Seq<char>,
    fid: u64,
    turns: u64,
    ts: Seq<char>,
)
    ensures
        ({
            let (w1, r1) = spec_run_claim(w, wallet, fid, turns, ts, true, false);
            r1 == Err::<u64, ClaimError>(ClaimError::Ledger(LedgerError::TransferFailed)) ==> {
                &&& w1.claims == w.claims
                &&& w1.mint_count == w.mint_count + 1
                &&& w1.owners == w.owners.push((w.next_token_id, w.service))
            }
        }),
{
}

/// Each stored claim record belongs to a wallet that holds its credential
/// on-chain, and no wallet has two records.
pub open spec fn world_claims_wf(w: WorldView) -> bool {
    &&& forall|i: int, j: int|
        0 <= i < j < w.claims.len() ==> (#[trigger] w.claims[i]).wallet != (
        #[trigger] w.claims[j]).wallet
    &&& forall|i: int|
        0 <= i < w.claims.len() ==> spec_balance(w.owners, (#[trigger] w.claims[i]).wallet) > 0
}

/// A balance never falls when a token is granted to someone.
proof fn lemma_balance_push_monotonic(owners: Seq<(u64, Seq<char>)>, t: (u64, Seq<char>), v: Seq<char>)
    ensures
        spec_balance(owners.push(t), v) >= spec_balance(owners, v),
{
    assert(owners.push(t).drop_last() =~= owners);
}

/// One run keeps the claims collection a one-record-per-wallet map whose
/// every record is backed by an on-chain holding: a wallet is recorded
/// only once, ever.
pub proof fn lemma_claims_wf_preserved(
    w: WorldView,
    wallet: Seq<char>,
    fid: u64,
    turns: u64,
    ts: Seq<char>,
    md: bool,
    td: bool,
)
    requires
        world_claims_wf(w),
    ensures
        world_claims_wf(spec_run_claim(w, wallet, fid, turns, ts, md, td).0),
{
    let (w1, r1) = spec_run_claim(w, wallet, fid, turns, ts, md, td);
    if r1 == Err::<u64, ClaimError>(ClaimError::Ledger(LedgerError::TransferFailed))
        && w1.mint_count != w.mint_count {
        assert forall|i: int| 0 <= i < w1.claims.len() implies spec_balance(
            w1.owners,
            (#[trigger] w1.claims[i]).wallet,
        ) > 0 by {
            assert(w1.claims[i] == w.claims[i]);
            lemma_balance_push_monotonic(
                w.owners,
                (w.next_token_id, w.service),
                w.claims[i].wallet,
            );
        }
    }
    if r1 is Ok {
        assert forall|i: int| 0 <= i < w1.claims.len() implies spec_balance(
            w1.owners,
            (#[trigger] w1.claims[i]).wallet,
        ) > 0 by {
            if i < w.claims.len() {
                assert(w1.claims[i] == w.claims[i]);
                assert(spec_balance(w.owners, w.claims[i].wallet) > 0);
                lemma_balance_push_monotonic(
                    w.owners,
                    (w.next_token_id, wallet),
                    w.claims[i].wallet,
                );
            } else {
                assert(w1.claims[i].wallet == wallet);
                lemma_balance_positive(w1.owners, wallet, w1.owners.len() - 1);
            }
        }
        assert forall|i: int, j: int| 0 <= i < j < w1.claims.len() implies (
        #[trigger] w1.claims[i]).wallet != (#[trigger] w1.claims[j]).wallet by {
            if j < w.claims.len() {
                assert(w.claims[i].wallet != w.claims[j].wallet);
            } else {
                assert(w1.claims[i] == w.claims[i]);
                assert(w1.claims[j].wallet == wallet);
                if w.claims[i].wallet == wallet {
                    assert(spec_balance(w.owners, w.claims[i].wallet) > 0);
                }
            }
        }
    }
}

/// The opaque payload embedded in a claim's encrypted profile: the
/// external identifier, the message count, the claim timestamp and the
/// full conversation transcript, as one JSON object text.
pub open spec fn spec_claim_profile_data(
    fid: u64,
    message_count: u64,
    claim_timestamp: Seq<char>,
    conversation: Seq<char>,
) -> Seq<char> {
    "{\"fid\":"@ + spec_dec_digits(fid as nat) + ",\"message_count\":"@ + spec_dec_digits(
        message_count as nat,
    ) + ",\"claim_timestamp\":"@ + spec_json_string(claim_timestamp) + ",\"conversation\":"@
        + spec_json_string(conversation) + "}"@
}

/// Construct the profile sealed into a claimant's credential: a username
/// derived from the external identifier, the claimant's wallet, and the
/// opaque claim payload.
pub fn build_claim_profile(
    wallet: &String,
    fid: u64,
    message_count: u64,
    claim_timestamp: &str,
    conversation: &str,
) -> (r: UserData)
    ensures
        r@.username == "Farcaster User "@ + spec_dec_digits(fid as nat),
        r@.email.len() == 0,
        r@.wallet_address == wallet@,
        r@.avatar_url.len() == 0,
        r@.additional_data == Some(
            spec_claim_profile_data(fid, message_count, claim_timestamp@, conversation@),
        ),
{
    let mut username = String::from_str("Farcaster User ");
    append_dec_u128(&mut username, fid as u128);
    let mut data = String::from_str("{\"fid\":");
    append_dec_u128(&mut data, fid as u128);
    data.append(",\"message_count\":");
    append_dec_u128(&mut data, message_count as u128);
    data.append(",\"claim_timestamp\":");
    append_json_string(&mut data, claim_timestamp);
    data.append(",\"conversation\":");
    append_json_string(&mut data, conversation);
    data.append("}");
    proof {
        assert(data@ =~= spec_claim_profile_data(
            fid,
            message_count,
            claim_timestamp@,
            conversation@,
        ));
    }
    UserData {
        username,
        email: String::new(),
        wallet_address: wallet.clone(),
        avatar_url: String::new(),
        additional_data: Some(data),
    }
}

/// A well-formed wallet address as the endpoints accept it: the `0x`
/// prefix followed by exactly 40 hex digits, in either letter case.
pub open spec fn spec_wallet_address_valid(s: Seq<char>) -> bool {
    &&& s.len() == 42
    &&& s[0] == '0'
    &&& s[1] == 'x'
    &&& forall|i: int| 2 <= i < 42 ==> crate::hexcodec::hex_char_val(#[trigger] s[i]) is Some
}

/// Whether a wallet address is well-formed; a request naming a malformed
/// wallet is refused before any core component is touched.
pub fn wallet_address_valid(s: &str) -> (r: bool)
    ensures
        r == spec_wallet_address_valid(s@),
{
    if s.unicode_len() != 42 {
        return false;
    }
    if s.get_char(0) != '0' || s.get_char(1) != 'x' {
        return false;
    }
    let mut i: usize = 2;
    while i < 42
        invariant
            2 <= i <= 42,
            s@.len() == 42,
            forall|k: int| 2 <= k < i ==> crate::hexcodec::hex_char_val(#[trigger] s@[k]) is Some,
        decreases 42 - i,
    {
        if crate::jsontext::hex_val_char(s.get_char(i)).is_none() {
            return false;
        }
        i = i + 1;
    }
    true
}

/// Failure of a vote request: either the credential mint for the voter,
/// or the recording on the proposal record.
#[derive(Clone, Copy, Debug, PartialEq, Eq, Structural)]
pub enum VoteError {
    /// The voter's credential mint did not complete; no vote is recorded.
    Mint(ClaimError),
    /// The record refused the vote.
    Proposal(ProposalError),
}

/// Record a vote paired with the outcome of the voter's credential mint:
/// the vote is recorded exactly when the mint succeeded and the record
/// admits the voter — either both the credential and the vote happen, or
/// neither is written here.
pub fn record_vote_paired(
    store: &mut ProposalStore,
    wallet: &String,
    voter: String,
    mint_outcome: &Result<u64, ClaimError>,
    timestamp: String,
) -> (r: Result<u64, VoteError>)
    requires
        store_wf(old(store)@),
        store_votes_wf(old(store)@),
    ensures
        store_wf(final(store)@),
        store_votes_wf(final(store)@),
        mint_outcome matches Err(e) ==> final(store)@ == old(store)@ && r == Err::<u64, VoteError>(
            VoteError::Mint(*e),
        ),
        mint_outcome matches Ok(t) ==> {
            &&& !has_wallet(old(store)@, wallet@) ==> r == Err::<u64, VoteError>(
                VoteError::Proposal(ProposalError::NotFound),
            ) && final(store)@ == old(store)@
            &&& has_wallet(old(store)@, wallet@) && spec_get(old(store)@, wallet@)->0.voters.contains(
                voter@,
            ) ==> r == Err::<u64, VoteError>(VoteError::Proposal(ProposalError::AlreadyVoted))
                && final(store)@ == old(store)@
            &&& has_wallet(old(store)@, wallet@) && !spec_get(
                old(store)@,
                wallet@,
            )->0.voters.contains(voter@) ==> {
                &&& r == Ok::<u64, VoteError>(*t)
                &&& spec_get(final(store)@, wallet@) matches Some(p) && {
                    &&& p.voters == spec_get(old(store)@, wallet@)->0.voters.push(voter@)
                    &&& p.votes == spec_get(old(store)@, wallet@)->0.votes + 1
                    &&& p.vote_nfts == spec_get(old(store)@, wallet@)->0.vote_nfts.push(
                        VoteNftView { token_id: *t, voter_wallet: voter@, timestamp: timestamp@ },
                    )
                    &&& p == ProposalView {
                        voters: p.voters,
                        votes: p.votes,
                        vote_nfts: p.vote_nfts,
                        ..spec_get(old(store)@, wallet@)->0
                    }
                }
                &&& forall|w: Seq<char>|
                    w != wallet@ ==> #[trigger] spec_get(final(store)@, w) == spec_get(
                        old(store)@,
                        w,
                    )
            }
        },
{
    let token = match mint_outcome {
        Err(e) => {
            return Err(VoteError::Mint(*e));
        },
        Ok(t) => *t,
    };
    match store.record_vote_by_wallet(wallet, voter, token, timestamp) {
        Ok(()) => Ok(token),
        Err(e) => Err(VoteError::Proposal(e)),
    }
}

impl VoteError {
    /// A short reason text for logs and responses.
    pub fn message(&self) -> (r: String)
        ensures
            r@.len() > 0,
    {
        match self {
            VoteError::Mint(e) => {
                let mut m = String::from_str("vote not recorded: ");
                proof {
                    reveal_strlit("vote not recorded: ");
                }
                m.append(claim_message_stub(e).as_str());
                m
            },
            VoteError::Proposal(e) => e.message(),
        }
    }
}

/// The reason text of a claim failure, without a wallet to name.
fn claim_message_stub(e: &ClaimError) -> (r: String)
    ensures
        r@.len() > 0,
{
    let r = match e {
        ClaimError::AlreadyClaimed => "NFT already claimed",
        ClaimError::InsufficientEngagement(_) => "not enough interactions",
        ClaimError::NoConversation => "no conversation found",
        ClaimError::Ledger(_) => "ledger failure",
    };
    proof {
        reveal_strlit("NFT already claimed");
        reveal_strlit("not enough interactions");
        reveal_strlit("no conversation found");
        reveal_strlit("ledger failure");
    }
    String::from_str(r)
}

/// The response shape of the claim endpoints.
pub struct NFTClaimResponse {
    pub has_claimed: bool,
    pub message: String,
    pub token_id: Option<u64>,
}

/// The reason text reported for each claim outcome.
pub open spec fn spec_claim_message(r: Result<u64, ClaimError>, wallet: Seq<char>) -> Seq<char> {
    match r {
        Ok(_) => "NFT claim successful"@,
        Err(ClaimError::AlreadyClaimed) => "NFT already claimed"@,
        Err(ClaimError::InsufficientEngagement(c)) => "Not enough interactions. Current: "@
            + spec_dec_digits(c as nat) + ", Required: "@ + spec_dec_digits(
            crate::ENGAGEMENT_THRESHOLD as nat,
        ),
        Err(ClaimError::NoConversation) => "No conversation found for wallet: "@ + wallet,
        Err(ClaimError::Ledger(_)) => "Failed to mint NFT"@,
    }
}

/// Shape a claim outcome into the endpoint's response: success carries the
/// token id and marks the wallet claimed, `AlreadyClaimed` marks it
/// claimed without an id, and every failure carries its reason text.
pub fn claim_response(r: &Result<u64, ClaimError>, wallet: &String) -> (resp: NFTClaimResponse)
    ensures
        resp.has_claimed == (r is Ok || r == Err::<u64, ClaimError>(ClaimError::AlreadyClaimed)),
        resp.token_id == if r is Ok {
            Some(r->Ok_0)
        } else {
            None::<u64>
        },
        resp.message@ == spec_claim_message(*r, wallet@),
{
    match r {
        Ok(token) => NFTClaimResponse {
            has_claimed: true,
            message: String::from_str("NFT claim successful"),
            token_id: Some(*token),
        },
        Err(ClaimError::AlreadyClaimed) => NFTClaimResponse {
            has_claimed: true,
            message: String::from_str("NFT already claimed"),
            token_id: None,
        },
        Err(ClaimError::InsufficientEngagement(c)) => {
            let mut message = String::from_str("Not enough interactions. Current: ");
            append_dec_u128(&mut message, *c as u128);
            message.append(", Required: ");
            append_dec_u128(&mut message, ENGAGEMENT_THRESHOLD as u128);
            proof {
                assert(message@ =~= spec_claim_message(*r, wallet@));
            }
            NFTClaimResponse { has_claimed: false, message, token_id: None }
        },
        Err(ClaimError::NoConversation) => {
            let mut message = String::from_str("No conversation found for wallet: ");
            message.append(wallet.as_str());
            NFTClaimResponse { has_claimed: false, message, token_id: None }
        },
        Err(ClaimError::Ledger(_)) => NFTClaimResponse {
            has_claimed: false,
            message: String::from_str("Failed to mint NFT"),
            token_id: None,
        },
    }
}

/// The response of the claim-status read: whether the wallet has claimed,
/// with the matching notice text.
pub fn claim_status_response(has_nft: bool) -> (resp: NFTClaimResponse)
    ensures
        resp.has_claimed == has_nft,
        resp.token_id is None,
        has_nft ==> resp.message@ == "Come back soon!"@,
        !has_nft ==> resp.message@ == "Not claimed yet"@,
{
    if has_nft {
        NFTClaimResponse {
            has_claimed: true,
            message: String::from_str("Come back soon!"),
            token_id: None,
        }
    } else {
        NFTClaimResponse {
            has_claimed: false,
            message: String::from_str("Not claimed yet"),
            token_id: None,
        }
    }
}

} // verus!
