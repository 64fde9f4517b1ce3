//! The mined-receipt model and token-id extraction.
//!
//! A mint transaction's receipt carries log entries whose indexed topics are
//! 32-byte words. The identifier of a freshly minted asset is read from the
//! first log whose leading topic is the Keccak-256 hash of the canonical
//! `Transfer(address,address,uint256)` event signature and which carries at
//! least four topics: the id is the big-endian integer in the fourth topic.

use crate::profile::{lemma_pow256_increases, pow256};
use vstd::prelude::*;
use vstd::utf8::encode_utf8;

verus! {

/// Failure of an on-chain operation.
#[derive(Clone, Copy, Debug, PartialEq, Eq, Structural)]
pub enum LedgerError {
    /// Gas simulation reverted before the transaction was sent (for a mint,
    /// typically the contract's own duplicate-claim guard).
    GasEstimationError,
    /// The transaction was sent but was not mined successfully.
    TransactionFailed,
    /// No well-formed `Transfer` log was found in the mint receipt, or its
    /// token id does not fit the id type: the asset's id is unknown and the
    /// issuance attempt is fatal.
    TokenIdNotFound,
    /// The handoff of a minted asset to the claimant failed; the asset
    /// stays with the service wallet for manual recovery.
    TransferFailed,
    /// No executable code exists at the configured contract address.
    NotDeployed,
}

impl LedgerError {
    /// A short reason text for logs and responses.
    pub fn message(&self) -> (r: String)
        ensures
            r@.len() > 0,
    {
        let r = match self {
            LedgerError::GasEstimationError => "gas estimation reverted",
            LedgerError::TransactionFailed => "transaction failed",
            LedgerError::TokenIdNotFound => "token id not found in receipt",
            LedgerError::TransferFailed => "transfer failed",
            LedgerError::NotDeployed => "contract not deployed",
        };
        proof {
            reveal_strlit("gas estimation reverted");
            reveal_strlit("transaction failed");
            reveal_strlit("token id not found in receipt");
            reveal_strlit("transfer failed");
            reveal_strlit("contract not deployed");
        }
        String::from_str(r)
    }
}

/// One emitted log entry, reduced to its indexed topics.
pub struct LogEntry {
    pub topics: Vec<Vec<u8>>,
}

impl View for LogEntry {
    type V = Seq<Seq<u8>>;

    open spec fn view(&self) -> Seq<Seq<u8>> {
        self.topics.deep_view()
    }
}

/// The confirmed record of a submitted transaction, reduced to what
/// extraction reads: its emitted log entries.
pub struct Receipt {
    pub logs: Vec<LogEntry>,
}

impl View for Receipt {
    type V = Seq<Seq<Seq<u8>>>;

    open spec fn view(&self) -> Seq<Seq<Seq<u8>>> {
        self.logs@.map(|i: int, l: LogEntry| l@)
    }
}

/// Every topic of every log is one 32-byte word.
pub open spec fn receipt_wf(r: Seq<Seq<Seq<u8>>>) -> bool {
    forall|i: int, j: int|
        0 <= i < r.len() && 0 <= j < r[i].len() ==> (#[trigger] r[i][j]).len() == 32
}

/// What Keccak-256 digests to: a function of the input bytes alone.
pub uninterp spec fn keccak_of(bytes: Seq<u8>) -> Seq<u8>;

/// Relies on ethers::utils::keccak256: the 32-byte Keccak-256 digest of the
/// input, a function of the input bytes alone.
#[verifier::external_body]
fn keccak256(bytes: &[u8]) -> (r: Vec<u8>)
    ensures
        r@ == keccak_of(bytes@),
        r@.len() == 32,
{
    ethers::utils::keccak256(bytes).to_vec()
}

/// The canonical `Transfer` event signature.
pub open spec fn transfer_signature() -> Seq<char> {
    "Transfer(address,address,uint256)"@
}

/// The log topic that marks a `Transfer` event: the Keccak-256 hash of the
/// canonical signature.
pub open spec fn transfer_topic() -> Seq<u8> {
    keccak_of(encode_utf8(transfer_signature()))
}

/// Compute the `Transfer` event topic.
pub fn transfer_event_topic() -> (r: Vec<u8>)
    ensures
        r@ == transfer_topic(),
        r@.len() == 32,
{
    let sig = "Transfer(address,address,uint256)";
    keccak256(sig.as_bytes())
}

/// A log announces a minted token: it leads with the `Transfer` topic and
/// carries the two addresses and the token id as indexed topics.
pub open spec fn spec_log_matches(topics: Seq<Seq<u8>>) -> bool {
    topics.len() >= 4 && topics[0] == transfer_topic()
}

/// The big-endian integer a byte string encodes.
pub open spec fn spec_be_val(s: Seq<u8>) -> nat
    decreases s.len(),
{
    if s.len() == 0 {
        0
    } else {
        (256 * spec_be_val(s.drop_last()) + s.last()) as nat
    }
}

/// The token id announced by a receipt's logs: the big-endian value of the
/// fourth topic of the first matching log, if any log matches.
pub open spec fn spec_extract_token_id(logs: Seq<Seq<Seq<u8>>>) -> Option<nat>
    decreases logs.len(),
{
    if logs.len() == 0 {
        None
    } else if spec_log_matches(logs[0]) {
        Some(spec_be_val(logs[0][3]))
    } else {
        spec_extract_token_id(logs.drop_first())
    }
}

/// A big-endian value splits at any cut: high part scaled by 256^(low len)
/// plus low part.
proof fn lemma_be_val_concat(a: Seq<u8>, b: Seq<u8>)
    ensures
        spec_be_val(a + b) == spec_be_val(a) * pow256(b.len()) + spec_be_val(b),
    decreases b.len(),
{
    if b.len() == 0 {
        assert(a + b =~= a);
        assert(pow256(b.len()) == 1);
        assert(spec_be_val(b) == 0);
        assert(spec_be_val(a) * 1 == spec_be_val(a)) by (nonlinear_arith);
    } else {
        lemma_be_val_concat(a, b.drop_last());
        assert((a + b).drop_last() =~= a + b.drop_last());
        assert((a + b).last() == b.last());
        let p = pow256((b.len() - 1) as nat);
        assert(spec_be_val(a + b) == 256 * spec_be_val(a + b.drop_last()) + b.last());
        assert(spec_be_val(a + b.drop_last()) == spec_be_val(a) * p + spec_be_val(b.drop_last()));
        assert(pow256(b.len()) == 256 * p);
        assert(spec_be_val(b) == 256 * spec_be_val(b.drop_last()) + b.last());
        assert(spec_be_val(a + b) == spec_be_val(a) * pow256(b.len()) + spec_be_val(b))
            by (nonlinear_arith)
            requires
                spec_be_val(a + b) == 256 * spec_be_val(a + b.drop_last()) + b.last(),
                spec_be_val(a + b.drop_last()) == spec_be_val(a) * p + spec_be_val(b.drop_last()),
                pow256(b.len()) == 256 * p,
                spec_be_val(b) == 256 * spec_be_val(b.drop_last()) + b.last(),
        ;
    }
}

/// A big-endian value is zero exactly when every byte is zero.
proof fn lemma_be_val_zero(s: Seq<u8>)
    ensures
        spec_be_val(s) == 0 <==> (forall|i: int| 0 <= i < s.len() ==> s[i] == 0),
    decreases s.len(),
{
    if s.len() > 0 {
        lemma_be_val_zero(s.drop_last());
        assert(spec_be_val(s) == 256 * spec_be_val(s.drop_last()) + s.last());
        if spec_be_val(s) == 0 {
            assert(spec_be_val(s.drop_last()) == 0 && s.last() == 0);
            assert forall|i: int| 0 <= i < s.len() implies s[i] == 0 by {
                if i < s.len() - 1 {
                    assert(s.drop_last()[i] == s[i]);
                } else {
                    assert(s[i] == s.last());
                }
            }
        }
        if forall|i: int| 0 <= i < s.len() ==> s[i] == 0 {
            assert forall|i: int| 0 <= i < s.drop_last().len() implies s.drop_last()[i] == 0 by {
                assert(s.drop_last()[i] == s[i]);
            }
            assert(spec_be_val(s.drop_last()) == 0);
            assert(s.last() == s[s.len() - 1]);
            assert(spec_be_val(s) == 0);
        }
    }
}

/// Whether two byte strings are equal.
pub fn bytes_eq(a: &Vec<u8>, b: &Vec<u8>) -> (r: bool)
    ensures
        r == (a@ == b@),
{
    if a.len() != b.len() {
        return false;
    }
    let n = a.len();
    let mut i: usize = 0;
    while i < n
        invariant
            i <= n,
            n == a@.len() == b@.len(),
            forall|k: int| 0 <= k < i ==> a@[k] == b@[k],
        decreases n - i,
    {
        if a[i] != b[i] {
            return false;
        }
        i = i + 1;
    }
    proof {
        assert(a@ =~= b@);
    }
    true
}

/// Read the big-endian value of a 32-byte word, if it fits the id type.
fn be_word_to_u64(t: &Vec<u8>) -> (r: Option<u64>)
    requires
        t@.len() == 32,
    ensures
        match r {
            Some(v) => v as nat == spec_be_val(t@),
            None => spec_be_val(t@) > u64::MAX,
        },
{
    proof {
        reveal_with_fuel(pow256, 9);
    }
    let mut i: usize = 0;
    while i < 24
        invariant
            i <= 24,
            t@.len() == 32,
            forall|k: int| 0 <= k < i ==> t@[k] == 0,
        decreases 24 - i,
    {
        if t[i] != 0 {
            proof {
                reveal_with_fuel(pow256, 9);
                lemma_be_val_concat(t@.take(24), t@.skip(24));
                assert(t@ =~= t@.take(24) + t@.skip(24));
                lemma_be_val_zero(t@.take(24));
                assert(t@.take(24)[i as int] == t@[i as int]);
                assert(spec_be_val(t@.take(24)) >= 1);
                assert(spec_be_val(t@.take(24)) * pow256(8) >= 1 * pow256(8)) by (nonlinear_arith)
                    requires
                        spec_be_val(t@.take(24)) >= 1,
                ;
                assert(spec_be_val(t@) >= pow256(8));
                assert(pow256(8) > u64::MAX);
            }
            return None;
        }
        i = i + 1;
    }
    let mut v: u64 = 0;
    let mut j: usize = 24;
    proof {
        assert(t@.subrange(24, 24).len() == 0);
    }
    while j < 32
        invariant
            24 <= j <= 32,
            t@.len() == 32,
            forall|k: int| 0 <= k < 24 ==> t@[k] == 0,
            v as nat == spec_be_val(t@.subrange(24, j as int)),
            (v as nat) < pow256((j - 24) as nat),
        decreases 32 - j,
    {
        proof {
            lemma_pow256_increases((j - 24) as nat, 7);
            reveal_with_fuel(pow256, 9);
            assert(t@.subrange(24, j + 1).drop_last() =~= t@.subrange(24, j as int));
            assert(t@.subrange(24, j + 1).last() == t@[j as int]);
        }
        v = 256 * v + (t[j] as u64);
        j = j + 1;
    }
    proof {
        lemma_be_val_concat(t@.take(24), t@.skip(24));
        assert(t@ =~= t@.take(24) + t@.skip(24));
        lemma_be_val_zero(t@.take(24));
        assert(spec_be_val(t@.take(24)) == 0);
        assert(t@.skip(24) =~= t@.subrange(24, 32));
        assert(spec_be_val(t@) == spec_be_val(t@.subrange(24, 32)));
    }
    Some(v)
}

/// Extract the freshly minted token's id from a mint receipt, scanning for
/// the first well-formed `Transfer` log; fatal if none is present or the id
/// does not fit.
pub fn extract_token_id(receipt: &Receipt) -> (r: Result<u64, LedgerError>)
    requires
        receipt_wf(receipt@),
    ensures
        match spec_extract_token_id(receipt@) {
            Some(v) => if v <= u64::MAX {
                r matches Ok(t) && t as nat == v
            } else {
                r == Err::<u64, LedgerError>(LedgerError::TokenIdNotFound)
            },
            None => r == Err::<u64, LedgerError>(LedgerError::TokenIdNotFound),
        },
{
    let topic = transfer_event_topic();
    let n = receipt.logs.len();
    let mut i: usize = 0;
    proof {
        assert(receipt@.skip(0) =~= receipt@);
    }
    while i < n
        invariant
            i <= n,
            n == receipt.logs@.len(),
            receipt_wf(receipt@),
            topic@ == transfer_topic(),
            spec_extract_token_id(receipt@) == spec_extract_token_id(receipt@.skip(i as int)),
        decreases n - i,
    {
        proof {
            assert(receipt@.skip(i as int)[0] == receipt@[i as int]);
            assert(receipt@.skip(i as int).drop_first() =~= receipt@.skip(i + 1));
        }
        let log = &receipt.logs[i];
        proof {
            assert(receipt@[i as int] == log@);
            assert(log@.len() == log.topics@.len());
            if log.topics@.len() > 0 {
                assert(log@[0] =~= log.topics@[0]@);
            }
        }
        if log.topics.len() >= 4 && bytes_eq(&log.topics[0], &topic) {
            proof {
                assert(spec_log_matches(receipt@[i as int]));
                assert(receipt@[i as int][3] =~= log.topics@[3]@);
                assert(receipt@[i as int][3].len() == 32);
                assert(spec_extract_token_id(receipt@) == Some(spec_be_val(log.topics@[3]@)));
            }
            let t = &log.topics[3];
            return match be_word_to_u64(t) {
                Some(v) => Ok(v),
                None => Err(LedgerError::TokenIdNotFound),
            };
        }
        proof {
            assert(!spec_log_matches(receipt@[i as int]));
        }
        i = i + 1;
    }
    proof {
        assert(receipt@.skip(n as int).len() == 0);
    }
    Err(LedgerError::TokenIdNotFound)
}

} // verus!
