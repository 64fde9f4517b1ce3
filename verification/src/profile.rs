//! The profile record carried inside an encrypted credential and its byte
//! framing.
//!
//! A profile is serialized to a self-contained byte string: each text field
//! is framed as an 8-byte little-endian length followed by its UTF-8 bytes,
//! and the optional opaque payload is preceded by a one-byte presence tag.
//! [`lemma_profile_codec_round_trip`] shows that parsing an encoding returns
//! the original profile.

use vstd::arithmetic::div_mod::{lemma_fundamental_div_mod, lemma_multiply_divide_lt};
use vstd::prelude::*;
use vstd::utf8::{decode_utf8, decode_utf8_encode_utf8, encode_utf8, encode_utf8_decode_utf8,
    encode_utf8_valid_utf8, valid_utf8};

verus! {

/// Profile data embedded in a freshly issued credential: identity facts plus
/// an optional opaque payload (carried as its textual form).
pub struct UserData {
    pub username: String,
    pub email: String,
    pub wallet_address: String,
    pub avatar_url: String,
    pub additional_data: Option<String>,
}

/// Mathematical shape of a profile: each field as its character sequence.
pub ghost struct ProfileView {
    pub username: Seq<char>,
    pub email: Seq<char>,
    pub wallet_address: Seq<char>,
    pub avatar_url: Seq<char>,
    pub additional_data: Option<Seq<char>>,
}

impl View for UserData {
    type V = ProfileView;

    open spec fn view(&self) -> ProfileView {
        ProfileView {
            username: self.username@,
            email: self.email@,
            wallet_address: self.wallet_address@,
            avatar_url: self.avatar_url@,
            additional_data: match self.additional_data {
                Some(s) => Some(s@),
                None => None,
            },
        }
    }
}

/// 256 raised to `k`.
pub open spec fn pow256(k: nat) -> nat
    decreases k,
{
    if k == 0 {
        1
    } else {
        256 * pow256((k - 1) as nat)
    }
}

/// The `k` little-endian base-256 digits of `n`.
pub open spec fn spec_le_bytes(n: nat, k: nat) -> Seq<u8>
    decreases k,
{
    if k == 0 {
        Seq::<u8>::empty()
    } else {
        seq![(n % 256) as u8] + spec_le_bytes(n / 256, (k - 1) as nat)
    }
}

/// The value a little-endian base-256 byte string stands for.
pub open spec fn spec_le_val(s: Seq<u8>) -> nat
    decreases s.len(),
{
    if s.len() == 0 {
        0
    } else {
        (s[0] + 256 * spec_le_val(s.drop_first())) as nat
    }
}

/// Reading back the digits of a value below 256^k gives the value.
pub proof fn lemma_le_bytes_val(n: nat, k: nat)
    requires
        n < pow256(k),
    ensures
        spec_le_bytes(n, k).len() == k,
        spec_le_val(spec_le_bytes(n, k)) == n,
    decreases k,
{
    if k > 0 {
        lemma_multiply_divide_lt(n as int, pow256((k - 1) as nat) as int, 256);
        lemma_le_bytes_val(n / 256, (k - 1) as nat);
        assert(spec_le_bytes(n, k).drop_first() =~= spec_le_bytes(n / 256, (k - 1) as nat));
        lemma_fundamental_div_mod(n as int, 256);
    }
}

/// The digits of any value, read back as a value, reproduce the digit string.
pub proof fn lemma_le_val_bytes(s: Seq<u8>)
    ensures
        spec_le_val(s) < pow256(s.len()),
        spec_le_bytes(spec_le_val(s), s.len()) == s,
    decreases s.len(),
{
    if s.len() > 0 {
        lemma_le_val_bytes(s.drop_first());
        let n = spec_le_val(s);
        assert(n == s[0] + 256 * spec_le_val(s.drop_first()));
        assert(n < pow256(s.len())) by {
            assert(spec_le_val(s.drop_first()) <= pow256((s.len() - 1) as nat) - 1);
            assert(256 * spec_le_val(s.drop_first()) <= 256 * (pow256((s.len() - 1) as nat) - 1))
                by (nonlinear_arith)
                requires
                    spec_le_val(s.drop_first()) <= pow256((s.len() - 1) as nat) - 1,
            ;
        }
        assert(n % 256 == s[0] && n / 256 == spec_le_val(s.drop_first())) by {
            lemma_fundamental_div_mod_converse_helper(
                n as int,
                s[0] as int,
                spec_le_val(s.drop_first()) as int,
            );
        }
        assert(spec_le_bytes(n, s.len()) =~= s);
    }
}

/// `n == r + 256 * q` with `r` a byte pins down `n / 256` and `n % 256`.
proof fn lemma_fundamental_div_mod_converse_helper(n: int, r: int, q: int)
    requires
        0 <= r < 256,
        0 <= q,
        n == r + 256 * q,
    ensures
        n % 256 == r,
        n / 256 == q,
{
    vstd::arithmetic::div_mod::lemma_fundamental_div_mod_converse(n, 256, q, r);
}

/// A text field's frame: 8-byte little-endian byte length, then the UTF-8
/// bytes themselves.
pub open spec fn spec_field(s: Seq<char>) -> Seq<u8> {
    spec_le_bytes(encode_utf8(s).len(), 8) + encode_utf8(s)
}

/// The whole profile's byte framing.
pub open spec fn spec_profile_bytes(v: ProfileView) -> Seq<u8> {
    spec_field(v.username) + spec_field(v.email) + spec_field(v.wallet_address) + spec_field(
        v.avatar_url,
    ) + (match v.additional_data {
        None => seq![0u8],
        Some(s) => seq![1u8] + spec_field(s),
    })
}

/// Every field's UTF-8 form fits in an 8-byte length frame.
pub open spec fn profile_view_bounded(v: ProfileView) -> bool {
    &&& encode_utf8(v.username).len() < pow256(8)
    &&& encode_utf8(v.email).len() < pow256(8)
    &&& encode_utf8(v.wallet_address).len() < pow256(8)
    &&& encode_utf8(v.avatar_url).len() < pow256(8)
    &&& (v.additional_data matches Some(s) ==> encode_utf8(s).len() < pow256(8))
}

/// Parse one framed field: the decoded characters and what follows the
/// frame; `None` if the frame is short or its payload is not UTF-8.
pub open spec fn spec_read_field(b: Seq<u8>) -> Option<(Seq<char>, Seq<u8>)> {
    if b.len() < 8 {
        None
    } else {
        let n = spec_le_val(b.take(8));
        if b.len() - 8 < n {
            None
        } else {
            let payload = b.subrange(8, 8 + n as int);
            if valid_utf8(payload) {
                Some((decode_utf8(payload), b.skip(8 + n as int)))
            } else {
                None
            }
        }
    }
}

/// Parse a whole profile encoding; `None` unless the bytes are exactly one
/// well-formed profile frame.
pub open spec fn spec_profile_decode(b: Seq<u8>) -> Option<ProfileView> {
    match spec_read_field(b) {
        None => None,
        Some((username, b1)) => match spec_read_field(b1) {
            None => None,
            Some((email, b2)) => match spec_read_field(b2) {
                None => None,
                Some((wallet_address, b3)) => match spec_read_field(b3) {
                    None => None,
                    Some((avatar_url, b4)) => {
                        if b4 =~= seq![0u8] {
                            Some(
                                ProfileView {
                                    username,
                                    email,
                                    wallet_address,
                                    avatar_url,
                                    additional_data: None,
                                },
                            )
                        } else if b4.len() >= 1 && b4[0] == 1u8 {
                            match spec_read_field(b4.drop_first()) {
                                Some((extra, b5)) => {
                                    if b5.len() == 0 {
                                        Some(
                                            ProfileView {
                                                username,
                                                email,
                                                wallet_address,
                                                avatar_url,
                                                additional_data: Some(extra),
                                            },
                                        )
                                    } else {
                                        None
                                    }
                                },
                                None => None,
                            }
                        } else {
                            None
                        }
                    },
                },
            },
        },
    }
}

/// Parsing a framed field at the head of a byte string recovers the field
/// and the remainder.
pub proof fn lemma_read_field_of_frame(s: Seq<char>, rest: Seq<u8>)
    requires
        encode_utf8(s).len() < pow256(8),
    ensures
        spec_read_field(spec_field(s) + rest) == Some((s, rest)),
{
    let n = encode_utf8(s).len();
    let b = spec_field(s) + rest;
    lemma_le_bytes_val(n, 8);
    assert(b.take(8) =~= spec_le_bytes(n, 8));
    assert(spec_le_val(b.take(8)) == n);
    assert(b.len() - 8 >= n);
    assert(b.subrange(8, 8 + n as int) =~= encode_utf8(s));
    encode_utf8_valid_utf8(s);
    encode_utf8_decode_utf8(s);
    assert(b.skip(8 + n as int) =~= rest);
}

/// Parsing an encoded profile returns the profile unchanged.
#[verifier::rlimit(50)]
pub proof fn lemma_profile_codec_round_trip(v: ProfileView)
    requires
        profile_view_bounded(v),
    ensures
        spec_profile_decode(spec_profile_bytes(v)) == Some(v),
{
    let b = spec_profile_bytes(v);
    let tail = match v.additional_data {
        None => seq![0u8],
        Some(s) => seq![1u8] + spec_field(s),
    };
    assert(b =~= spec_field(v.username) + (spec_field(v.email) + (spec_field(v.wallet_address) + (
    spec_field(v.avatar_url) + tail))));
    lemma_read_field_of_frame(
        v.username,
        spec_field(v.email) + (spec_field(v.wallet_address) + (spec_field(v.avatar_url) + tail)),
    );
    lemma_read_field_of_frame(
        v.email,
        spec_field(v.wallet_address) + (spec_field(v.avatar_url) + tail),
    );
    lemma_read_field_of_frame(v.wallet_address, spec_field(v.avatar_url) + tail);
    lemma_read_field_of_frame(v.avatar_url, tail);
    match v.additional_data {
        None => {
            assert(tail =~= seq![0u8]);
        },
        Some(s) => {
            assert(tail[0] == 1u8);
            assert(!(tail =~= seq![0u8]));
            assert(tail.drop_first() =~= spec_field(s) + Seq::<u8>::empty());
            lemma_read_field_of_frame(s, Seq::<u8>::empty());
        },
    }
}

/// Printing a parsed profile reproduces the exact input bytes: an encoding
/// is the only byte string its profile parses from.
#[verifier::rlimit(50)]
pub proof fn lemma_profile_decode_encode(b: Seq<u8>, v: ProfileView)
    requires
        spec_profile_decode(b) == Some(v),
    ensures
        spec_profile_bytes(v) == b,
        profile_view_bounded(v),
{
    let r1 = spec_read_field(b);
    lemma_read_field_inverts(b);
    let (f1, b1) = r1->Some_0;
    lemma_read_field_inverts(b1);
    let (f2, b2) = spec_read_field(b1)->Some_0;
    lemma_read_field_inverts(b2);
    let (f3, b3) = spec_read_field(b2)->Some_0;
    lemma_read_field_inverts(b3);
    let (f4, b4) = spec_read_field(b3)->Some_0;
    let tail = if b4 =~= seq![0u8] {
        seq![0u8]
    } else {
        seq![1u8] + spec_field(spec_read_field(b4.drop_first())->Some_0.0)
    };
    if b4 =~= seq![0u8] {
        assert(v.additional_data is None);
        assert(b4 == tail);
    } else {
        lemma_read_field_inverts(b4.drop_first());
        let (f5, b5) = spec_read_field(b4.drop_first())->Some_0;
        assert(b5.len() == 0);
        assert(b4.drop_first() =~= spec_field(f5));
        assert(b4 =~= seq![1u8] + b4.drop_first());
        assert(v.additional_data == Some(f5));
        assert(b4 == tail);
    }
    assert(spec_profile_bytes(v) =~= spec_field(f1) + (spec_field(f2) + (spec_field(f3) + (
    spec_field(f4) + tail))));
    assert(b3 == spec_field(f4) + b4);
    assert(b2 == spec_field(f3) + b3);
    assert(b1 == spec_field(f2) + b2);
    assert(b == spec_field(f1) + b1);
    assert(spec_profile_bytes(v) == b);
}

/// 256^k grows with k.
pub proof fn lemma_pow256_increases(a: nat, b: nat)
    requires
        a <= b,
    ensures
        pow256(a) <= pow256(b),
    decreases b,
{
    if a < b {
        lemma_pow256_increases(a, (b - 1) as nat);
    }
}

/// Append a byte slice to a buffer.
pub(crate) fn push_bytes(out: &mut Vec<u8>, b: &[u8])
    ensures
        final(out)@ == old(out)@ + b@,
{
    let n = b.len();
    let mut i: usize = 0;
    while i < n
        invariant
            i <= n,
            n == b@.len(),
            out@ == old(out)@ + b@.take(i as int),
        decreases n - i,
    {
        out.push(*vstd::slice::slice_index_get(b, i));
        proof {
            assert(b@.take(i + 1) =~= b@.take(i as int).push(b@[i as int]));
        }
        i = i + 1;
    }
    proof {
        assert(b@.take(n as int) =~= b@);
    }
}

/// Append the 8 little-endian base-256 digits of `n`.
fn push_len8(out: &mut Vec<u8>, n: u64)
    ensures
        final(out)@ == old(out)@ + spec_le_bytes(n as nat, 8),
{
    let ghost start = out@;
    let mut m = n;
    out.push((m % 256) as u8);
    m = m / 256;
    out.push((m % 256) as u8);
    m = m / 256;
    out.push((m % 256) as u8);
    m = m / 256;
    out.push((m % 256) as u8);
    m = m / 256;
    out.push((m % 256) as u8);
    m = m / 256;
    out.push((m % 256) as u8);
    m = m / 256;
    out.push((m % 256) as u8);
    m = m / 256;
    out.push((m % 256) as u8);
    proof {
        reveal_with_fuel(spec_le_bytes, 9);
        assert(out@ =~= start + spec_le_bytes(n as nat, 8));
    }
}

/// Append the frame of one text field.
fn push_field(out: &mut Vec<u8>, s: &str)
    ensures
        final(out)@ == old(out)@ + spec_field(s@),
{
    let bs = s.as_bytes();
    proof {
        reveal_with_fuel(pow256, 9);
        assert(pow256(8) == 0x1_0000_0000_0000_0000);
    }
    push_len8(out, bs.len() as u64);
    push_bytes(out, bs);
    proof {
        assert(old(out)@ + spec_le_bytes(bs@.len(), 8) + bs@ =~= old(out)@ + spec_field(s@));
    }
}

/// Serialize a profile to its byte framing.
pub fn encode_profile(p: &UserData) -> (r: Vec<u8>)
    ensures
        r@ == spec_profile_bytes(p@),
{
    let mut out: Vec<u8> = Vec::new();
    push_field(&mut out, self_str(&p.username));
    push_field(&mut out, self_str(&p.email));
    push_field(&mut out, self_str(&p.wallet_address));
    push_field(&mut out, self_str(&p.avatar_url));
    match &p.additional_data {
        None => {
            out.push(0u8);
        },
        Some(s) => {
            out.push(1u8);
            push_field(&mut out, self_str(s));
        },
    }
    proof {
        assert(out@ =~= spec_profile_bytes(p@));
    }
    out
}

/// View a `String` as a `&str` (keeps call sites inside contracts short).
fn self_str(s: &String) -> (r: &str)
    ensures
        r@ == s@,
{
    s.as_str()
}

/// Relies on String::from_utf8: succeeds exactly on well-formed UTF-8,
/// returning the characters those bytes encode.
#[verifier::external_body]
fn string_from_utf8(v: Vec<u8>) -> (r: Option<String>)
    ensures
        match r {
            Some(s) => valid_utf8(v@) && s@ == decode_utf8(v@),
            None => !valid_utf8(v@),
        },
{
    String::from_utf8(v).ok()
}

/// Read the 8-byte little-endian length at `pos`.
fn read_le8(bytes: &Vec<u8>, pos: usize) -> (n: u64)
    requires
        pos + 8 <= bytes@.len(),
    ensures
        n as nat == spec_le_val(bytes@.subrange(pos as int, pos as int + 8)),
{
    let blen: usize = bytes.len();
    let mut n: u64 = 0;
    let mut j: usize = 8;
    proof {
        assert(bytes@.subrange(pos + 8 as int, pos as int + 8).len() == 0);
    }
    while j > 0
        invariant
            j <= 8,
            pos + 8 <= blen,
            blen == bytes@.len(),
            n as nat == spec_le_val(bytes@.subrange(pos + j as int, pos as int + 8)),
            n < pow256((8 - j) as nat),
        decreases j,
    {
        proof {
            lemma_pow256_increases((8 - j) as nat, 7);
            reveal_with_fuel(pow256, 9);
            assert(pow256(7) == 0x100_0000_0000_0000);
        }
        j = j - 1;
        let b = bytes[pos + j];
        proof {
            let s = bytes@.subrange(pos + j as int, pos as int + 8);
            assert(s.drop_first() =~= bytes@.subrange(pos + j + 1 as int, pos as int + 8));
            assert(s[0] == bytes@[pos + j as int]);
        }
        n = (b as u64) + 256 * n;
    }
    n
}

/// Parse the field frame that starts at `pos`; returns the field text and
/// the offset just past the frame.
fn read_field(bytes: &Vec<u8>, pos: usize) -> (r: Option<(String, usize)>)
    requires
        pos <= bytes@.len(),
    ensures
        match r {
            Some(sp) => {
                &&& spec_read_field(bytes@.skip(pos as int)) matches Some(fr)
                &&& sp.1 <= bytes@.len()
                &&& pos + 8 <= sp.1
                &&& sp.0@ == fr.0
                &&& fr.1 == bytes@.skip(sp.1 as int)
            },
            None => spec_read_field(bytes@.skip(pos as int)) is None,
        },
{
    let ghost b = bytes@.skip(pos as int);
    if bytes.len() - pos < 8 {
        return None;
    }
    let n = read_le8(bytes, pos);
    proof {
        assert(b.take(8) =~= bytes@.subrange(pos as int, pos as int + 8));
    }
    let avail = bytes.len() - pos - 8;
    if (avail as u64) < n {
        return None;
    }
    let n_us = n as usize;
    let payload_slice = vstd::slice::slice_subrange(bytes.as_slice(), pos + 8, pos + 8 + n_us);
    let payload = vstd::slice::slice_to_vec(payload_slice);
    proof {
        assert(payload@ =~= b.subrange(8, 8 + n as int));
    }
    match string_from_utf8(payload) {
        None => None,
        Some(s) => {
            proof {
                assert(b.skip(8 + n as int) =~= bytes@.skip(pos + 8 + n as int));
            }
            Some((s, pos + 8 + n_us))
        },
    }
}

/// Parse a byte framing back into a profile; `None` unless the bytes are
/// exactly one well-formed profile frame.
#[verifier::rlimit(60)]
pub fn decode_profile(bytes: &Vec<u8>) -> (r: Option<UserData>)
    ensures
        match spec_profile_decode(bytes@) {
            Some(v) => r matches Some(p) && p@ == v,
            None => r is None,
        },
{
    proof {
        assert(bytes@.skip(0) =~= bytes@);
    }
    let (username, p1) = match read_field(bytes, 0) {
        Some(x) => x,
        None => {
            return None;
        },
    };
    let (email, p2) = match read_field(bytes, p1) {
        Some(x) => x,
        None => {
            return None;
        },
    };
    let (wallet_address, p3) = match read_field(bytes, p2) {
        Some(x) => x,
        None => {
            return None;
        },
    };
    let (avatar_url, p4) = match read_field(bytes, p3) {
        Some(x) => x,
        None => {
            return None;
        },
    };
    let ghost b4 = bytes@.skip(p4 as int);
    proof {
        assert(b4.len() == bytes@.len() - p4);
        if b4.len() > 0 {
            assert(b4[0] == bytes@[p4 as int]);
        }
    }
    if bytes.len() - p4 == 1 && bytes[p4] == 0 {
        proof {
            assert(b4 =~= seq![0u8]);
        }
        Some(UserData { username, email, wallet_address, avatar_url, additional_data: None })
    } else if bytes.len() - p4 >= 1 && bytes[p4] == 1 {
        proof {
            assert(!(b4 =~= seq![0u8]));
            assert(b4[0] == 1u8);
            assert(b4.drop_first() =~= bytes@.skip(p4 + 1));
        }
        let (extra, p5) = match read_field(bytes, p4 + 1) {
            Some(x) => x,
            None => {
                return None;
            },
        };
        if p5 == bytes.len() {
            Some(
                UserData {
                    username,
                    email,
                    wallet_address,
                    avatar_url,
                    additional_data: Some(extra),
                },
            )
        } else {
            None
        }
    } else {
        proof {
            if b4 =~= seq![0u8] {
                assert(b4.len() == 1 && b4[0] == 0u8);
                assert(bytes@.len() - p4 == 1 && bytes@[p4 as int] == 0);
            }
        }
        None
    }
}

/// A successful field parse accounts byte-for-byte for the frame it read.
proof fn lemma_read_field_inverts(b: Seq<u8>)
    requires
        spec_read_field(b) is Some,
    ensures
        ({
            let (s, rest) = spec_read_field(b)->Some_0;
            &&& encode_utf8(s).len() < pow256(8)
            &&& b == spec_field(s) + rest
            &&& rest.len() <= b.len() - 8
        }),
{
    let n = spec_le_val(b.take(8));
    let payload = b.subrange(8, 8 + n as int);
    let (s, rest) = spec_read_field(b)->Some_0;
    decode_utf8_encode_utf8(payload);
    assert(encode_utf8(s) == payload);
    lemma_le_val_bytes(b.take(8));
    assert(spec_le_bytes(n, 8) == b.take(8));
    assert(b.take(8).len() == 8);
    assert(spec_field(s) =~= b.take(8 + n as int));
    assert(b =~= b.take(8 + n as int) + b.skip(8 + n as int));
}

} // verus!
