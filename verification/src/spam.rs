//! The spam filter for incoming social mentions, and the replied-post
//! ledger that keeps the service from answering the same post twice.
//!
//! A mention counts as spam when it tags more than three accounts, when
//! its text carries one of a fixed set of promotional words (matched
//! without regard to ASCII letter case), or when it carries a lowercase
//! web-link prefix (matched exactly).

use vstd::prelude::*;
use vstd::string::StrSliceExecFns;

verus! {

/// How many replied-post ids are remembered before the set is reset.
pub const REPLIED_CAP: usize = 1000;

/// Two characters are equal up to ASCII letter case.
pub open spec fn char_eq_ci(a: char, b: char) -> bool {
    ||| a == b
    ||| (65 <= (a as u32) <= 90 && (b as u32) == (a as u32) + 32)
    ||| (65 <= (b as u32) <= 90 && (a as u32) == (b as u32) + 32)
}

/// The pattern occurs at position `i` of the text, up to ASCII case.
pub open spec fn spec_matches_at(t: Seq<char>, p: Seq<char>, i: int) -> bool {
    forall|j: int| 0 <= j < p.len() ==> char_eq_ci(t[i + j], #[trigger] p[j])
}

/// The pattern occurs somewhere in the text, up to ASCII case.
pub open spec fn spec_contains_ci(t: Seq<char>, p: Seq<char>) -> bool {
    exists|i: int| 0 <= i && i + p.len() <= t.len() && spec_matches_at(t, p, i)
}

/// The pattern occurs at position `i` of the text, character for
/// character.
pub open spec fn spec_matches_here(t: Seq<char>, p: Seq<char>, i: int) -> bool {
    forall|j: int| 0 <= j < p.len() ==> t[i + j] == #[trigger] p[j]
}

/// The pattern occurs somewhere in the text, character for character.
pub open spec fn spec_contains_exact(t: Seq<char>, p: Seq<char>) -> bool {
    exists|i: int| 0 <= i && i + p.len() <= t.len() && spec_matches_here(t, p, i)
}

/// Whether the pattern occurs at position `i`, character for character.
fn matches_here(t: &str, p: &str, i: usize) -> (r: bool)
    requires
        i + p@.len() <= t@.len(),
        t@.len() <= usize::MAX,
    ensures
        r == spec_matches_here(t@, p@, i as int),
{
    let pn = p.unicode_len();
    let mut j: usize = 0;
    while j < pn
        invariant
            i + pn <= t@.len(),
            t@.len() <= usize::MAX,
            pn == p@.len(),
            j <= pn,
            forall|l: int| 0 <= l < j ==> t@[i + l] == #[trigger] p@[l],
        decreases pn - j,
    {
        if t.get_char(i + j) != p.get_char(j) {
            proof {
                assert(t@[i + j] != p@[j as int]);
            }
            return false;
        }
        j = j + 1;
    }
    true
}

/// Whether the pattern occurs in the text, character for character.
pub fn text_contains(t: &str, p: &str) -> (r: bool)
    ensures
        r == spec_contains_exact(t@, p@),
{
    let tn = t.unicode_len();
    let pn = p.unicode_len();
    if pn > tn {
        proof {
            if spec_contains_exact(t@, p@) {
                let i = choose|i: int| 0 <= i && i + p@.len() <= t@.len() && spec_matches_here(
                    t@,
                    p@,
                    i,
                );
            }
        }
        return false;
    }
    let mut i: usize = 0;
    while i <= tn - pn
        invariant
            pn <= tn,
            tn == t@.len(),
            pn == p@.len(),
            i <= tn - pn + 1,
            forall|k: int| 0 <= k < i ==> !spec_matches_here(t@, p@, k),
        decreases tn - pn + 1 - i,
    {
        if matches_here(t, p, i) {
            return true;
        }
        i = i + 1;
    }
    proof {
        if spec_contains_exact(t@, p@) {
            let k = choose|k: int| 0 <= k && k + p@.len() <= t@.len() && spec_matches_here(
                t@,
                p@,
                k,
            );
            assert(!spec_matches_here(t@, p@, k));
        }
    }
    false
}

/// How often a character occurs in the text.
pub open spec fn spec_count_char(t: Seq<char>, c: char) -> nat
    decreases t.len(),
{
    if t.len() == 0 {
        0
    } else {
        spec_count_char(t.drop_last(), c) + if t.last() == c {
            1nat
        } else {
            0nat
        }
    }
}

/// A text is spam: more than three account tags, one of the fixed
/// promotional words (up to ASCII case), or a web link.
pub open spec fn spec_is_spam(t: Seq<char>) -> bool {
    ||| spec_count_char(t, '@') > 3
    ||| spec_contains_ci(t, "crypto"@)
    ||| spec_contains_ci(t, "pump"@)
    ||| spec_contains_ci(t, "airdrop"@)
    ||| spec_contains_ci(t, "blast"@)
    ||| spec_contains_ci(t, "token"@)
    ||| spec_contains_ci(t, "drop"@)
    ||| spec_contains_exact(t, "http://"@)
    ||| spec_contains_exact(t, "https://"@)
}

/// Whether two characters are equal up to ASCII letter case.
fn eq_ci(a: char, b: char) -> (r: bool)
    ensures
        r == char_eq_ci(a, b),
{
    if a == b {
        true
    } else {
        let av = a as u32;
        let bv = b as u32;
        (65 <= av && av <= 90 && bv == av + 32) || (65 <= bv && bv <= 90 && av == bv + 32)
    }
}

/// Whether the pattern occurs at position `i`, up to ASCII case.
fn matches_at(t: &str, p: &str, i: usize) -> (r: bool)
    requires
        i + p@.len() <= t@.len(),
        t@.len() <= usize::MAX,
    ensures
        r == spec_matches_at(t@, p@, i as int),
{
    let pn = p.unicode_len();
    let mut j: usize = 0;
    while j < pn
        invariant
            i + pn <= t@.len(),
            t@.len() <= usize::MAX,
            pn == p@.len(),
            j <= pn,
            forall|l: int| 0 <= l < j ==> char_eq_ci(t@[i + l], #[trigger] p@[l]),
        decreases pn - j,
    {
        let tc = t.get_char(i + j);
        let pc = p.get_char(j);
        if !eq_ci(tc, pc) {
            proof {
                assert(!char_eq_ci(t@[i + j], p@[j as int]));
            }
            return false;
        }
        proof {
            assert(char_eq_ci(t@[i + j], p@[j as int]));
        }
        j = j + 1;
    }
    true
}

/// Whether the pattern occurs in the text, up to ASCII case.
pub fn text_contains_ci(t: &str, p: &str) -> (r: bool)
    ensures
        r == spec_contains_ci(t@, p@),
{
    let tn = t.unicode_len();
    let pn = p.unicode_len();
    if pn > tn {
        proof {
            if spec_contains_ci(t@, p@) {
                let i = choose|i: int| 0 <= i && i + p@.len() <= t@.len() && spec_matches_at(
                    t@,
                    p@,
                    i,
                );
            }
        }
        return false;
    }
    let mut i: usize = 0;
    while i <= tn - pn
        invariant
            pn <= tn,
            tn == t@.len(),
            pn == p@.len(),
            i <= tn - pn + 1,
            forall|k: int| 0 <= k < i ==> !spec_matches_at(t@, p@, k),
        decreases tn - pn + 1 - i,
    {
        if matches_at(t, p, i) {
            return true;
        }
        i = i + 1;
    }
    proof {
        if spec_contains_ci(t@, p@) {
            let k = choose|k: int| 0 <= k && k + p@.len() <= t@.len() && spec_matches_at(
                t@,
                p@,
                k,
            );
            assert(!spec_matches_at(t@, p@, k));
        }
    }
    false
}

/// Count how often `c` occurs in the text.
fn count_char(t: &str, c: char) -> (r: usize)
    ensures
        r as nat == spec_count_char(t@, c),
{
    let n = t.unicode_len();
    let mut count: usize = 0;
    let mut i: usize = 0;
    while i < n
        invariant
            i <= n,
            n == t@.len(),
            count as nat == spec_count_char(t@.take(i as int), c),
            count <= i,
        decreases n - i,
    {
        proof {
            assert(t@.take(i + 1).drop_last() =~= t@.take(i as int));
            assert(t@.take(i + 1).last() == t@[i as int]);
        }
        if t.get_char(i) == c {
            count = count + 1;
        }
        i = i + 1;
    }
    proof {
        assert(t@.take(n as int) =~= t@);
    }
    count
}

/// Whether a mention's text is spam and should be ignored.
pub fn is_spam(text: &str) -> (r: bool)
    ensures
        r == spec_is_spam(text@),
{
    if count_char(text, '@') > 3 {
        return true;
    }
    text_contains_ci(text, "crypto") || text_contains_ci(text, "pump") || text_contains_ci(
        text,
        "airdrop",
    ) || text_contains_ci(text, "blast") || text_contains_ci(text, "token") || text_contains_ci(
        text,
        "drop",
    ) || text_contains(text, "http://") || text_contains(text, "https://")
}

/// The set of post ids already replied to. To keep its memory bounded it
/// forgets everything once it has grown past [`REPLIED_CAP`] entries, as a
/// coarse recent-id window.
pub struct RepliedSet {
    pub ids: Vec<String>,
}

impl RepliedSet {
    /// An empty ledger.
    pub fn new() -> (r: RepliedSet)
        ensures
            r.ids.deep_view() == Seq::<Seq<char>>::empty(),
    {
        let r = RepliedSet { ids: Vec::new() };
        proof {
            assert(r.ids.deep_view() =~= Seq::<Seq<char>>::empty());
        }
        r
    }

    /// Whether `id` was already replied to.
    pub fn contains(&self, id: &String) -> (r: bool)
        ensures
            r == self.ids.deep_view().contains(id@),
    {
        let n = self.ids.len();
        let mut i: usize = 0;
        while i < n
            invariant
                i <= n,
                n == self.ids@.len(),
                forall|k: int| 0 <= k < i ==> self.ids.deep_view()[k] != id@,
            decreases n - i,
        {
            proof {
                assert(self.ids.deep_view()[i as int] =~= self.ids@[i as int]@);
            }
            if self.ids[i].eq(id) {
                proof {
                    assert(self.ids.deep_view().contains(id@));
                }
                return true;
            }
            i = i + 1;
        }
        proof {
            if self.ids.deep_view().contains(id@) {
                let k = choose|k: int|
                    0 <= k < self.ids.deep_view().len() && self.ids.deep_view()[k] == id@;
                assert(self.ids.deep_view()[k] != id@);
            }
        }
        false
    }

    /// Mark a post as handled unless it already was: reports whether it
    /// had been seen; a fresh id is remembered, after a reset of the
    /// ledger when it had outgrown its cap.
    pub fn check_and_insert(&mut self, id: &String) -> (r: bool)
        ensures
            old(self).ids.deep_view().contains(id@) ==> r && final(self).ids.deep_view() == old(
                self,
            ).ids.deep_view(),
            !old(self).ids.deep_view().contains(id@) ==> !r && final(self).ids.deep_view() == (
            if old(self).ids.deep_view().len() > REPLIED_CAP {
                Seq::<Seq<char>>::empty()
            } else {
                old(self).ids.deep_view()
            }).push(id@),
    {
        if self.contains(id) {
            return true;
        }
        if self.ids.len() > REPLIED_CAP {
            self.ids.clear();
        }
        let ghost before = self.ids.deep_view();
        self.ids.push(id.clone());
        proof {
            assert(self.ids.deep_view() =~= before.push(id@));
            if old(self).ids.deep_view().len() <= REPLIED_CAP {
                assert(before =~= old(self).ids.deep_view());
            } else {
                assert(before =~= Seq::<Seq<char>>::empty());
            }
        }
        false
    }
}

} // verus!
