//! Incoming social posts and the mention-handling decisions: which posts
//! address the service, which of a fetched batch are new since the last
//! processed one, and how fetch failures back off before giving up.

use crate::spam::spec_contains_ci;
use vstd::prelude::*;

verus! {

/// How many times a failing feed fetch is attempted before giving up.
pub const MAX_FETCH_ATTEMPTS: u32 = 3;

/// The author of a post: platform id and handle.
pub struct CastAuthor {
    pub fid: u64,
    pub username: String,
}

/// One post from the feed.
pub struct Cast {
    pub hash: String,
    pub thread_hash: Option<String>,
    pub parent_hash: Option<String>,
    pub author: CastAuthor,
    pub text: String,
    pub timestamp: i64,
}

/// One page of fetched posts with the paging cursor.
pub struct CastResult {
    pub casts: Vec<Cast>,
    pub cursor: Option<String>,
}

/// The feed's response envelope.
pub struct CastRoot {
    pub result: CastResult,
}

/// Mathematical shape of a post.
pub ghost struct CastView {
    pub hash: Seq<char>,
    pub thread_hash: Option<Seq<char>>,
    pub parent_hash: Option<Seq<char>>,
    pub author_fid: u64,
    pub author_username: Seq<char>,
    pub text: Seq<char>,
    pub timestamp: i64,
}

impl View for Cast {
    type V = CastView;

    open spec fn view(&self) -> CastView {
        CastView {
            hash: self.hash@,
            thread_hash: match self.thread_hash {
                Some(ref s) => Some(s@),
                None => None,
            },
            parent_hash: match self.parent_hash {
                Some(ref s) => Some(s@),
                None => None,
            },
            author_fid: self.author.fid,
            author_username: self.author.username@,
            text: self.text@,
            timestamp: self.timestamp,
        }
    }
}

/// The views of a list of posts.
pub open spec fn cast_views(s: Seq<Cast>) -> Seq<CastView> {
    s.map(|i: int, c: Cast| c@)
}

impl Cast {
    /// An equal copy of the post.
    pub fn duplicate(&self) -> (r: Cast)
        ensures
            r@ == self@,
    {
        Cast {
            hash: self.hash.clone(),
            thread_hash: match &self.thread_hash {
                Some(s) => Some(s.clone()),
                None => None,
            },
            parent_hash: match &self.parent_hash {
                Some(s) => Some(s.clone()),
                None => None,
            },
            author: CastAuthor { fid: self.author.fid, username: self.author.username.clone() },
            text: self.text.clone(),
            timestamp: self.timestamp,
        }
    }
}

/// A post addresses the service: its text names the service's handle (up
/// to ASCII case), or it replies within a conversation the service or the
/// same author started. The parent post's author, where one was found in
/// the conversation record, is passed in.
pub open spec fn spec_mention_to_us(
    c: CastView,
    my_fid: u64,
    bot_username: Seq<char>,
    parent_author_fid: Option<u64>,
) -> bool {
    ||| spec_contains_ci(c.text, bot_username)
    ||| (parent_author_fid matches Some(f) && (f == my_fid || f == c.author_fid))
}

/// Decide whether a post addresses the service.
pub fn is_mention_to_us(
    cast: &Cast,
    my_fid: u64,
    bot_username: &str,
    parent_author_fid: Option<u64>,
) -> (r: bool)
    ensures
        r == spec_mention_to_us(cast@, my_fid, bot_username@, parent_author_fid),
{
    if crate::spam::text_contains_ci(cast.text.as_str(), bot_username) {
        return true;
    }
    match parent_author_fid {
        Some(f) => f == my_fid || f == cast.author.fid,
        None => false,
    }
}

/// The posts of a freshly fetched batch (newest first) that still need a
/// reply: those before the last processed post, not authored by the
/// service itself, whose mention flag is set — oldest first.
pub open spec fn spec_new_mentions(
    casts: Seq<CastView>,
    flags: Seq<bool>,
    last_processed: Option<Seq<char>>,
    my_fid: u64,
) -> Seq<CastView>
    decreases casts.len(),
{
    if casts.len() == 0 {
        Seq::<CastView>::empty()
    } else if last_processed matches Some(h) && casts[0].hash == h {
        Seq::<CastView>::empty()
    } else {
        let rest = spec_new_mentions(casts.drop_first(), flags.drop_first(), last_processed, my_fid);
        if casts[0].author_fid != my_fid && flags.len() > 0 && flags[0] {
            rest.push(casts[0])
        } else {
            rest
        }
    }
}

/// Select the new mentions of a fetched batch. `mention_flags[i]` says
/// whether `casts[i]` addresses the service (decided per post with
/// [`is_mention_to_us`]); the result lists the posts to answer, oldest
/// first.
pub fn select_new_mentions(
    casts: &Vec<Cast>,
    mention_flags: &Vec<bool>,
    last_processed: Option<&String>,
    my_fid: u64,
) -> (r: Vec<Cast>)
    requires
        mention_flags@.len() == casts@.len(),
    ensures
        cast_views(r@) == spec_new_mentions(
            cast_views(casts@),
            mention_flags@,
            match last_processed {
                Some(s) => Some(s@),
                None => None,
            },
            my_fid,
        ),
{
    let ghost lp: Option<Seq<char>> = match last_processed {
        Some(s) => Some(s@),
        None => None,
    };
    let n = casts.len();
    let mut collected: Vec<Cast> = Vec::new();
    let mut i: usize = 0;
    let mut stopped = false;
    proof {
        assert(cast_views(casts@).skip(0) =~= cast_views(casts@));
        assert(mention_flags@.skip(0) =~= mention_flags@);
        assert(cast_views(collected@) =~= Seq::<CastView>::empty());
        assert(Seq::<CastView>::empty().reverse() =~= Seq::<CastView>::empty());
        assert(spec_new_mentions(cast_views(casts@), mention_flags@, lp, my_fid) + Seq::<
            CastView,
        >::empty() =~= spec_new_mentions(cast_views(casts@), mention_flags@, lp, my_fid));
    }
    while i < n && !stopped
        invariant
            i <= n,
            n == casts@.len() == mention_flags@.len(),
            lp == match last_processed {
                Some(s) => Some(s@),
                None => None::<Seq<char>>,
            },
            spec_new_mentions(cast_views(casts@), mention_flags@, lp, my_fid) == if stopped {
                cast_views(collected@).reverse()
            } else {
                spec_new_mentions(
                    cast_views(casts@).skip(i as int),
                    mention_flags@.skip(i as int),
                    lp,
                    my_fid,
                ) + cast_views(collected@).reverse()
            },
        decreases n - i + (if stopped { 0int } else { 1int }),
    {
        proof {
            let cv = cast_views(casts@);
            assert(cv.skip(i as int).drop_first() =~= cv.skip(i + 1));
            assert(mention_flags@.skip(i as int).drop_first() =~= mention_flags@.skip(i + 1));
            assert(cv.skip(i as int)[0] == cv[i as int]);
            assert(mention_flags@.skip(i as int)[0] == mention_flags@[i as int]);
        }
        let c = &casts[i];
        proof {
            assert(cast_views(casts@)[i as int] == casts@[i as int]@);
        }
        let is_last = match last_processed {
            Some(h) => c.hash.eq(h),
            None => false,
        };
        proof {
            match last_processed {
                Some(h) => {
                    assert(lp == Some::<Seq<char>>(h@));
                    assert(is_last == (c@.hash == h@));
                },
                None => {
                    assert(lp is None);
                },
            }
        }
        if is_last {
            stopped = true;
            proof {
                let cv = cast_views(casts@);
                assert(lp matches Some(hh) && cv.skip(i as int)[0].hash == hh);
                assert(spec_new_mentions(cv.skip(i as int), mention_flags@.skip(i as int), lp, my_fid)
                    == Seq::<CastView>::empty());
                assert(Seq::<CastView>::empty() + cast_views(collected@).reverse() =~= cast_views(
                    collected@,
                ).reverse());
            }
        } else {
            proof {
                let cv = cast_views(casts@);
                assert(!(lp matches Some(hh) && cv.skip(i as int)[0].hash == hh));
            }
            if c.author.fid != my_fid && mention_flags[i] {
                let ghost before = cast_views(collected@);
                collected.push(c.duplicate());
                proof {
                    assert(cast_views(collected@) =~= before.push(c@));
                    assert(cast_views(collected@).reverse() =~= seq![c@] + before.reverse());
                    let cv = cast_views(casts@);
                    let rest = spec_new_mentions(
                        cv.skip(i + 1),
                        mention_flags@.skip(i + 1),
                        lp,
                        my_fid,
                    );
                    assert(rest.push(cv[i as int]) + before.reverse() =~= rest + (seq![c@]
                        + before.reverse()));
                }
            }
            i = i + 1;
        }
    }
    proof {
        if !stopped {
            assert(cast_views(casts@).skip(n as int).len() == 0);
            assert(spec_new_mentions(
                cast_views(casts@).skip(n as int),
                mention_flags@.skip(n as int),
                lp,
                my_fid,
            ) == Seq::<CastView>::empty());
            assert(Seq::<CastView>::empty() + cast_views(collected@).reverse() =~= cast_views(
                collected@,
            ).reverse());
        }
    }
    let m = collected.len();
    let mut r: Vec<Cast> = Vec::new();
    let mut j: usize = m;
    while j > 0
        invariant
            j <= m,
            m == collected@.len(),
            cast_views(r@) == cast_views(collected@).reverse().take((m - j) as int),
        decreases j,
    {
        j = j - 1;
        let ghost before = cast_views(r@);
        r.push(collected[j].duplicate());
        proof {
            let cv = cast_views(collected@);
            assert(cast_views(r@) =~= before.push(cv[j as int]));
            assert(cv.reverse().take((m - j) as int) =~= cv.reverse().take(
                (m - j - 1) as int,
            ).push(cv.reverse()[(m - j - 1) as int]));
            assert(cv.reverse()[(m - j - 1) as int] == cv[j as int]);
        }
    }
    proof {
        assert(cast_views(collected@).reverse().take(m as int) =~= cast_views(
            collected@,
        ).reverse());
    }
    r
}

/// How long to wait after a failed feed fetch before the next attempt:
/// two seconds after the first failure, doubled after the second, giving
/// up once the attempts are spent.
pub fn backoff_delay(failures: u32) -> (r: Option<u64>)
    requires
        failures >= 1,
    ensures
        failures == 1 ==> r == Some(2u64),
        failures == 2 ==> r == Some(4u64),
        failures >= MAX_FETCH_ATTEMPTS ==> r is None,
{
    if failures >= MAX_FETCH_ATTEMPTS {
        None
    } else if failures == 1 {
        Some(2)
    } else {
        Some(4)
    }
}

} // verus!
