//! The claim graph: atomic claims, directed typed links between them,
//! access records, and the connectivity and recency queries built on them.
//!
//! A claim is an orphan when fewer than two link edges touch it, counting
//! both directions.  A claim is stale for a window of `days` when it has no
//! access record at all, or its last access lies before `now - days` (in
//! seconds).  Linking is idempotent per `(source, target, type)` triple,
//! rejects self-loops, and requires both endpoints to exist; deleting a
//! claim cascades to every link touching it and to its access record.

use vstd::prelude::*;

use crate::kinds::{ClaimCategory, Confidence, LinkType};
use crate::model::{Claim, ClaimAccess, ClaimLink, ClaimWithLinks, ReviewQueue, StoreError};
use crate::rank::sort_desc;
use crate::store::Database;

verus! {

/// Seconds per day, for the staleness window.
pub const DAY_SECONDS: i64 = 86_400;

/// Whether a link touches the claim `id` at either endpoint.
pub open spec fn touches(l: ClaimLink, id: i64) -> bool {
    l.source_claim_id == id || l.target_claim_id == id
}

/// How many links in `links` touch the claim `id` (either direction).
pub open spec fn count_links(links: Seq<ClaimLink>, id: i64) -> int
    decreases links.len(),
{
    if links.len() == 0 {
        0
    } else {
        count_links(links.drop_last(), id) + if touches(links.last(), id) {
            1int
        } else {
            0int
        }
    }
}

/// Field-wise agreement of two claim rows, text compared by view.
pub open spec fn claim_like(a: Claim, b: Claim) -> bool {
    &&& a.id == b.id
    &&& a.text@ == b.text@
    &&& a.video_id@ == b.video_id@
    &&& a.timestamp == b.timestamp
    &&& a.source_quote@ == b.source_quote@
    &&& a.category == b.category
    &&& a.confidence == b.confidence
    &&& a.created_at == b.created_at
}

/// The exact content of one claim row.
pub open spec fn claim_row(
    c: Claim,
    id: i64,
    text: Seq<char>,
    video_id: Seq<char>,
    timestamp: Option<i64>,
    source_quote: Seq<char>,
    category: ClaimCategory,
    confidence: Confidence,
    created_at: i64,
) -> bool {
    &&& c.id == id
    &&& c.text@ == text
    &&& c.video_id@ == video_id
    &&& c.timestamp == timestamp
    &&& c.source_quote@ == source_quote
    &&& c.category == category
    &&& c.confidence == confidence
    &&& c.created_at == created_at
}

/// The key of the newest-first claim listings: descending creation time,
/// ties keeping storage order.
pub open spec fn created_desc_key() -> spec_fn(Claim) -> int {
    |c: Claim| c.created_at as int
}

/// The oldest-first key, the secondary pass of the in-video order.
pub open spec fn created_asc_key() -> spec_fn(Claim) -> int {
    |c: Claim| -(c.created_at as int)
}

/// The primary in-video key: ascending timestamp, untimed claims last.
pub open spec fn timestamp_asc_key() -> spec_fn(Claim) -> int {
    |c: Claim|
        match c.timestamp {
            Some(t) => -(t as int),
            None => -0x8000_0000_0000_0000_0000,
        }
}

/// The triage key: ascending last access, a never-accessed claim ordered
/// by its creation time instead.
pub open spec fn stale_order_key(db: Database) -> spec_fn(Claim) -> int {
    |c: Claim|
        if db.has_access(c.id) {
            -(db.access_time_of(c.id) as int)
        } else {
            -(c.created_at as int)
        }
}

/// Claims by descending creation time, ties keeping storage order.
pub open spec fn newest_first(s: Seq<Claim>) -> Seq<Claim> {
    sort_desc(s, created_desc_key())
}

/// A video's claims by ascending timestamp with untimed claims last, then
/// by ascending creation time.
pub open spec fn video_claim_order(s: Seq<Claim>) -> Seq<Claim> {
    sort_desc(sort_desc(s, created_asc_key()), timestamp_asc_key())
}

/// Claims stalest first: by ascending last access, never-accessed claims
/// by their creation time.
pub open spec fn stale_order(db: Database, s: Seq<Claim>) -> Seq<Claim> {
    sort_desc(s, stale_order_key(db))
}

/// Copies of the rows of `kept`, reordered as the stable descending sort
/// of the corresponding `base` rows under `key` orders them; `keys`
/// carries each row's key value.
#[verifier::loop_isolation(false)]
fn rank_claims(
    kept: &Vec<Claim>,
    keys: &Vec<i128>,
    Ghost(base): Ghost<Seq<Claim>>,
    Ghost(key): Ghost<spec_fn(Claim) -> int>,
) -> (r: Vec<Claim>)
    requires
        kept@.len() == base.len(),
        keys@.len() == base.len(),
        forall|i: int| 0 <= i < base.len() ==> claim_like(#[trigger] kept@[i], base[i]),
        forall|i: int| 0 <= i < base.len() ==> (#[trigger] keys@[i]) as int == key(base[i]),
    ensures
        r@.len() == base.len(),
        forall|i: int|
            0 <= i < base.len() ==> claim_like(#[trigger] r@[i], sort_desc(base, key)[i]),
{
    let n = kept.len();
    let mut pairs: Vec<(usize, i128)> = Vec::new();
    for j in 0..n
        invariant
            pairs@.len() == j,
            forall|x: int|
                0 <= x < j ==> (#[trigger] pairs@[x]).0 == x && pairs@[x].1 == keys@[x],
    {
        pairs.push((j, keys[j]));
    }
    let ranked = crate::rank::sort_wide_desc(&pairs);
    proof {
        let rel = |a: (usize, i128), b: Claim|
            {
                &&& 0 <= a.0 < kept@.len()
                &&& claim_like(kept@[a.0 as int], b)
                &&& a.1 as int == key(b)
            };
        assert forall|x: int| 0 <= x < pairs@.len() implies rel(#[trigger] pairs@[x], base[x])
            && crate::rank::pair_wide_key()(pairs@[x]) == key(base[x]) by {
            assert(pairs@[x].0 == x && pairs@[x].1 == keys@[x]);
        }
        crate::rank::lemma_sort_desc_parallel(
            pairs@,
            base,
            crate::rank::pair_wide_key(),
            key,
            rel,
        );
    }
    let total = ranked.len();
    let mut r: Vec<Claim> = Vec::new();
    for k in 0..total
        invariant
            total == ranked@.len(),
            ranked@.len() == base.len(),
            forall|x: int|
                0 <= x < ranked@.len() ==> 0 <= (#[trigger] ranked@[x]).0 < kept@.len()
                    && claim_like(kept@[ranked@[x].0 as int], sort_desc(base, key)[x]),
            r@.len() == k,
            forall|x: int| 0 <= x < k ==> claim_like(#[trigger] r@[x], sort_desc(base, key)[x]),
    {
        let idx = ranked[k].0;
        r.push(clone_claim_row(&kept[idx]));
    }
    r
}

impl Database {
    pub open spec fn claim_index_of(self, id: i64) -> int {
        choose|i: int| 0 <= i < self.claims@.len() && #[trigger] self.claims@[i].id == id
    }

    /// How many stored links touch the claim `id`.
    pub open spec fn link_count_of(self, id: i64) -> int {
        count_links(self.links@, id)
    }

    /// An orphan claim: fewer than two link edges touch it.
    pub open spec fn is_orphan(self, id: i64) -> bool {
        self.link_count_of(id) < 2
    }

    pub open spec fn has_access(self, id: i64) -> bool {
        exists|i: int| 0 <= i < self.access@.len() && #[trigger] self.access@[i].claim_id == id
    }

    pub open spec fn access_index_of(self, id: i64) -> int {
        choose|i: int| 0 <= i < self.access@.len() && #[trigger] self.access@[i].claim_id == id
    }

    pub open spec fn access_time_of(self, id: i64) -> i64 {
        self.access@[self.access_index_of(id)].last_accessed
    }

    /// A stale claim for the window `days` at instant `now`: never accessed,
    /// or last accessed before `now - days` days.
    pub open spec fn is_stale(self, id: i64, days: i64, now: i64) -> bool {
        ||| !self.has_access(id)
        ||| (self.access_time_of(id) as int) < now - days * DAY_SECONDS
    }

    /// Records a new claim with the next free id; the claim is appended to
    /// the store and also returned.
    #[verifier::loop_isolation(false)]
    pub fn create_claim(
        &mut self,
        text: &str,
        video_id: &str,
        timestamp: Option<i64>,
        source_quote: &str,
        category: ClaimCategory,
        confidence: Confidence,
        now: i64,
    ) -> (r: Claim)
        requires
            old(self).wf(),
            old(self).next_claim_id < i64::MAX,
        ensures
            final(self).wf(),
            claim_row(
                r,
                old(self).next_claim_id,
                text@,
                video_id@,
                timestamp,
                source_quote@,
                category,
                confidence,
                now,
            ),
            final(self).claims@.len() == old(self).claims@.len() + 1,
            claim_like(final(self).claims@[old(self).claims@.len() as int], r),
            forall|i: int|
                0 <= i < old(self).claims@.len() ==> final(self).claims@[i] == old(
                    self,
                ).claims@[i],
            final(self).next_claim_id == old(self).next_claim_id + 1,
            final(self).next_link_id == old(self).next_link_id,
            final(self).next_embedding_id == old(self).next_embedding_id,
            final(self).next_chunk_id == old(self).next_chunk_id,
            final(self).has_claim(old(self).next_claim_id),
            final(self).videos@ == old(self).videos@,
            final(self).transcripts@ == old(self).transcripts@,
            final(self).search_index@ == old(self).search_index@,
            final(self).chunks@ == old(self).chunks@,
            final(self).links@ == old(self).links@,
            final(self).access@ == old(self).access@,
            final(self).embeddings@ == old(self).embeddings@,
    {
        let c = Claim {
            id: self.next_claim_id,
            text: text.to_owned(),
            video_id: video_id.to_owned(),
            timestamp,
            source_quote: source_quote.to_owned(),
            category,
            confidence,
            created_at: now,
        };
        let r = Claim {
            id: self.next_claim_id,
            text: text.to_owned(),
            video_id: video_id.to_owned(),
            timestamp,
            source_quote: source_quote.to_owned(),
            category,
            confidence,
            created_at: now,
        };
        self.next_claim_id = self.next_claim_id + 1;
        self.claims.push(c);
        proof {
            let n0 = old(self).claims@.len() as int;
            assert(self.has_claim(old(self).next_claim_id)) by {
                assert(self.claims@[n0].id == old(self).next_claim_id);
            }
            assert(self.wf()) by {
                assert(forall|i: int|
                    0 <= i < self.links@.len() ==> self.has_claim(
                        #[trigger] self.links@[i].source_claim_id,
                    ) && self.has_claim(self.links@[i].target_claim_id)) by {
                    assert(forall|id: i64| old(self).has_claim(id) ==> self.has_claim(id)) by {
                        assert forall|id: i64| old(self).has_claim(id) implies self.has_claim(
                            id,
                        ) by {
                            let w = choose|w: int|
                                0 <= w < old(self).claims@.len() && #[trigger] old(
                                    self,
                                ).claims@[w].id == id;
                            assert(self.claims@[w].id == id);
                        }
                    }
                }
            }
        }
        r
    }

    /// The stored claim with this id, if any.
    #[verifier::loop_isolation(false)]
    pub fn get_claim(&self, id: i64) -> (r: Option<Claim>)
        requires
            self.wf(),
        ensures
            r is Some <==> self.has_claim(id),
            r is Some ==> exists|i: int|
                0 <= i < self.claims@.len() && (#[trigger] self.claims@[i]).id == id && claim_like(
                    r->0,
                    self.claims@[i],
                ),
    {
        let n = self.claims.len();
        let mut j: usize = 0;
        while j < n
            invariant
                j <= n,
                forall|l: int| 0 <= l < j ==> #[trigger] self.claims@[l].id != id,
            decreases n - j,
        {
            if self.claims[j].id == id {
                return Some(clone_claim_row(&self.claims[j]));
            }
            j = j + 1;
        }
        None
    }

    /// Every claim recorded for this video, by ascending timestamp with
    /// untimed claims last, then by ascending creation time.
    #[verifier::loop_isolation(false)]
    pub fn list_claims_for_video(&self, video_id: &str) -> (r: Vec<Claim>)
        ensures
            ({
                let kept = self.claims@.filter(|c: Claim| c.video_id@ == video_id@);
                &&& r@.len() == kept.len()
                &&& forall|i: int|
                    0 <= i < kept.len() ==> claim_like(
                        #[trigger] r@[i],
                        video_claim_order(kept)[i],
                    )
            }),
    {
        let ghost pred = |c: Claim| c.video_id@ == video_id@;
        let n = self.claims.len();
        let mut kept: Vec<Claim> = Vec::new();
        let mut keys: Vec<i128> = Vec::new();
        for j in 0..n
            invariant
                kept@.len() == self.claims@.subrange(0, j as int).filter(pred).len(),
                keys@.len() == kept@.len(),
                forall|i: int|
                    0 <= i < kept@.len() ==> claim_like(
                        #[trigger] kept@[i],
                        self.claims@.subrange(0, j as int).filter(pred)[i],
                    ),
                forall|i: int|
                    0 <= i < kept@.len() ==> (#[trigger] keys@[i]) as int == created_asc_key()(
                        self.claims@.subrange(0, j as int).filter(pred)[i],
                    ),
        {
            proof {
                reveal(Seq::filter);
                let s1 = self.claims@.subrange(0, j + 1);
                assert(s1.drop_last() =~= self.claims@.subrange(0, j as int));
                assert(s1.last() == self.claims@[j as int]);
            }
            if crate::store::str_eq_string(video_id, &self.claims[j].video_id) {
                kept.push(clone_claim_row(&self.claims[j]));
                keys.push(-(self.claims[j].created_at as i128));
            }
        }
        proof {
            assert(self.claims@.subrange(0, n as int) =~= self.claims@);
        }
        let ghost base1 = self.claims@.filter(pred);
        let ghost base2 = sort_desc(base1, created_asc_key());
        proof {
            crate::rank::lemma_sort_desc_sorted(base1, created_asc_key());
        }
        let pass1 = rank_claims(&kept, &keys, Ghost(base1), Ghost(created_asc_key()));
        let m = pass1.len();
        let mut keys2: Vec<i128> = Vec::new();
        for j in 0..m
            invariant
                m == pass1@.len(),
                pass1@.len() == base2.len(),
                forall|i: int|
                    0 <= i < base2.len() ==> claim_like(#[trigger] pass1@[i], base2[i]),
                keys2@.len() == j,
                forall|i: int|
                    0 <= i < j ==> (#[trigger] keys2@[i]) as int == timestamp_asc_key()(base2[i]),
        {
            let k: i128 = match pass1[j].timestamp {
                Some(t) => -(t as i128),
                None => -0x8000_0000_0000_0000_0000,
            };
            proof {
                assert(pass1@[j as int].timestamp == base2[j as int].timestamp);
            }
            keys2.push(k);
        }
        rank_claims(&pass1, &keys2, Ghost(base2), Ghost(timestamp_asc_key()))
    }

    /// Every claim of one category, newest first.
    #[verifier::loop_isolation(false)]
    pub fn list_claims_by_category(&self, category: ClaimCategory) -> (r: Vec<Claim>)
        ensures
            ({
                let kept = self.claims@.filter(|c: Claim| c.category == category);
                &&& r@.len() == kept.len()
                &&& forall|i: int|
                    0 <= i < kept.len() ==> claim_like(#[trigger] r@[i], newest_first(kept)[i])
            }),
    {
        let ghost pred = |c: Claim| c.category == category;
        let n = self.claims.len();
        let mut kept: Vec<Claim> = Vec::new();
        let mut keys: Vec<i128> = Vec::new();
        for j in 0..n
            invariant
                kept@.len() == self.claims@.subrange(0, j as int).filter(pred).len(),
                keys@.len() == kept@.len(),
                forall|i: int|
                    0 <= i < kept@.len() ==> claim_like(
                        #[trigger] kept@[i],
                        self.claims@.subrange(0, j as int).filter(pred)[i],
                    ),
                forall|i: int|
                    0 <= i < kept@.len() ==> (#[trigger] keys@[i]) as int == created_desc_key()(
                        self.claims@.subrange(0, j as int).filter(pred)[i],
                    ),
        {
            proof {
                reveal(Seq::filter);
                let s1 = self.claims@.subrange(0, j + 1);
                assert(s1.drop_last() =~= self.claims@.subrange(0, j as int));
                assert(s1.last() == self.claims@[j as int]);
            }
            if self.claims[j].category == category {
                kept.push(clone_claim_row(&self.claims[j]));
                keys.push(self.claims[j].created_at as i128);
            }
        }
        proof {
            assert(self.claims@.subrange(0, n as int) =~= self.claims@);
        }
        rank_claims(
            &kept,
            &keys,
            Ghost(self.claims@.filter(pred)),
            Ghost(created_desc_key()),
        )
    }

    /// Every stored claim, newest first.
    #[verifier::loop_isolation(false)]
    pub fn list_all_claims(&self) -> (r: Vec<Claim>)
        ensures
            r@.len() == self.claims@.len(),
            forall|i: int|
                0 <= i < r@.len() ==> claim_like(#[trigger] r@[i], newest_first(self.claims@)[i]),
    {
        let n = self.claims.len();
        let mut kept: Vec<Claim> = Vec::new();
        let mut keys: Vec<i128> = Vec::new();
        for j in 0..n
            invariant
                kept@.len() == j,
                keys@.len() == j,
                forall|i: int| 0 <= i < j ==> claim_like(#[trigger] kept@[i], self.claims@[i]),
                forall|i: int|
                    0 <= i < j ==> (#[trigger] keys@[i]) as int == created_desc_key()(
                        self.claims@[i],
                    ),
        {
            kept.push(clone_claim_row(&self.claims[j]));
            keys.push(self.claims[j].created_at as i128);
        }
        rank_claims(&kept, &keys, Ghost(self.claims@), Ghost(created_desc_key()))
    }
}

impl Database {
    pub open spec fn has_link(self, source: i64, target: i64, link_type: LinkType) -> bool {
        exists|i: int|
            0 <= i < self.links@.len() && #[trigger] self.links@[i].source_claim_id == source
                && self.links@[i].target_claim_id == target && self.links@[i].link_type
                == link_type
    }

    /// Edits a claim's text, category or confidence.  Passing no change at
    /// all, or an id that does not exist, reports `false` and leaves the
    /// store untouched.
    #[verifier::loop_isolation(false)]
    pub fn update_claim(
        &mut self,
        id: i64,
        text: Option<&str>,
        category: Option<ClaimCategory>,
        confidence: Option<Confidence>,
    ) -> (r: bool)
        requires
            old(self).wf(),
        ensures
            final(self).wf(),
            r == ((text is Some || category is Some || confidence is Some) && old(self).has_claim(
                id,
            )),
            !r ==> *final(self) == *old(self),
            r ==> exists|i: int|
                #![trigger old(self).claims@[i]]
                0 <= i < old(self).claims@.len() && old(self).claims@[i].id == id && final(self).claims@.len() == old(self).claims@.len() && claim_row(
                    final(self).claims@[i],
                    id,
                    match text {
                        Some(t) => t@,
                        None => old(self).claims@[i].text@,
                    },
                    old(self).claims@[i].video_id@,
                    old(self).claims@[i].timestamp,
                    old(self).claims@[i].source_quote@,
                    match category {
                        Some(c) => c,
                        None => old(self).claims@[i].category,
                    },
                    match confidence {
                        Some(c) => c,
                        None => old(self).claims@[i].confidence,
                    },
                    old(self).claims@[i].created_at,
                ) && (forall|j: int|
                    0 <= j < old(self).claims@.len() && j != i ==> final(self).claims@[j] == old(
                        self,
                    ).claims@[j]),
            final(self).videos@ == old(self).videos@,
            final(self).transcripts@ == old(self).transcripts@,
            final(self).search_index@ == old(self).search_index@,
            final(self).chunks@ == old(self).chunks@,
            final(self).links@ == old(self).links@,
            final(self).access@ == old(self).access@,
            final(self).embeddings@ == old(self).embeddings@,
            final(self).next_claim_id == old(self).next_claim_id,
            final(self).next_link_id == old(self).next_link_id,
            final(self).next_embedding_id == old(self).next_embedding_id,
            final(self).next_chunk_id == old(self).next_chunk_id,
    {
        if text.is_none() && category.is_none() && confidence.is_none() {
            return false;
        }
        let n = self.claims.len();
        let mut j: usize = 0;
        while j < n
            invariant
                j <= n,
                *self == *old(self),
                forall|l: int| 0 <= l < j ==> #[trigger] self.claims@[l].id != id,
            decreases n - j,
        {
            if self.claims[j].id == id {
                let row = &self.claims[j];
                let updated = Claim {
                    id: row.id,
                    text: match text {
                        Some(t) => t.to_owned(),
                        None => row.text.clone(),
                    },
                    video_id: row.video_id.clone(),
                    timestamp: row.timestamp,
                    source_quote: row.source_quote.clone(),
                    category: match category {
                        Some(c) => c,
                        None => row.category,
                    },
                    confidence: match confidence {
                        Some(c) => c,
                        None => row.confidence,
                    },
                    created_at: row.created_at,
                };
                self.claims.set(j, updated);
                proof {
                    assert(self.wf()) by {
                        assert forall|x: i64| old(self).has_claim(x) implies self.has_claim(
                            x,
                        ) by {
                            let w = choose|w: int|
                                0 <= w < old(self).claims@.len() && #[trigger] old(
                                    self,
                                ).claims@[w].id == x;
                            assert(self.claims@[w].id == x);
                        }
                        assert(forall|i: int|
                            0 <= i < self.links@.len() ==> self.has_claim(
                                #[trigger] self.links@[i].source_claim_id,
                            ) && self.has_claim(self.links@[i].target_claim_id));
                    }
                }
                return true;
            }
            j = j + 1;
        }
        false
    }

    /// Deletes a claim and cascades: every link touching it at either
    /// endpoint and its access record disappear with it.  Reports whether
    /// the claim existed.
    #[verifier::loop_isolation(false)]
    pub fn delete_claim(&mut self, id: i64) -> (r: bool)
        requires
            old(self).wf(),
        ensures
            final(self).wf(),
            r == old(self).has_claim(id),
            !final(self).has_claim(id),
            ({
                let kept = old(self).claims@.filter(|c: Claim| c.id != id);
                &&& final(self).claims@.len() == kept.len()
                &&& forall|i: int|
                    0 <= i < kept.len() ==> claim_like(#[trigger] final(self).claims@[i], kept[i])
            }),
            final(self).links@ == old(self).links@.filter(|l: ClaimLink| !touches(l, id)),
            final(self).access@ == old(self).access@.filter(|a: ClaimAccess| a.claim_id != id),
            final(self).videos@ == old(self).videos@,
            final(self).transcripts@ == old(self).transcripts@,
            final(self).search_index@ == old(self).search_index@,
            final(self).chunks@ == old(self).chunks@,
            final(self).embeddings@ == old(self).embeddings@,
            final(self).next_claim_id == old(self).next_claim_id,
            final(self).next_link_id == old(self).next_link_id,
            final(self).next_embedding_id == old(self).next_embedding_id,
            final(self).next_chunk_id == old(self).next_chunk_id,
    {
        let ghost ckeep = |c: Claim| c.id != id;
        let ghost lkeep = |l: ClaimLink| !touches(l, id);
        let ghost akeep = |a: ClaimAccess| a.claim_id != id;
        let n = self.claims.len();
        let mut existed = false;
        let mut kept_claims: Vec<Claim> = Vec::new();
        for j in 0..n
            invariant
                self.claims@ == old(self).claims@,
                kept_claims@.len() == old(self).claims@.subrange(0, j as int).filter(ckeep).len(),
                forall|x: int|
                    0 <= x < kept_claims@.len() ==> claim_like(
                        #[trigger] kept_claims@[x],
                        old(self).claims@.subrange(0, j as int).filter(ckeep)[x],
                    ),
                existed == exists|x: int|
                    0 <= x < j && #[trigger] old(self).claims@[x].id == id,
        {
            proof {
                reveal(Seq::filter);
                let s1 = old(self).claims@.subrange(0, j + 1);
                assert(s1.drop_last() =~= old(self).claims@.subrange(0, j as int));
                assert(s1.last() == old(self).claims@[j as int]);
            }
            if self.claims[j].id == id {
                existed = true;
                proof {
                    assert(old(self).claims@[j as int].id == id);
                }
            } else {
                kept_claims.push(clone_claim_row(&self.claims[j]));
            }
        }
        let m = self.links.len();
        let mut kept_links: Vec<ClaimLink> = Vec::new();
        for j in 0..m
            invariant
                self.links@ == old(self).links@,
                kept_links@ == old(self).links@.subrange(0, j as int).filter(lkeep),
        {
            proof {
                reveal(Seq::filter);
                let s1 = old(self).links@.subrange(0, j + 1);
                assert(s1.drop_last() =~= old(self).links@.subrange(0, j as int));
                assert(s1.last() == old(self).links@[j as int]);
            }
            let l = self.links[j];
            if !(l.source_claim_id == id || l.target_claim_id == id) {
                kept_links.push(l);
            }
        }
        let a = self.access.len();
        let mut kept_access: Vec<ClaimAccess> = Vec::new();
        for j in 0..a
            invariant
                self.access@ == old(self).access@,
                kept_access@ == old(self).access@.subrange(0, j as int).filter(akeep),
        {
            proof {
                reveal(Seq::filter);
                let s1 = old(self).access@.subrange(0, j + 1);
                assert(s1.drop_last() =~= old(self).access@.subrange(0, j as int));
                assert(s1.last() == old(self).access@[j as int]);
            }
            let row = self.access[j];
            if row.claim_id != id {
                kept_access.push(row);
            }
        }
        proof {
            assert(old(self).claims@.subrange(0, n as int) =~= old(self).claims@);
            assert(old(self).links@.subrange(0, m as int) =~= old(self).links@);
            assert(old(self).access@.subrange(0, a as int) =~= old(self).access@);
        }
        self.claims = kept_claims;
        self.links = kept_links;
        self.access = kept_access;
        proof {
            lemma_delete_claim_wf(*old(self), *self, id);
            assert(!self.has_claim(id)) by {
                if self.has_claim(id) {
                    let w = choose|w: int|
                        0 <= w < self.claims@.len() && #[trigger] self.claims@[w].id == id;
                    let f = old(self).claims@.filter(ckeep);
                    assert(claim_like(self.claims@[w], f[w]));
                    assert(ckeep(f[w]));
                }
            }
        }
        existed
    }

    /// Adds a directed typed edge between two existing, distinct claims.
    /// Linking a missing claim reports `NotFound`; a self-loop is rejected
    /// as `InvalidInput`; re-linking an already linked `(source, target,
    /// type)` triple is a no-op that returns the stored edge.
    #[verifier::loop_isolation(false)]
    pub fn create_claim_link(
        &mut self,
        source_claim_id: i64,
        target_claim_id: i64,
        link_type: LinkType,
        now: i64,
    ) -> (r: Result<ClaimLink, StoreError>)
        requires
            old(self).wf(),
            old(self).next_link_id < i64::MAX,
        ensures
            final(self).wf(),
            (!old(self).has_claim(source_claim_id) || !old(self).has_claim(target_claim_id)) ==> r
                == Err::<ClaimLink, StoreError>(StoreError::NotFound) && *final(self) == *old(
                self,
            ),
            (old(self).has_claim(source_claim_id) && old(self).has_claim(target_claim_id)
                && source_claim_id == target_claim_id) ==> r == Err::<ClaimLink, StoreError>(
                StoreError::InvalidInput,
            ) && *final(self) == *old(self),
            (old(self).has_claim(source_claim_id) && old(self).has_claim(target_claim_id)
                && source_claim_id != target_claim_id) ==> r is Ok && {
                let l = r->Ok_0;
                &&& l.source_claim_id == source_claim_id
                &&& l.target_claim_id == target_claim_id
                &&& l.link_type == link_type
                &&& if old(self).has_link(source_claim_id, target_claim_id, link_type) {
                    *final(self) == *old(self) && old(self).links@.contains(l)
                } else {
                    l.id == old(self).next_link_id && l.created_at == now && final(self).links@
                        == old(self).links@.push(l) && final(self).next_link_id == old(
                        self,
                    ).next_link_id + 1 && final(self).claims@ == old(self).claims@ && final(self).access@ == old(self).access@ && final(self).videos@ == old(self).videos@
                        && final(self).transcripts@ == old(self).transcripts@ && final(self).search_index@ == old(self).search_index@ && final(self).chunks@ == old(
                        self,
                    ).chunks@ && final(self).embeddings@ == old(self).embeddings@ && final(self).next_claim_id == old(self).next_claim_id && final(self).next_embedding_id == old(self).next_embedding_id && final(self).next_chunk_id == old(self).next_chunk_id
                }
            },
    {
        let mut source_found = false;
        let mut target_found = false;
        let n = self.claims.len();
        for j in 0..n
            invariant
                source_found == exists|x: int|
                    0 <= x < j && #[trigger] self.claims@[x].id == source_claim_id,
                target_found == exists|x: int|
                    0 <= x < j && #[trigger] self.claims@[x].id == target_claim_id,
        {
            if self.claims[j].id == source_claim_id {
                source_found = true;
            }
            if self.claims[j].id == target_claim_id {
                target_found = true;
            }
        }
        if !source_found || !target_found {
            return Err(StoreError::NotFound);
        }
        if source_claim_id == target_claim_id {
            return Err(StoreError::InvalidInput);
        }
        let m = self.links.len();
        let mut j: usize = 0;
        while j < m
            invariant
                j <= m,
                forall|l: int|
                    0 <= l < j ==> !(#[trigger] self.links@[l].source_claim_id == source_claim_id
                        && self.links@[l].target_claim_id == target_claim_id
                        && self.links@[l].link_type == link_type),
            decreases m - j,
        {
            let l = self.links[j];
            if l.source_claim_id == source_claim_id && l.target_claim_id == target_claim_id
                && l.link_type == link_type {
                return Ok(l);
            }
            j = j + 1;
        }
        let l = ClaimLink {
            id: self.next_link_id,
            source_claim_id,
            target_claim_id,
            link_type,
            created_at: now,
        };
        self.next_link_id = self.next_link_id + 1;
        self.links.push(l);
        proof {
            assert(self.wf()) by {
                assert(forall|i: int|
                    0 <= i < self.links@.len() ==> self.has_claim(
                        #[trigger] self.links@[i].source_claim_id,
                    ) && self.has_claim(self.links@[i].target_claim_id));
            }
        }
        Ok(l)
    }

    /// Removes every edge from `source` to `target`, of any type; reports
    /// whether anything was removed.
    #[verifier::loop_isolation(false)]
    pub fn delete_claim_link(&mut self, source_claim_id: i64, target_claim_id: i64) -> (r: bool)
        requires
            old(self).wf(),
        ensures
            final(self).wf(),
            final(self).links@ == old(self).links@.filter(
                |l: ClaimLink| !(l.source_claim_id == source_claim_id && l.target_claim_id
                    == target_claim_id),
            ),
            r == (final(self).links@.len() != old(self).links@.len()),
            final(self).claims@ == old(self).claims@,
            final(self).access@ == old(self).access@,
            final(self).videos@ == old(self).videos@,
            final(self).transcripts@ == old(self).transcripts@,
            final(self).search_index@ == old(self).search_index@,
            final(self).chunks@ == old(self).chunks@,
            final(self).embeddings@ == old(self).embeddings@,
            final(self).next_link_id == old(self).next_link_id,
            final(self).next_claim_id == old(self).next_claim_id,
            final(self).next_embedding_id == old(self).next_embedding_id,
            final(self).next_chunk_id == old(self).next_chunk_id,
    {
        let ghost lkeep = |l: ClaimLink| !(l.source_claim_id == source_claim_id
            && l.target_claim_id == target_claim_id);
        let m = self.links.len();
        let mut kept: Vec<ClaimLink> = Vec::new();
        for j in 0..m
            invariant
                self.links@ == old(self).links@,
                kept@ == old(self).links@.subrange(0, j as int).filter(lkeep),
        {
            proof {
                reveal(Seq::filter);
                let s1 = old(self).links@.subrange(0, j + 1);
                assert(s1.drop_last() =~= old(self).links@.subrange(0, j as int));
                assert(s1.last() == old(self).links@[j as int]);
            }
            let l = self.links[j];
            if !(l.source_claim_id == source_claim_id && l.target_claim_id == target_claim_id) {
                kept.push(l);
            }
        }
        proof {
            assert(old(self).links@.subrange(0, m as int) =~= old(self).links@);
        }
        let removed = kept.len() != m;
        self.links = kept;
        proof {
            lemma_shrink_links_wf(*old(self), *self, lkeep);
        }
        removed
    }
}

/// Dropping links by a filter keeps the store well-formed, as long as
/// nothing else changed.
proof fn lemma_shrink_links_wf(a: Database, b: Database, pred: spec_fn(ClaimLink) -> bool)
    requires
        a.wf(),
        b.links@ == a.links@.filter(pred),
        b.claims@ == a.claims@,
        b.access@ == a.access@,
        b.videos@ == a.videos@,
        b.transcripts@ == a.transcripts@,
        b.search_index@ == a.search_index@,
        b.chunks@ == a.chunks@,
        b.embeddings@ == a.embeddings@,
        b.next_claim_id == a.next_claim_id,
        b.next_link_id == a.next_link_id,
        b.next_embedding_id == a.next_embedding_id,
        b.next_chunk_id == a.next_chunk_id,
    ensures
        b.wf(),
{
    lemma_filter_link_rows(a.links@, pred);
    let f = a.links@.filter(pred);
    assert forall|i: int| 0 <= i < b.links@.len() implies b.has_claim(
        #[trigger] b.links@[i].source_claim_id,
    ) && b.has_claim(b.links@[i].target_claim_id) && b.links@[i].source_claim_id
        != b.links@[i].target_claim_id && b.links@[i].id < b.next_link_id by {
        assert(a.links@.contains(f[i]));
        let k = choose|k: int| 0 <= k < a.links@.len() && a.links@[k] == f[i];
        assert(a.has_claim(a.links@[k].source_claim_id));
        assert(a.has_claim(a.links@[k].target_claim_id));
        assert forall|x: i64| a.has_claim(x) implies b.has_claim(x) by {
            let w = choose|w: int| 0 <= w < a.claims@.len() && #[trigger] a.claims@[w].id == x;
            assert(b.claims@[w].id == x);
        }
    }
}

/// A filtered link collection keeps pairwise-distinct triples, and each
/// kept row is an original row.
proof fn lemma_filter_link_rows(s: Seq<ClaimLink>, pred: spec_fn(ClaimLink) -> bool)
    requires
        forall|i: int, j: int|
            #![trigger s[i], s[j]]
            0 <= i < j < s.len() ==> !(s[i].source_claim_id == s[j].source_claim_id
                && s[i].target_claim_id == s[j].target_claim_id && s[i].link_type
                == s[j].link_type),
    ensures
        forall|i: int, j: int|
            #![trigger s.filter(pred)[i], s.filter(pred)[j]]
            0 <= i < j < s.filter(pred).len() ==> !(s.filter(pred)[i].source_claim_id == s.filter(
                pred,
            )[j].source_claim_id && s.filter(pred)[i].target_claim_id == s.filter(
                pred,
            )[j].target_claim_id && s.filter(pred)[i].link_type == s.filter(pred)[j].link_type),
        forall|i: int| 0 <= i < s.filter(pred).len() ==> s.contains(#[trigger] s.filter(pred)[i]),
    decreases s.len(),
{
    reveal(Seq::filter);
    if s.len() > 0 {
        let s0 = s.drop_last();
        let f = s.filter(pred);
        let f0 = s0.filter(pred);
        lemma_filter_link_rows(s0, pred);
        assert forall|i: int| 0 <= i < f0.len() implies s.contains(f0[i]) by {
            assert(s0.contains(f0[i]));
            let k = choose|k: int| 0 <= k < s0.len() && s0[k] == f0[i];
            assert(s[k] == f0[i]);
        }
        if pred(s.last()) {
            assert(f == f0.push(s.last()));
            assert(s.contains(s.last())) by {
                assert(s[s.len() - 1] == s.last());
            }
            assert forall|i: int, j: int|
                #![trigger f[i], f[j]]
                0 <= i < j < f.len() implies !(f[i].source_claim_id == f[j].source_claim_id
                && f[i].target_claim_id == f[j].target_claim_id && f[i].link_type
                == f[j].link_type) by {
                if j < f0.len() {
                    assert(f[i] == f0[i] && f[j] == f0[j]);
                } else {
                    assert(f[j] == s.last());
                    assert(f[i] == f0[i]);
                    assert(s0.contains(f0[i]));
                    let k = choose|k: int| 0 <= k < s0.len() && s0[k] == f0[i];
                    assert(s[k] == f0[i] && k < s.len() - 1);
                    assert(!(s[k].source_claim_id == s[s.len() - 1].source_claim_id
                        && s[k].target_claim_id == s[s.len() - 1].target_claim_id
                        && s[k].link_type == s[s.len() - 1].link_type));
                }
            }
        } else {
            assert(f == f0);
        }
    }
}

/// A filtered claim collection keeps pairwise-distinct ids, and each kept
/// row is an original row.
proof fn lemma_filter_claim_rows(s: Seq<Claim>, pred: spec_fn(Claim) -> bool)
    requires
        forall|i: int, j: int|
            #![trigger s[i], s[j]]
            0 <= i < j < s.len() ==> s[i].id != s[j].id,
    ensures
        forall|i: int, j: int|
            #![trigger s.filter(pred)[i], s.filter(pred)[j]]
            0 <= i < j < s.filter(pred).len() ==> s.filter(pred)[i].id != s.filter(pred)[j].id,
        forall|i: int|
            0 <= i < s.filter(pred).len() ==> pred(#[trigger] s.filter(pred)[i]) && s.contains(
                s.filter(pred)[i],
            ),
    decreases s.len(),
{
    reveal(Seq::filter);
    if s.len() > 0 {
        let s0 = s.drop_last();
        let f = s.filter(pred);
        let f0 = s0.filter(pred);
        lemma_filter_claim_rows(s0, pred);
        assert forall|i: int| 0 <= i < f0.len() implies s.contains(f0[i]) by {
            assert(s0.contains(f0[i]));
            let k = choose|k: int| 0 <= k < s0.len() && s0[k] == f0[i];
            assert(s[k] == f0[i]);
        }
        if pred(s.last()) {
            assert(f == f0.push(s.last()));
            assert(s.contains(s.last())) by {
                assert(s[s.len() - 1] == s.last());
            }
            assert forall|i: int, j: int|
                #![trigger f[i], f[j]]
                0 <= i < j < f.len() implies f[i].id != f[j].id by {
                if j < f0.len() {
                    assert(f[i] == f0[i] && f[j] == f0[j]);
                } else {
                    assert(f[j] == s.last());
                    assert(f[i] == f0[i]);
                    assert(s0.contains(f0[i]));
                    let k = choose|k: int| 0 <= k < s0.len() && s0[k] == f0[i];
                    assert(s[k] == f0[i] && k < s.len() - 1);
                    assert(s[k].id != s[s.len() - 1].id);
                }
            }
        } else {
            assert(f == f0);
        }
    }
}

/// Deleting one claim together with its links and access record keeps the
/// store well-formed.
proof fn lemma_delete_claim_wf(a: Database, b: Database, id: i64)
    requires
        a.wf(),
        b.claims@.len() == a.claims@.filter(|c: Claim| c.id != id).len(),
        forall|i: int|
            0 <= i < b.claims@.len() ==> claim_like(
                #[trigger] b.claims@[i],
                a.claims@.filter(|c: Claim| c.id != id)[i],
            ),
        b.links@ == a.links@.filter(|l: ClaimLink| !touches(l, id)),
        b.access@ == a.access@.filter(|x: ClaimAccess| x.claim_id != id),
        b.videos@ == a.videos@,
        b.transcripts@ == a.transcripts@,
        b.search_index@ == a.search_index@,
        b.chunks@ == a.chunks@,
        b.embeddings@ == a.embeddings@,
        b.next_claim_id == a.next_claim_id,
        b.next_link_id == a.next_link_id,
        b.next_embedding_id == a.next_embedding_id,
        b.next_chunk_id == a.next_chunk_id,
    ensures
        b.wf(),
{
    let ckeep = |c: Claim| c.id != id;
    let lkeep = |l: ClaimLink| !touches(l, id);
    let akeep = |x: ClaimAccess| x.claim_id != id;
    lemma_filter_claim_rows(a.claims@, ckeep);
    lemma_filter_link_rows(a.links@, lkeep);
    let cf = a.claims@.filter(ckeep);
    let lf = a.links@.filter(lkeep);
    let af = a.access@.filter(akeep);
    assert forall|i: int, j: int|
        #![trigger b.claims@[i], b.claims@[j]]
        0 <= i < j < b.claims@.len() implies b.claims@[i].id != b.claims@[j].id by {
        assert(b.claims@[i].id == cf[i].id && b.claims@[j].id == cf[j].id);
        assert(cf[i].id != cf[j].id);
    }
    assert forall|i: int| 0 <= i < b.claims@.len() implies #[trigger] b.claims@[i].id
        < b.next_claim_id by {
        assert(a.claims@.contains(cf[i]));
        let k = choose|k: int| 0 <= k < a.claims@.len() && a.claims@[k] == cf[i];
        assert(a.claims@[k].id < a.next_claim_id);
        assert(b.claims@[i].id == cf[i].id);
    }
    assert forall|i: int| 0 <= i < b.links@.len() implies b.has_claim(
        #[trigger] b.links@[i].source_claim_id,
    ) && b.has_claim(b.links@[i].target_claim_id) && b.links@[i].source_claim_id
        != b.links@[i].target_claim_id && b.links@[i].id < b.next_link_id by {
        assert(a.links@.contains(lf[i]));
        let k = choose|k: int| 0 <= k < a.links@.len() && a.links@[k] == lf[i];
        assert(a.has_claim(a.links@[k].source_claim_id));
        assert(a.has_claim(a.links@[k].target_claim_id));
        assert(lkeep(lf[i]));
        assert(lf[i].source_claim_id != id && lf[i].target_claim_id != id);
        assert forall|x: i64| a.has_claim(x) && x != id implies b.has_claim(x) by {
            let w = choose|w: int| 0 <= w < a.claims@.len() && #[trigger] a.claims@[w].id == x;
            assert(ckeep(a.claims@[w]));
            a.claims@.filter_lemma(ckeep);
            assert(cf.contains(a.claims@[w]));
            let p = choose|p: int| 0 <= p < cf.len() && cf[p] == a.claims@[w];
            assert(b.claims@[p].id == x);
        }
    }
    lemma_filter_access_unique(a.access@, akeep);
}

/// A filtered access collection keeps pairwise-distinct claim ids.
proof fn lemma_filter_access_unique(s: Seq<ClaimAccess>, pred: spec_fn(ClaimAccess) -> bool)
    requires
        forall|i: int, j: int|
            #![trigger s[i], s[j]]
            0 <= i < j < s.len() ==> s[i].claim_id != s[j].claim_id,
    ensures
        forall|i: int, j: int|
            #![trigger s.filter(pred)[i], s.filter(pred)[j]]
            0 <= i < j < s.filter(pred).len() ==> s.filter(pred)[i].claim_id != s.filter(
                pred,
            )[j].claim_id,
        forall|i: int| 0 <= i < s.filter(pred).len() ==> s.contains(#[trigger] s.filter(pred)[i]),
    decreases s.len(),
{
    reveal(Seq::filter);
    if s.len() > 0 {
        let s0 = s.drop_last();
        let f = s.filter(pred);
        let f0 = s0.filter(pred);
        lemma_filter_access_unique(s0, pred);
        assert forall|i: int| 0 <= i < f0.len() implies s.contains(f0[i]) by {
            assert(s0.contains(f0[i]));
            let k = choose|k: int| 0 <= k < s0.len() && s0[k] == f0[i];
            assert(s[k] == f0[i]);
        }
        if pred(s.last()) {
            assert(f == f0.push(s.last()));
            assert(s.contains(s.last())) by {
                assert(s[s.len() - 1] == s.last());
            }
            assert forall|i: int, j: int|
                #![trigger f[i], f[j]]
                0 <= i < j < f.len() implies f[i].claim_id != f[j].claim_id by {
                if j < f0.len() {
                    assert(f[i] == f0[i] && f[j] == f0[j]);
                } else {
                    assert(f[j] == s.last());
                    assert(f[i] == f0[i]);
                    assert(s0.contains(f0[i]));
                    let k = choose|k: int| 0 <= k < s0.len() && s0[k] == f0[i];
                    assert(s[k] == f0[i] && k < s.len() - 1);
                    assert(s[k].claim_id != s[s.len() - 1].claim_id);
                }
            }
        } else {
            assert(f == f0);
        }
    }
}

impl Database {
    /// How many links touch this claim at either endpoint.
    #[verifier::loop_isolation(false)]
    fn count_links_touching(&self, id: i64) -> (c: usize)
        ensures
            c == count_links(self.links@, id),
            c <= self.links@.len(),
    {
        let m = self.links.len();
        let mut c: usize = 0;
        for j in 0..m
            invariant
                c == count_links(self.links@.subrange(0, j as int), id),
                c <= j,
        {
            proof {
                let s1 = self.links@.subrange(0, j + 1);
                assert(s1.drop_last() =~= self.links@.subrange(0, j as int));
                assert(s1.last() == self.links@[j as int]);
            }
            let l = self.links[j];
            if l.source_claim_id == id || l.target_claim_id == id {
                c = c + 1;
            }
        }
        proof {
            assert(self.links@.subrange(0, m as int) =~= self.links@);
        }
        c
    }

    /// The number of links touching this claim, in either direction.
    pub fn get_claim_link_count(&self, claim_id: i64) -> (r: i64)
        requires
            self.links@.len() <= i64::MAX,
        ensures
            r == self.link_count_of(claim_id),
    {
        let c = self.count_links_touching(claim_id);
        c as i64
    }

    /// Every claim with fewer than two links touching it, newest first.
    /// This is the orphan set of the review queue.
    #[verifier::loop_isolation(false)]
    pub fn get_unlinked_claims(&self) -> (r: Vec<Claim>)
        ensures
            ({
                let links = self.links@;
                let kept = self.claims@.filter(|c: Claim| count_links(links, c.id) < 2);
                &&& r@.len() == kept.len()
                &&& forall|i: int|
                    0 <= i < kept.len() ==> claim_like(#[trigger] r@[i], newest_first(kept)[i])
            }),
    {
        let ghost links = self.links@;
        let ghost pred = |c: Claim| count_links(links, c.id) < 2;
        let n = self.claims.len();
        let mut kept: Vec<Claim> = Vec::new();
        let mut keys: Vec<i128> = Vec::new();
        for j in 0..n
            invariant
                kept@.len() == self.claims@.subrange(0, j as int).filter(pred).len(),
                keys@.len() == kept@.len(),
                forall|i: int|
                    0 <= i < kept@.len() ==> claim_like(
                        #[trigger] kept@[i],
                        self.claims@.subrange(0, j as int).filter(pred)[i],
                    ),
                forall|i: int|
                    0 <= i < kept@.len() ==> (#[trigger] keys@[i]) as int == created_desc_key()(
                        self.claims@.subrange(0, j as int).filter(pred)[i],
                    ),
        {
            proof {
                reveal(Seq::filter);
                let s1 = self.claims@.subrange(0, j + 1);
                assert(s1.drop_last() =~= self.claims@.subrange(0, j as int));
                assert(s1.last() == self.claims@[j as int]);
            }
            let c = self.count_links_touching(self.claims[j].id);
            if c < 2 {
                kept.push(clone_claim_row(&self.claims[j]));
                keys.push(self.claims[j].created_at as i128);
            }
        }
        proof {
            assert(self.claims@.subrange(0, n as int) =~= self.claims@);
        }
        rank_claims(
            &kept,
            &keys,
            Ghost(self.claims@.filter(pred)),
            Ghost(created_desc_key()),
        )
    }

    /// Alias of `get_unlinked_claims`: the orphan set, newest first.
    pub fn get_orphan_claims(&self) -> (r: Vec<Claim>)
        ensures
            ({
                let links = self.links@;
                let kept = self.claims@.filter(|c: Claim| count_links(links, c.id) < 2);
                &&& r@.len() == kept.len()
                &&& forall|i: int|
                    0 <= i < kept.len() ==> claim_like(#[trigger] r@[i], newest_first(kept)[i])
            }),
    {
        self.get_unlinked_claims()
    }

    /// Marks a claim as just shown to the user: its access record is
    /// created or refreshed to `now`.
    #[verifier::loop_isolation(false)]
    pub fn record_claim_access(&mut self, claim_id: i64, now: i64)
        requires
            old(self).wf(),
        ensures
            final(self).wf(),
            final(self).has_access(claim_id),
            final(self).access_time_of(claim_id) == now,
            if old(self).has_access(claim_id) {
                exists|i: int|
                    #![trigger old(self).access@[i]]
                    0 <= i < old(self).access@.len() && old(self).access@[i].claim_id == claim_id
                        && final(self).access@ == old(self).access@.update(
                        i,
                        (ClaimAccess { claim_id, last_accessed: now }),
                    )
            } else {
                final(self).access@ == old(self).access@.push(
                    (ClaimAccess { claim_id, last_accessed: now }),
                )
            },
            final(self).claims@ == old(self).claims@,
            final(self).links@ == old(self).links@,
            final(self).videos@ == old(self).videos@,
            final(self).transcripts@ == old(self).transcripts@,
            final(self).search_index@ == old(self).search_index@,
            final(self).chunks@ == old(self).chunks@,
            final(self).embeddings@ == old(self).embeddings@,
            final(self).next_claim_id == old(self).next_claim_id,
            final(self).next_link_id == old(self).next_link_id,
            final(self).next_embedding_id == old(self).next_embedding_id,
            final(self).next_chunk_id == old(self).next_chunk_id,
    {
        let row = ClaimAccess { claim_id, last_accessed: now };
        let n = self.access.len();
        let mut pos: usize = 0;
        let mut found = false;
        let mut j: usize = 0;
        while j < n && !found
            invariant
                j <= n,
                *self == *old(self),
                !found ==> forall|l: int|
                    0 <= l < j ==> #[trigger] self.access@[l].claim_id != claim_id,
                found ==> pos < n && self.access@[pos as int].claim_id == claim_id,
            decreases n - j,
        {
            if self.access[j].claim_id == claim_id {
                pos = j;
                found = true;
            }
            j = j + 1;
        }
        if found {
            self.access.set(pos, row);
        } else {
            self.access.push(row);
        }
        proof {
            assert(self.has_access(claim_id)) by {
                if found {
                    assert(self.access@[pos as int].claim_id == claim_id);
                } else {
                    assert(self.access@[old(self).access@.len() as int].claim_id == claim_id);
                }
            }
            let ci = self.access_index_of(claim_id);
            assert(0 <= ci < self.access@.len() && self.access@[ci].claim_id == claim_id);
            assert(self.wf()) by {
                assert(forall|i: int|
                    0 <= i < self.links@.len() ==> self.has_claim(
                        #[trigger] self.links@[i].source_claim_id,
                    ) && self.has_claim(self.links@[i].target_claim_id));
            }
            if found {
                if ci != pos as int {
                    assert(self.access@[ci].claim_id != self.access@[pos as int].claim_id);
                }
                assert(ci == pos as int);
            } else {
                let n0 = old(self).access@.len() as int;
                if ci != n0 {
                    assert(self.access@[ci].claim_id != self.access@[n0].claim_id);
                }
                assert(ci == n0);
            }
        }
    }

    /// Every claim that is stale for a window of `days` days at instant
    /// `now` (never accessed, or last accessed before `now - days` days),
    /// stalest first: by ascending last access, never-accessed claims by
    /// their creation time.
    #[verifier::loop_isolation(false)]
    pub fn get_stale_claims(&self, days: i64, now: i64) -> (r: Vec<Claim>)
        requires
            self.wf(),
        ensures
            ({
                let me = *self;
                let kept = self.claims@.filter(|c: Claim| me.is_stale(c.id, days, now));
                &&& r@.len() == kept.len()
                &&& forall|i: int|
                    0 <= i < kept.len() ==> claim_like(#[trigger] r@[i], stale_order(me, kept)[i])
            }),
    {
        let ghost me = *self;
        let ghost pred = |c: Claim| me.is_stale(c.id, days, now);
        let n = self.claims.len();
        let mut kept: Vec<Claim> = Vec::new();
        let mut keys: Vec<i128> = Vec::new();
        for j in 0..n
            invariant
                kept@.len() == self.claims@.subrange(0, j as int).filter(pred).len(),
                keys@.len() == kept@.len(),
                forall|i: int|
                    0 <= i < kept@.len() ==> claim_like(
                        #[trigger] kept@[i],
                        self.claims@.subrange(0, j as int).filter(pred)[i],
                    ),
                forall|i: int|
                    0 <= i < kept@.len() ==> (#[trigger] keys@[i]) as int == stale_order_key(me)(
                        self.claims@.subrange(0, j as int).filter(pred)[i],
                    ),
        {
            proof {
                reveal(Seq::filter);
                let s1 = self.claims@.subrange(0, j + 1);
                assert(s1.drop_last() =~= self.claims@.subrange(0, j as int));
                assert(s1.last() == self.claims@[j as int]);
            }
            let id = self.claims[j].id;
            let stale = self.claim_is_stale(id, days, now);
            if stale {
                let instant = self.order_instant(&self.claims[j]);
                kept.push(clone_claim_row(&self.claims[j]));
                keys.push(-(instant as i128));
            }
        }
        proof {
            assert(self.claims@.subrange(0, n as int) =~= self.claims@);
        }
        rank_claims(&kept, &keys, Ghost(self.claims@.filter(pred)), Ghost(stale_order_key(me)))
    }

    /// The instant the staleness listing orders a claim by: its recorded
    /// last access, or its creation time when it was never shown.
    #[verifier::loop_isolation(false)]
    fn order_instant(&self, c: &Claim) -> (v: i64)
        requires
            self.wf(),
        ensures
            v == if self.has_access(c.id) {
                self.access_time_of(c.id)
            } else {
                c.created_at
            },
    {
        let n = self.access.len();
        let mut j: usize = 0;
        while j < n
            invariant
                j <= n,
                forall|l: int| 0 <= l < j ==> #[trigger] self.access@[l].claim_id != c.id,
            decreases n - j,
        {
            if self.access[j].claim_id == c.id {
                proof {
                    assert(self.has_access(c.id)) by {
                        assert(self.access@[j as int].claim_id == c.id);
                    }
                    let ci = self.access_index_of(c.id);
                    assert(0 <= ci < self.access@.len() && self.access@[ci].claim_id == c.id);
                    if ci != j as int {
                        assert(self.access@[ci].claim_id != self.access@[j as int].claim_id);
                    }
                }
                return self.access[j].last_accessed;
            }
            j = j + 1;
        }
        proof {
            assert(!self.has_access(c.id));
        }
        c.created_at
    }

    /// Whether one claim id is stale for the given window.
    #[verifier::loop_isolation(false)]
    fn claim_is_stale(&self, id: i64, days: i64, now: i64) -> (r: bool)
        requires
            self.wf(),
        ensures
            r == self.is_stale(id, days, now),
    {
        let n = self.access.len();
        let mut j: usize = 0;
        while j < n
            invariant
                j <= n,
                forall|l: int| 0 <= l < j ==> #[trigger] self.access@[l].claim_id != id,
            decreases n - j,
        {
            if self.access[j].claim_id == id {
                proof {
                    assert(self.has_access(id)) by {
                        assert(self.access@[j as int].claim_id == id);
                    }
                    let ci = self.access_index_of(id);
                    assert(0 <= ci < self.access@.len() && self.access@[ci].claim_id == id);
                    if ci != j as int {
                        assert(self.access@[ci].claim_id != self.access@[j as int].claim_id);
                    }
                    assert(ci == j as int);
                }
                let last = self.access[j].last_accessed;
                proof {
                    let d = days as int;
                    assert(-0x1_0000_0000_0000_0000 * 86400 <= d * (DAY_SECONDS as int)
                        <= 0x1_0000_0000_0000_0000 * 86400) by (nonlinear_arith)
                        requires
                            -0x8000_0000_0000_0000 <= d <= 0x7FFF_FFFF_FFFF_FFFF,
                    ;
                }
                let cutoff: i128 = now as i128 - days as i128 * DAY_SECONDS as i128;
                return (last as i128) < cutoff;
            }
            j = j + 1;
        }
        proof {
            assert(!self.has_access(id));
        }
        true
    }
}

impl Database {
    /// A claim together with its outgoing and incoming typed edges, each
    /// edge paired with the claim at its far end.  `None` when the claim
    /// does not exist.
    #[verifier::loop_isolation(false)]
    #[verifier::rlimit(50)]
    pub fn get_claim_with_links(&self, claim_id: i64) -> (r: Option<ClaimWithLinks>)
        requires
            self.wf(),
        ensures
            r is Some <==> self.has_claim(claim_id),
            r is Some ==> ({
                let cw = r->0;
                let outs = self.links@.filter(|l: ClaimLink| l.source_claim_id == claim_id);
                let ins = self.links@.filter(|l: ClaimLink| l.target_claim_id == claim_id);
                &&& claim_like(cw.claim, self.claims@[self.claim_index_of(claim_id)])
                &&& cw.outgoing_links@.len() == outs.len()
                &&& forall|i: int|
                    0 <= i < outs.len() ==> (#[trigger] cw.outgoing_links@[i]).0 == outs[i]
                        && claim_like(
                        cw.outgoing_links@[i].1,
                        self.claims@[self.claim_index_of(outs[i].target_claim_id)],
                    )
                &&& cw.incoming_links@.len() == ins.len()
                &&& forall|i: int|
                    0 <= i < ins.len() ==> (#[trigger] cw.incoming_links@[i]).0 == ins[i]
                        && claim_like(
                        cw.incoming_links@[i].1,
                        self.claims@[self.claim_index_of(ins[i].source_claim_id)],
                    )
            }),
    {
        let claim = match self.get_claim(claim_id) {
            Some(c) => c,
            None => {
                return None;
            },
        };
        proof {
            let w = choose|w: int|
                0 <= w < self.claims@.len() && (#[trigger] self.claims@[w]).id == claim_id
                    && claim_like(claim, self.claims@[w]);
            let ci = self.claim_index_of(claim_id);
            assert(0 <= ci < self.claims@.len() && self.claims@[ci].id == claim_id);
            if ci != w {
                assert(self.claims@[ci].id != self.claims@[w].id);
            }
        }
        let ghost outs_pred = |l: ClaimLink| l.source_claim_id == claim_id;
        let ghost ins_pred = |l: ClaimLink| l.target_claim_id == claim_id;
        let m = self.links.len();
        let mut outgoing_links: Vec<(ClaimLink, Claim)> = Vec::new();
        for j in 0..m
            invariant
                outgoing_links@.len() == self.links@.subrange(0, j as int).filter(
                    outs_pred,
                ).len(),
                forall|i: int|
                    0 <= i < outgoing_links@.len() ==> (#[trigger] outgoing_links@[i]).0
                        == self.links@.subrange(0, j as int).filter(outs_pred)[i] && claim_like(
                        outgoing_links@[i].1,
                        self.claims@[self.claim_index_of(
                            self.links@.subrange(0, j as int).filter(
                                outs_pred,
                            )[i].target_claim_id,
                        )],
                    ),
        {
            proof {
                reveal(Seq::filter);
                let s1 = self.links@.subrange(0, j + 1);
                assert(s1.drop_last() =~= self.links@.subrange(0, j as int));
                assert(s1.last() == self.links@[j as int]);
            }
            let l = self.links[j];
            if l.source_claim_id == claim_id {
                match self.get_claim(l.target_claim_id) {
                    Some(target) => {
                        proof {
                            let w = choose|w: int|
                                0 <= w < self.claims@.len() && (#[trigger] self.claims@[w]).id
                                    == l.target_claim_id && claim_like(target, self.claims@[w]);
                            let ci = self.claim_index_of(l.target_claim_id);
                            assert(0 <= ci < self.claims@.len() && self.claims@[ci].id
                                == l.target_claim_id);
                            if ci != w {
                                assert(self.claims@[ci].id != self.claims@[w].id);
                            }
                        }
                        outgoing_links.push((l, target));
                    },
                    None => {
                        proof {
                            assert(self.has_claim(l.target_claim_id));
                            assert(false);
                        }
                    },
                }
            }
        }
        let mut incoming_links: Vec<(ClaimLink, Claim)> = Vec::new();
        for j in 0..m
            invariant
                incoming_links@.len() == self.links@.subrange(0, j as int).filter(ins_pred).len(),
                forall|i: int|
                    0 <= i < incoming_links@.len() ==> (#[trigger] incoming_links@[i]).0
                        == self.links@.subrange(0, j as int).filter(ins_pred)[i] && claim_like(
                        incoming_links@[i].1,
                        self.claims@[self.claim_index_of(
                            self.links@.subrange(0, j as int).filter(ins_pred)[i].source_claim_id,
                        )],
                    ),
        {
            proof {
                reveal(Seq::filter);
                let s1 = self.links@.subrange(0, j + 1);
                assert(s1.drop_last() =~= self.links@.subrange(0, j as int));
                assert(s1.last() == self.links@[j as int]);
            }
            let l = self.links[j];
            if l.target_claim_id == claim_id {
                match self.get_claim(l.source_claim_id) {
                    Some(source) => {
                        proof {
                            let w = choose|w: int|
                                0 <= w < self.claims@.len() && (#[trigger] self.claims@[w]).id
                                    == l.source_claim_id && claim_like(source, self.claims@[w]);
                            let ci = self.claim_index_of(l.source_claim_id);
                            assert(0 <= ci < self.claims@.len() && self.claims@[ci].id
                                == l.source_claim_id);
                            if ci != w {
                                assert(self.claims@[ci].id != self.claims@[w].id);
                            }
                        }
                        incoming_links.push((l, source));
                    },
                    None => {
                        proof {
                            assert(self.has_claim(l.source_claim_id));
                            assert(false);
                        }
                    },
                }
            }
        }
        proof {
            assert(self.links@.subrange(0, m as int) =~= self.links@);
        }
        Some(ClaimWithLinks { claim, outgoing_links, incoming_links })
    }

    /// A pseudo-random selection of up to `count` distinct stored claims,
    /// drawn from the whole claim set with a deterministic generator seeded
    /// by `seed`.
    #[verifier::loop_isolation(false)]
    pub fn get_random_claims(&self, count: usize, seed: u64) -> (r: Vec<Claim>)
        requires
            self.wf(),
        ensures
            r@.len() == if count <= self.claims@.len() {
                count as int
            } else {
                self.claims@.len() as int
            },
            forall|i: int|
                0 <= i < r@.len() ==> self.has_claim((#[trigger] r@[i]).id) && claim_like(
                    r@[i],
                    self.claims@[self.claim_index_of(r@[i].id)],
                ),
            forall|i: int, j: int| 0 <= i < j < r@.len() ==> r@[i].id != r@[j].id,
    {
        let n = self.claims.len();
        let take = if count <= n {
            count
        } else {
            n
        };
        let mut candidates: Vec<usize> = Vec::new();
        for j in 0..n
            invariant
                candidates@.len() == j,
                forall|x: int| 0 <= x < j ==> #[trigger] candidates@[x] == x,
        {
            candidates.push(j);
        }
        let mut state: u64 = seed;
        let mut r: Vec<Claim> = Vec::new();
        let ghost mut picked: Seq<int> = Seq::empty();
        for t in 0..take
            invariant
                take <= n,
                n == self.claims@.len(),
                candidates@.len() == n - t,
                r@.len() == t,
                picked.len() == t,
                forall|x: int| 0 <= x < candidates@.len() ==> #[trigger] candidates@[x] < n,
                forall|x: int, y: int|
                    0 <= x < y < candidates@.len() ==> #[trigger] candidates@[x]
                        != #[trigger] candidates@[y],
                forall|x: int| 0 <= x < t ==> 0 <= #[trigger] picked[x] < n,
                forall|x: int|
                    0 <= x < t ==> claim_like(#[trigger] r@[x], self.claims@[picked[x]]) && r@[x].id
                        == self.claims@[picked[x]].id,
                forall|x: int, y: int|
                    0 <= x < picked.len() && 0 <= y < candidates@.len()
                        ==> #[trigger] picked[x] != #[trigger] candidates@[y] as int,
                forall|x: int, y: int| 0 <= x < y < t ==> picked[x] != picked[y],
        {
            state = next_random(state);
            let len = candidates.len();
            let idx = (state as u128 % len as u128) as usize;
            let k = candidates[idx];
            candidates.set(idx, candidates[len - 1]);
            let ghost dropped = candidates@;
            candidates.pop();
            proof {
                assert(candidates@ =~= dropped.subrange(0, len - 1));
            }
            r.push(clone_claim_row(&self.claims[k]));
            proof {
                picked = picked.push(k as int);
                assert forall|x: int, y: int|
                    0 <= x < y < picked.len() implies picked[x] != picked[y] by {
                    if y == picked.len() - 1 {
                        assert(picked[y] == k as int);
                    }
                }
                assert forall|x: int, y: int|
                    0 <= x < picked.len() && 0 <= y < candidates@.len() implies picked[x]
                    != candidates@[y] as int by {
                    if x == picked.len() - 1 {
                        assert(picked[x] == k as int);
                    }
                }
            }
        }
        proof {
            assert forall|i: int, j: int| 0 <= i < j < r@.len() implies r@[i].id != r@[j].id by {
                assert(r@[i].id == self.claims@[picked[i]].id);
                assert(r@[j].id == self.claims@[picked[j]].id);
                assert(picked[i] != picked[j]);
            }
            assert forall|i: int| 0 <= i < r@.len() implies self.has_claim((#[trigger] r@[i]).id)
                && claim_like(r@[i], self.claims@[self.claim_index_of(r@[i].id)]) by {
                let k = picked[i];
                assert(claim_like(r@[i], self.claims@[k]) && r@[i].id == self.claims@[k].id);
                assert(self.has_claim(r@[i].id)) by {
                    assert(self.claims@[k].id == r@[i].id);
                }
                let ci = self.claim_index_of(r@[i].id);
                assert(0 <= ci < self.claims@.len() && self.claims@[ci].id == r@[i].id);
                if ci != k {
                    assert(self.claims@[ci].id != self.claims@[k].id);
                }
            }
        }
        r
    }

    /// The composite triage view: stale claims, orphan claims, and a random
    /// sample for serendipitous review.  Surfacing the sample counts as
    /// access: each sampled claim's access record is refreshed to `now`.
    #[verifier::loop_isolation(false)]
    pub fn get_review_queue(
        &mut self,
        stale_days: i64,
        random_count: usize,
        now: i64,
        seed: u64,
    ) -> (q: ReviewQueue)
        requires
            old(self).wf(),
        ensures
            final(self).wf(),
            ({
                let me = *old(self);
                let stale = old(self).claims@.filter(
                    |c: Claim| me.is_stale(c.id, stale_days, now),
                );
                &&& q.stale_claims@.len() == stale.len()
                &&& forall|i: int|
                    0 <= i < stale.len() ==> claim_like(
                        #[trigger] q.stale_claims@[i],
                        stale_order(me, stale)[i],
                    )
            }),
            ({
                let links = old(self).links@;
                let orphans = old(self).claims@.filter(
                    |c: Claim| count_links(links, c.id) < 2,
                );
                &&& q.orphan_claims@.len() == orphans.len()
                &&& forall|i: int|
                    0 <= i < orphans.len() ==> claim_like(
                        #[trigger] q.orphan_claims@[i],
                        newest_first(orphans)[i],
                    )
            }),
            q.random_suggestions@.len() == if random_count <= old(self).claims@.len() {
                random_count as int
            } else {
                old(self).claims@.len() as int
            },
            forall|i: int, j: int|
                0 <= i < j < q.random_suggestions@.len() ==> q.random_suggestions@[i].id
                    != q.random_suggestions@[j].id,
            forall|i: int|
                0 <= i < q.random_suggestions@.len() ==> final(self).has_access(
                    (#[trigger] q.random_suggestions@[i]).id,
                ) && final(self).access_time_of(q.random_suggestions@[i].id) == now,
            forall|id: i64|
                #![trigger final(self).has_access(id)]
                #![trigger final(self).access_time_of(id)]
                !(exists|i: int|
                    0 <= i < q.random_suggestions@.len() && (#[trigger] q.random_suggestions@[i]).id
                        == id) ==> ((final(self).has_access(id) <==> old(self).has_access(id)) && (
                old(self).has_access(id) ==> final(self).access_time_of(id) == old(
                    self,
                ).access_time_of(id))),
            final(self).claims@ == old(self).claims@,
            final(self).links@ == old(self).links@,
            final(self).videos@ == old(self).videos@,
            final(self).transcripts@ == old(self).transcripts@,
            final(self).search_index@ == old(self).search_index@,
            final(self).chunks@ == old(self).chunks@,
            final(self).embeddings@ == old(self).embeddings@,
            final(self).next_claim_id == old(self).next_claim_id,
            final(self).next_link_id == old(self).next_link_id,
            final(self).next_embedding_id == old(self).next_embedding_id,
            final(self).next_chunk_id == old(self).next_chunk_id,
    {
        let stale_claims = self.get_stale_claims(stale_days, now);
        let orphan_claims = self.get_unlinked_claims();
        let random_suggestions = self.get_random_claims(random_count, seed);
        let k = random_suggestions.len();
        for t in 0..k
            invariant
                self.wf(),
                self.claims@ == old(self).claims@,
                self.links@ == old(self).links@,
                self.videos@ == old(self).videos@,
                self.transcripts@ == old(self).transcripts@,
                self.search_index@ == old(self).search_index@,
                self.chunks@ == old(self).chunks@,
                self.embeddings@ == old(self).embeddings@,
                self.next_claim_id == old(self).next_claim_id,
                self.next_link_id == old(self).next_link_id,
                self.next_embedding_id == old(self).next_embedding_id,
                self.next_chunk_id == old(self).next_chunk_id,
                forall|i: int, j: int|
                    0 <= i < j < random_suggestions@.len() ==> random_suggestions@[i].id
                        != random_suggestions@[j].id,
                forall|i: int|
                    0 <= i < t ==> self.has_access((#[trigger] random_suggestions@[i]).id)
                        && self.access_time_of(random_suggestions@[i].id) == now,
                forall|id: i64|
                    #![trigger self.has_access(id)]
                    #![trigger self.access_time_of(id)]
                    !(exists|i: int|
                        0 <= i < t && (#[trigger] random_suggestions@[i]).id == id) ==> ((
                    self.has_access(id) <==> old(self).has_access(id)) && (old(self).has_access(id)
                        ==> self.access_time_of(id) == old(self).access_time_of(id))),
        {
            let ghost pre = *self;
            self.record_claim_access(random_suggestions[t].id, now);
            proof {
                let cur = random_suggestions@[t as int].id;
                assert forall|id: i64|
                    #![trigger self.has_access(id)]
                    #![trigger self.access_time_of(id)]
                    id != cur implies ((self.has_access(id) <==> pre.has_access(id)) && (
                pre.has_access(id) ==> self.access_time_of(id) == pre.access_time_of(id))) by {
                    assert(forall|j: int|
                        0 <= j < pre.access@.len() ==> (#[trigger] self.access@[j]).claim_id
                            == pre.access@[j].claim_id && (pre.access@[j].claim_id != cur
                            ==> self.access@[j] == pre.access@[j])) by {
                        if pre.has_access(cur) {
                            let w = choose|w: int|
                                #![trigger pre.access@[w]]
                                0 <= w < pre.access@.len() && pre.access@[w].claim_id == cur
                                    && self.access@ == pre.access@.update(
                                    w,
                                    (ClaimAccess { claim_id: cur, last_accessed: now }),
                                );
                            assert(pre.access@[w].claim_id == cur);
                        }
                    }
                    if pre.has_access(id) {
                        let pi = pre.access_index_of(id);
                        assert(0 <= pi < pre.access@.len() && pre.access@[pi].claim_id == id);
                        assert(self.access@[pi] == pre.access@[pi]);
                        assert(self.has_access(id)) by {
                            assert(self.access@[pi].claim_id == id);
                        }
                        let ci = self.access_index_of(id);
                        assert(0 <= ci < self.access@.len() && self.access@[ci].claim_id == id);
                        if ci != pi {
                            assert(self.access@[ci].claim_id != self.access@[pi].claim_id);
                        }
                    } else {
                        assert(!self.has_access(id)) by {
                            if self.has_access(id) {
                                let ci = self.access_index_of(id);
                                assert(0 <= ci < self.access@.len() && self.access@[ci].claim_id
                                    == id);
                                if ci < pre.access@.len() {
                                    assert(pre.access@[ci].claim_id == id);
                                } else {
                                    assert(self.access@[ci].claim_id == cur);
                                }
                            }
                        }
                    }
                }
                assert forall|id: i64|
                    #![trigger self.has_access(id)]
                    #![trigger self.access_time_of(id)]
                    !(exists|i: int|
                        0 <= i < t + 1 && (#[trigger] random_suggestions@[i]).id == id) implies ((
                self.has_access(id) <==> old(self).has_access(id)) && (old(self).has_access(id)
                    ==> self.access_time_of(id) == old(self).access_time_of(id))) by {
                    assert(!(0 <= t < t + 1 && (#[trigger] random_suggestions@[t as int]).id
                        == id));
                    assert(id != cur);
                    assert(!(exists|i: int|
                        0 <= i < t && (#[trigger] random_suggestions@[i]).id == id)) by {
                        if exists|i: int|
                            0 <= i < t && (#[trigger] random_suggestions@[i]).id == id {
                            let i = choose|i: int|
                                0 <= i < t && (#[trigger] random_suggestions@[i]).id == id;
                            assert(0 <= i < t + 1 && random_suggestions@[i].id == id);
                        }
                    }
                    assert(pre.has_access(id) <==> old(self).has_access(id));
                    assert((self.has_access(id) <==> pre.has_access(id)) && (pre.has_access(id)
                        ==> self.access_time_of(id) == pre.access_time_of(id)));
                    if old(self).has_access(id) {
                        assert(pre.access_time_of(id) == old(self).access_time_of(id));
                    }
                }
            }
            proof {
                assert forall|i: int|
                    0 <= i < t implies self.has_access((#[trigger] random_suggestions@[i]).id)
                    && self.access_time_of(random_suggestions@[i].id) == now by {
                    let aid = random_suggestions@[i].id;
                    let cur = random_suggestions@[t as int].id;
                    assert(aid != cur);
                    let pi = pre.access_index_of(aid);
                    assert(0 <= pi < pre.access@.len() && pre.access@[pi].claim_id == aid);
                    if pre.has_access(cur) {
                        let w = choose|w: int|
                            #![trigger pre.access@[w]]
                            0 <= w < pre.access@.len() && pre.access@[w].claim_id == cur
                                && self.access@ == pre.access@.update(
                                w,
                                (ClaimAccess { claim_id: cur, last_accessed: now }),
                            );
                        assert(pre.access@[w].claim_id == cur);
                        assert(pi != w);
                        assert(self.access@[pi] == pre.access@[pi]);
                    } else {
                        assert(self.access@[pi] == pre.access@[pi]);
                    }
                    assert(self.has_access(aid)) by {
                        assert(self.access@[pi].claim_id == aid);
                    }
                    let ci = self.access_index_of(aid);
                    assert(0 <= ci < self.access@.len() && self.access@[ci].claim_id == aid);
                    if ci != pi {
                        assert(self.access@[ci].claim_id != self.access@[pi].claim_id);
                    }
                    assert(self.access_time_of(aid) == pre.access_time_of(aid));
                }
            }
        }
        ReviewQueue { stale_claims, orphan_claims, random_suggestions }
    }

    /// Totals for the claim graph: all claims, claims with at least two
    /// links, and all links.
    #[verifier::loop_isolation(false)]
    pub fn get_claim_stats(&self) -> (r: (i64, i64, i64))
        requires
            self.claims@.len() <= i64::MAX,
            self.links@.len() <= i64::MAX,
        ensures
            r.0 == self.claims@.len(),
            ({
                let links = self.links@;
                r.1 == self.claims@.filter(|c: Claim| count_links(links, c.id) >= 2).len()
            }),
            r.2 == self.links@.len(),
    {
        let ghost links = self.links@;
        let ghost pred = |c: Claim| count_links(links, c.id) >= 2;
        let n = self.claims.len();
        let mut linked: usize = 0;
        for j in 0..n
            invariant
                linked == self.claims@.subrange(0, j as int).filter(pred).len(),
                linked <= j,
        {
            proof {
                reveal(Seq::filter);
                let s1 = self.claims@.subrange(0, j + 1);
                assert(s1.drop_last() =~= self.claims@.subrange(0, j as int));
                assert(s1.last() == self.claims@[j as int]);
                self.claims@.subrange(0, j as int).lemma_filter_len(pred);
            }
            let c = self.count_links_touching(self.claims[j].id);
            if c >= 2 {
                linked = linked + 1;
            }
        }
        proof {
            assert(self.claims@.subrange(0, n as int) =~= self.claims@);
            self.claims@.lemma_filter_len(pred);
        }
        (self.claims.len() as i64, linked as i64, self.links.len() as i64)
    }
}

/// The linear-congruential step behind the random review sample.
fn next_random(state: u64) -> u64 {
    let next = ((state as u128) * 6364136223846793005u128 + 1442695040888963407u128)
        % 0x1_0000_0000_0000_0000u128;
    next as u64
}

/// A claim with no access record is stale for every window, however the
/// window and the current instant are chosen.
pub proof fn lemma_never_accessed_always_stale(db: Database, id: i64, days: i64, now: i64)
    requires
        !db.has_access(id),
    ensures
        db.is_stale(id, days, now),
{
}

/// Recording an access at `now` takes the claim out of every non-negative
/// staleness window evaluated at that same instant; it turns stale again
/// exactly when the clock passes `days` days beyond that access.
pub proof fn lemma_access_refreshes(db: Database, id: i64, days: i64, now: i64, later: i64)
    requires
        db.has_access(id),
        db.access_time_of(id) == now,
        days >= 0,
    ensures
        !db.is_stale(id, days, now),
        db.is_stale(id, days, later) <==> (now as int) < later - days * DAY_SECONDS,
{
    assert(days * DAY_SECONDS >= 0) by (nonlinear_arith)
        requires
            days >= 0,
    ;
}

/// A copy of one claim row.
pub(crate) fn clone_claim_row(c: &Claim) -> (r: Claim)
    ensures
        claim_like(r, *c),
{
    Claim {
        id: c.id,
        text: c.text.clone(),
        video_id: c.video_id.clone(),
        timestamp: c.timestamp,
        source_quote: c.source_quote.clone(),
        category: c.category,
        confidence: c.confidence,
        created_at: c.created_at,
    }
}

} // verus!
