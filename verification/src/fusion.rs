//! The fusion ranker: one ordered result list from a keyword signal and a
//! semantic signal.
//!
//! The keyword score of a video is derived from its rank among the keyword
//! hits: the hit at rank `i` of `n` scores `(n - i) * SCORE_SCALE / n`, so
//! the top hit scores close to 1.0 whatever the raw relevance magnitudes
//! were.  The semantic score of a video is the best cosine score among its
//! own embedding and the embeddings of its transcript chunks.  A video
//! missing one signal contributes zero for it; the combined score is
//! `keyword * keyword_weight + semantic * semantic_weight`, and results
//! come back by non-increasing combined score (ties keep keyword order,
//! then first-contribution order).

use vstd::prelude::*;

use crate::kinds::EmbeddingSource;
use crate::model::{Claim, ChunkMatch, Embedding, HybridSearchResult, TranscriptChunk};
use crate::lexical::keyword_hits;
use crate::rank::{
    lemma_sort_desc_of_sorted, lemma_sort_desc_parallel, lemma_sort_desc_sorted, pair_wide_key,
    sort_desc, sort_wide_desc,
};
use crate::store::{emb_key, video_like, Database};
use crate::text::{colon_prefix, dec_of, format_i64, split_colon_prefix};
use crate::vector::{cosine_similarity, spec_cosine, MAX_COMPONENT, MAX_DIM, SCORE_SCALE};

verus! {

/// The video a stored embedding contributes semantic evidence to: its own
/// video for video-kind rows, the owner parsed from the composite key for
/// chunk-kind rows, and none otherwise.
pub open spec fn contrib_vid(e: Embedding) -> Option<Seq<char>> {
    if e.source_type == EmbeddingSource::Video {
        Some(e.source_id@)
    } else if e.source_type == EmbeddingSource::Chunk {
        Some(colon_prefix(e.source_id@))
    } else {
        None
    }
}

/// Whether any row of `rows` contributes to `vid`.
pub open spec fn has_contrib(rows: Seq<Embedding>, vid: Seq<char>) -> bool {
    exists|i: int| 0 <= i < rows.len() && contrib_vid(#[trigger] rows[i]) == Some(vid)
}

/// The best cosine score among the contributions of `rows` to `vid`.
pub open spec fn sem_best(rows: Seq<Embedding>, q: Seq<i64>, vid: Seq<char>) -> int
    decreases rows.len(),
{
    if rows.len() == 0 {
        0
    } else {
        let pre = sem_best(rows.drop_last(), q, vid);
        if contrib_vid(rows.last()) == Some(vid) {
            if has_contrib(rows.drop_last(), vid) {
                if spec_cosine(q, rows.last().vector@) > pre {
                    spec_cosine(q, rows.last().vector@)
                } else {
                    pre
                }
            } else {
                spec_cosine(q, rows.last().vector@)
            }
        } else {
            pre
        }
    }
}

/// The semantic score of a video: the best contribution, zero when it has
/// none.
pub open spec fn sem_of(db: Database, q: Seq<i64>, vid: Seq<char>) -> int {
    if has_contrib(db.embeddings@, vid) {
        sem_best(db.embeddings@, q, vid)
    } else {
        0
    }
}

/// The semantic score used by the pipeline: zero when no query vector was
/// supplied.
pub open spec fn sem_term(db: Database, qv: Option<Seq<i64>>, vid: Seq<char>) -> int {
    match qv {
        Some(q) => sem_of(db, q, vid),
        None => 0,
    }
}

/// The rank-derived keyword score: the hit at rank `i` of `n` scores
/// `(n - i) * SCORE_SCALE / n`.
pub open spec fn kw_rank_score(n: int, i: int) -> int {
    ((n - i) * SCORE_SCALE) / n
}

/// The distinct videos the stored embeddings contribute to, in first
/// contribution order.
pub open spec fn contrib_vids(rows: Seq<Embedding>) -> Seq<Seq<char>>
    decreases rows.len(),
{
    if rows.len() == 0 {
        Seq::empty()
    } else {
        let pre = contrib_vids(rows.drop_last());
        match contrib_vid(rows.last()) {
            Some(v) => if pre.contains(v) {
                pre
            } else {
                pre.push(v)
            },
            None => pre,
        }
    }
}

/// One entry of the fusion pipeline: a video id with its keyword and
/// semantic scores.
pub open spec fn hybrid_entries(db: Database, q: Seq<char>, qv: Option<Seq<i64>>) -> Seq<
    (Seq<char>, int, int),
> {
    let hits = keyword_hits(db, q);
    let n = hits.len() as int;
    let kw_part = Seq::new(
        hits.len(),
        |i: int| (hits[i].video_id@, kw_rank_score(n, i), sem_term(db, qv, hits[i].video_id@)),
    );
    let extras = hybrid_extras(db, q, qv);
    let extra_part = Seq::new(
        extras.len(),
        |i: int| (extras[i], 0int, sem_term(db, qv, extras[i])),
    );
    kw_part + extra_part
}

/// The semantic-only videos of the union: contributors that are not
/// keyword hits, in first-contribution order; none without a query vector.
pub open spec fn hybrid_extras(db: Database, q: Seq<char>, qv: Option<Seq<i64>>) -> Seq<Seq<char>> {
    match qv {
        Some(_) => contrib_vids(db.embeddings@).filter(not_hit_pred(db, q)),
        None => Seq::empty(),
    }
}

/// A video id that is not among the keyword hits.
pub open spec fn not_hit_pred(db: Database, q: Seq<char>) -> spec_fn(Seq<char>) -> bool {
    |v: Seq<char>|
        !Seq::new(keyword_hits(db, q).len(), |i: int| keyword_hits(db, q)[i].video_id@).contains(v)
}

/// An entry whose video still exists in the store.
pub open spec fn exists_video_pred(db: Database) -> spec_fn((Seq<char>, int, int)) -> bool {
    |t: (Seq<char>, int, int)| db.has_video(t.0)
}

/// The combined-score ranking key.
pub open spec fn comb_key(kw_weight: int, sem_weight: int) -> spec_fn((Seq<char>, int, int)) -> int {
    |t: (Seq<char>, int, int)| t.1 * kw_weight + t.2 * sem_weight
}

/// The pipeline's order: entries by non-increasing combined score, stably.
pub open spec fn hybrid_ranked(
    db: Database,
    q: Seq<char>,
    qv: Option<Seq<i64>>,
    kw_weight: int,
    sem_weight: int,
) -> Seq<(Seq<char>, int, int)> {
    sort_desc(hybrid_entries(db, q, qv), comb_key(kw_weight, sem_weight))
}

/// What the fusion search returns: the ranked entries cut to `limit`, kept
/// only where the video still exists.
pub open spec fn hybrid_results(
    db: Database,
    q: Seq<char>,
    qv: Option<Seq<i64>>,
    kw_weight: int,
    sem_weight: int,
    limit: int,
) -> Seq<(Seq<char>, int, int)> {
    let ranked = hybrid_ranked(db, q, qv, kw_weight, sem_weight);
    let taken = if limit <= ranked.len() {
        ranked.subrange(0, limit)
    } else {
        ranked
    };
    taken.filter(exists_video_pred(db))
}

impl Database {
    /// The rank-derived keyword score of rank `i` among `n` hits.
    #[verifier::loop_isolation(false)]
    fn kw_score_at(n: usize, i: usize) -> (r: i64)
        requires
            i < n,
        ensures
            r == kw_rank_score(n as int, i as int),
            0 <= r <= SCORE_SCALE,
    {
        let num: u128 = ((n - i) as u128) * (SCORE_SCALE as u128);
        let r = (num / (n as u128)) as i64;
        proof {
            assert((n - i) as int * (SCORE_SCALE as int) <= (n as int) * (SCORE_SCALE as int))
                by (nonlinear_arith)
                requires
                    0 < (n - i) as int <= n as int,
            ;
            vstd::arithmetic::div_mod::lemma_div_is_ordered(
                (n - i) as int * (SCORE_SCALE as int),
                (n as int) * (SCORE_SCALE as int),
                n as int,
            );
            assert(((n as int) * (SCORE_SCALE as int)) / (n as int) == SCORE_SCALE as int) by {
                vstd::arithmetic::div_mod::lemma_div_multiples_vanish(
                    SCORE_SCALE as int,
                    n as int,
                );
                assert((n as int) * (SCORE_SCALE as int) == (SCORE_SCALE as int) * (n as int));
            }
            assert(num as int == (n - i) as int * (SCORE_SCALE as int));
            vstd::arithmetic::div_mod::lemma_div_is_ordered(
                0,
                (n - i) as int * (SCORE_SCALE as int),
                n as int,
            );
        }
        r
    }

    /// The semantic scores of every video the stored embeddings contribute
    /// to, as `(video id, best score)` in first-contribution order.
    #[verifier::loop_isolation(false)]
    fn semantic_scores(&self, query_vector: &[i64]) -> (r: Vec<(String, i64)>)
        requires
            self.wf(),
            query_vector@.len() <= MAX_DIM,
            forall|i: int|
                0 <= i < query_vector@.len() ==> -MAX_COMPONENT <= #[trigger] query_vector@[i]
                    <= MAX_COMPONENT,
        ensures
            r@.len() == contrib_vids(self.embeddings@).len(),
            forall|k: int|
                0 <= k < r@.len() ==> (#[trigger] r@[k]).0@ == contrib_vids(self.embeddings@)[k],
            forall|k: int|
                0 <= k < r@.len() ==> (#[trigger] r@[k]).1 as int == sem_of(
                    *self,
                    query_vector@,
                    r@[k].0@,
                ),
            forall|k: int|
                0 <= k < r@.len() ==> -SCORE_SCALE <= (#[trigger] r@[k]).1 <= SCORE_SCALE,
    {
        let n = self.embeddings.len();
        let mut r: Vec<(String, i64)> = Vec::new();
        for j in 0..n
            invariant
                r@.len() == contrib_vids(self.embeddings@.subrange(0, j as int)).len(),
                forall|k: int|
                    0 <= k < r@.len() ==> (#[trigger] r@[k]).0@ == contrib_vids(
                        self.embeddings@.subrange(0, j as int),
                    )[k],
                forall|k: int|
                    0 <= k < r@.len() ==> has_contrib(
                        self.embeddings@.subrange(0, j as int),
                        (#[trigger] r@[k]).0@,
                    ) && r@[k].1 as int == sem_best(
                        self.embeddings@.subrange(0, j as int),
                        query_vector@,
                        r@[k].0@,
                    ),
                forall|k: int, l: int| 0 <= k < l < r@.len() ==> r@[k].0@ != r@[l].0@,
                forall|k: int|
                    0 <= k < r@.len() ==> -SCORE_SCALE <= (#[trigger] r@[k]).1 <= SCORE_SCALE,
        {
            let ghost pre = self.embeddings@.subrange(0, j as int);
            let ghost cur = self.embeddings@.subrange(0, j + 1);
            proof {
                assert(cur.drop_last() =~= pre);
                assert(cur.last() == self.embeddings@[j as int]);
            }
            let row = &self.embeddings[j];
            let mut vid_opt: Option<String> = None;
            if row.source_type == EmbeddingSource::Video {
                vid_opt = Some(row.source_id.clone());
            } else if row.source_type == EmbeddingSource::Chunk {
                vid_opt = Some(split_colon_prefix(row.source_id.as_str()));
            }
            match vid_opt {
                Some(vid) => {
                    proof {
                        assert(contrib_vid(self.embeddings@[j as int]) == Some(vid@));
                    }
                    let score = cosine_similarity(query_vector, row.vector.as_slice());
                    let m = r.len();
                    let mut pos: usize = 0;
                    let mut found = false;
                    let mut t: usize = 0;
                    while t < m && !found
                        invariant
                            t <= m,
                            m == r@.len(),
                            !found ==> forall|l: int| 0 <= l < t ==> (#[trigger] r@[l]).0@ != vid@,
                            found ==> pos < m && r@[pos as int].0@ == vid@,
                        decreases m - t,
                    {
                        if r[t].0 == vid {
                            pos = t;
                            found = true;
                        }
                        t = t + 1;
                    }
                    if found {
                        proof {
                            assert(contrib_vids(pre).contains(vid@)) by {
                                assert(contrib_vids(pre)[pos as int] == vid@);
                            }
                            assert(contrib_vids(cur) == contrib_vids(pre));
                            assert(has_contrib(pre, vid@)) by {
                                lemma_contrib_vids_have_contrib(pre, pos as int);
                            }
                        }
                        let old_score = r[pos].1;
                        if score > old_score {
                            let vid_keep = r[pos].0.clone();
                            r.set(pos, (vid_keep, score));
                        }
                        proof {
                            lemma_sem_scores_step(pre, cur, query_vector@, r@, vid@, pos as int);
                        }
                    } else {
                        proof {
                            assert(!contrib_vids(pre).contains(vid@)) by {
                                if contrib_vids(pre).contains(vid@) {
                                    let w = choose|w: int|
                                        0 <= w < contrib_vids(pre).len() && contrib_vids(pre)[w]
                                            == vid@;
                                    assert(r@[w].0@ == vid@);
                                }
                            }
                            assert(contrib_vids(cur) == contrib_vids(pre).push(vid@));
                            assert(!has_contrib(pre, vid@)) by {
                                if has_contrib(pre, vid@) {
                                    let w = choose|w: int|
                                        0 <= w < pre.len() && contrib_vid(#[trigger] pre[w])
                                            == Some(vid@);
                                    lemma_contrib_row_listed(pre, w);
                                }
                            }
                        }
                        r.push((vid, score));
                        proof {
                            lemma_sem_scores_step_new(
                                pre,
                                cur,
                                query_vector@,
                                r@,
                                r@[r@.len() - 1].0@,
                            );
                        }
                    }
                },
                None => {
                    proof {
                        assert(contrib_vid(self.embeddings@[j as int]) is None);
                        assert(contrib_vids(cur) == contrib_vids(pre));
                        lemma_sem_scores_skip(pre, cur, query_vector@, r@);
                    }
                },
            }
        }
        proof {
            assert(self.embeddings@.subrange(0, n as int) =~= self.embeddings@);
        }
        r
    }
}

/// The composite embedding key of one transcript chunk.
pub open spec fn chunk_key_of(vid: Seq<char>, idx: int) -> Seq<char> {
    vid + ":"@ + dec_of(idx)
}

/// A chunk of this video whose embedding under the default model is
/// stored.
pub open spec fn chunk_ev_pred(db: Database, vid: Seq<char>) -> spec_fn(TranscriptChunk) -> bool {
    |c: TranscriptChunk|
        c.video_id@ == vid && db.has_emb(
            (EmbeddingSource::Chunk, chunk_key_of(vid, c.chunk_index as int), "default"@),
        )
}

/// A claim of this video whose stored embedding scores above the fixed
/// similarity threshold against the query vector.
pub open spec fn claim_ev_pred(db: Database, vid: Seq<char>, q: Seq<i64>) -> spec_fn(Claim) -> bool {
    |c: Claim|
        c.video_id@ == vid && db.has_emb((EmbeddingSource::Claim, dec_of(c.id as int), "default"@))
            && spec_cosine(
            q,
            db.emb_vector_of((EmbeddingSource::Claim, dec_of(c.id as int), "default"@)),
        ) > SCORE_SCALE / 2
}

impl Database {
    /// The chunks of this video that carry a stored embedding, each scored
    /// against the query vector.
    #[verifier::loop_isolation(false)]
    pub fn matching_chunks_for(&self, video_id: &str, query_vector: &[i64]) -> (r: Vec<ChunkMatch>)
        requires
            self.wf(),
            query_vector@.len() <= MAX_DIM,
            forall|i: int|
                0 <= i < query_vector@.len() ==> -MAX_COMPONENT <= #[trigger] query_vector@[i]
                    <= MAX_COMPONENT,
        ensures
            ({
                let kept = self.chunks@.filter(chunk_ev_pred(*self, video_id@));
                &&& r@.len() == kept.len()
                &&& forall|i: int|
                    0 <= i < kept.len() ==> crate::store::chunk_like(
                        (#[trigger] r@[i]).chunk,
                        kept[i],
                    ) && r@[i].score as int == spec_cosine(
                        query_vector@,
                        self.emb_vector_of(
                            (
                                EmbeddingSource::Chunk,
                                chunk_key_of(video_id@, kept[i].chunk_index as int),
                                "default"@,
                            ),
                        ),
                    )
            }),
    {
        let ghost pred = chunk_ev_pred(*self, video_id@);
        let n = self.chunks.len();
        let mut r: Vec<ChunkMatch> = Vec::new();
        for j in 0..n
            invariant
                r@.len() == self.chunks@.subrange(0, j as int).filter(pred).len(),
                forall|x: int|
                    0 <= x < r@.len() ==> crate::store::chunk_like(
                        (#[trigger] r@[x]).chunk,
                        self.chunks@.subrange(0, j as int).filter(pred)[x],
                    ) && r@[x].score as int == spec_cosine(
                        query_vector@,
                        self.emb_vector_of(
                            (
                                EmbeddingSource::Chunk,
                                chunk_key_of(
                                    video_id@,
                                    self.chunks@.subrange(0, j as int).filter(
                                        pred,
                                    )[x].chunk_index as int,
                                ),
                                "default"@,
                            ),
                        ),
                    ),
        {
            proof {
                reveal(Seq::filter);
                let s1 = self.chunks@.subrange(0, j + 1);
                assert(s1.drop_last() =~= self.chunks@.subrange(0, j as int));
                assert(s1.last() == self.chunks@[j as int]);
            }
            let c = &self.chunks[j];
            if crate::store::str_eq_string(video_id, &c.video_id) {
                let mut key = video_id.to_owned();
                key.append(":");
                key.append(format_i64(c.chunk_index as i64).as_str());
                proof {
                    assert(key@ == chunk_key_of(video_id@, c.chunk_index as int));
                }
                match self.get_embedding(EmbeddingSource::Chunk, key.as_str(), "default") {
                    Some(e) => {
                        proof {
                            let k = (EmbeddingSource::Chunk, key@, "default"@);
                            let w = choose|w: int|
                                0 <= w < self.embeddings@.len() && crate::store::emb_like(
                                    e,
                                    #[trigger] self.embeddings@[w],
                                ) && emb_key(self.embeddings@[w]) == k;
                            let ci = self.emb_index_of(k);
                            assert(0 <= ci < self.embeddings@.len() && emb_key(
                                self.embeddings@[ci],
                            ) == k);
                            if ci != w {
                                assert(emb_key(self.embeddings@[ci]) != emb_key(
                                    self.embeddings@[w],
                                ));
                            }
                            assert(e.vector@ == self.emb_vector_of(k));
                            assert(crate::store::valid_vector(self.embeddings@[w].vector@));
                        }
                        let score = cosine_similarity(query_vector, e.vector.as_slice());
                        r.push(ChunkMatch { chunk: crate::store::clone_chunk(c), score });
                    },
                    None => {
                        proof {
                            assert(!pred(self.chunks@[j as int]));
                        }
                    },
                }
            }
        }
        proof {
            assert(self.chunks@.subrange(0, n as int) =~= self.chunks@);
        }
        r
    }

    /// The claims of this video whose stored embedding scores above the
    /// fixed similarity threshold (half of `SCORE_SCALE`, the fixed-point
    /// form of 0.5) against the query vector.
    #[verifier::loop_isolation(false)]
    pub fn matching_claims_for(&self, video_id: &str, query_vector: &[i64]) -> (r: Vec<Claim>)
        requires
            self.wf(),
            query_vector@.len() <= MAX_DIM,
            forall|i: int|
                0 <= i < query_vector@.len() ==> -MAX_COMPONENT <= #[trigger] query_vector@[i]
                    <= MAX_COMPONENT,
        ensures
            ({
                let kept = self.claims@.filter(claim_ev_pred(*self, video_id@, query_vector@));
                &&& r@.len() == kept.len()
                &&& forall|i: int|
                    0 <= i < kept.len() ==> crate::graph::claim_like(#[trigger] r@[i], kept[i])
            }),
    {
        let ghost pred = claim_ev_pred(*self, video_id@, query_vector@);
        let n = self.claims.len();
        let mut r: Vec<Claim> = Vec::new();
        for j in 0..n
            invariant
                r@.len() == self.claims@.subrange(0, j as int).filter(pred).len(),
                forall|x: int|
                    0 <= x < r@.len() ==> crate::graph::claim_like(
                        #[trigger] r@[x],
                        self.claims@.subrange(0, j as int).filter(pred)[x],
                    ),
        {
            proof {
                reveal(Seq::filter);
                let s1 = self.claims@.subrange(0, j + 1);
                assert(s1.drop_last() =~= self.claims@.subrange(0, j as int));
                assert(s1.last() == self.claims@[j as int]);
            }
            let c = &self.claims[j];
            if crate::store::str_eq_string(video_id, &c.video_id) {
                let key = format_i64(c.id);
                match self.get_embedding(EmbeddingSource::Claim, key.as_str(), "default") {
                    Some(e) => {
                        proof {
                            let k = (EmbeddingSource::Claim, key@, "default"@);
                            let w = choose|w: int|
                                0 <= w < self.embeddings@.len() && crate::store::emb_like(
                                    e,
                                    #[trigger] self.embeddings@[w],
                                ) && emb_key(self.embeddings@[w]) == k;
                            let ci = self.emb_index_of(k);
                            assert(0 <= ci < self.embeddings@.len() && emb_key(
                                self.embeddings@[ci],
                            ) == k);
                            if ci != w {
                                assert(emb_key(self.embeddings@[ci]) != emb_key(
                                    self.embeddings@[w],
                                ));
                            }
                            assert(e.vector@ == self.emb_vector_of(k));
                            assert(crate::store::valid_vector(self.embeddings@[w].vector@));
                        }
                        let score = cosine_similarity(query_vector, e.vector.as_slice());
                        if score > SCORE_SCALE / 2 {
                            r.push(crate::graph::clone_claim_row(c));
                        } else {
                            proof {
                                assert(!pred(self.claims@[j as int]));
                            }
                        }
                    },
                    None => {
                        proof {
                            assert(!pred(self.claims@[j as int]));
                        }
                    },
                }
            }
        }
        proof {
            assert(self.claims@.subrange(0, n as int) =~= self.claims@);
        }
        r
    }
}

/// One fusion result agrees with the pipeline entry it ranks: the stored
/// video, both signal scores, their weighted combination, and the attached
/// evidence.
pub open spec fn hybrid_row_ok(
    db: Database,
    qv: Option<Seq<i64>>,
    hr: HybridSearchResult,
    t: (Seq<char>, int, int),
    kw_weight: int,
    sem_weight: int,
) -> bool {
    &&& hr.video.id@ == t.0
    &&& video_like(hr.video, db.videos@[db.video_index_of(t.0)])
    &&& hr.keyword_score as int == t.1
    &&& hr.semantic_score as int == t.2
    &&& hr.combined_score as int == t.1 * kw_weight + t.2 * sem_weight
    &&& match qv {
        Some(q) => {
            let chunks_kept = db.chunks@.filter(chunk_ev_pred(db, t.0));
            let claims_kept = db.claims@.filter(claim_ev_pred(db, t.0, q));
            &&& hr.matching_chunks@.len() == chunks_kept.len()
            &&& forall|i: int|
                0 <= i < chunks_kept.len() ==> crate::store::chunk_like(
                    (#[trigger] hr.matching_chunks@[i]).chunk,
                    chunks_kept[i],
                ) && hr.matching_chunks@[i].score as int == spec_cosine(
                    q,
                    db.emb_vector_of(
                        (
                            EmbeddingSource::Chunk,
                            chunk_key_of(t.0, chunks_kept[i].chunk_index as int),
                            "default"@,
                        ),
                    ),
                )
            &&& hr.matching_claims@.len() == claims_kept.len()
            &&& forall|i: int|
                0 <= i < claims_kept.len() ==> crate::graph::claim_like(
                    #[trigger] hr.matching_claims@[i],
                    claims_kept[i],
                )
        },
        None => hr.matching_chunks@.len() == 0 && hr.matching_claims@.len() == 0,
    }
}

impl Database {
    /// Fusion search: keyword and semantic signals combined per video into
    /// one ranking.  Keyword scores come from hit ranks, semantic scores
    /// from the best embedding contribution; a video missing one signal
    /// contributes zero for it.  Results come by non-increasing combined
    /// score, cut to `limit`, each with its matching chunks and claims as
    /// evidence.
    #[verifier::loop_isolation(false)]
    #[verifier::rlimit(80)]
    pub fn hybrid_search(
        &self,
        query: &str,
        query_vector: Option<&[i64]>,
        keyword_weight: i64,
        semantic_weight: i64,
        limit: usize,
    ) -> (r: Vec<HybridSearchResult>)
        requires
            self.wf(),
            match query_vector {
                Some(q) => q@.len() <= MAX_DIM && forall|i: int|
                    0 <= i < q@.len() ==> -MAX_COMPONENT <= #[trigger] q@[i] <= MAX_COMPONENT,
                None => true,
            },
        ensures
            ({
                let qv = match query_vector {
                    Some(q) => Some(q@),
                    None => None::<Seq<i64>>,
                };
                let picked = hybrid_results(
                    *self,
                    query@,
                    qv,
                    keyword_weight as int,
                    semantic_weight as int,
                    limit as int,
                );
                &&& r@.len() == picked.len()
                &&& forall|i: int|
                    0 <= i < r@.len() ==> hybrid_row_ok(
                        *self,
                        qv,
                        #[trigger] r@[i],
                        picked[i],
                        keyword_weight as int,
                        semantic_weight as int,
                    )
            }),
            forall|i: int, j: int|
                0 <= i < j < r@.len() ==> r@[i].combined_score >= r@[j].combined_score,
    {
        let ghost qvg: Option<Seq<i64>> = match query_vector {
            Some(q) => Some(q@),
            None => None,
        };
        let ghost wk = keyword_weight as int;
        let ghost ws = semantic_weight as int;
        let ghost spec_entries = hybrid_entries(*self, query@, qvg);
        let ghost hits = keyword_hits(*self, query@);
        let kw_results = self.search_with_timestamps(query);
        let n = kw_results.len();
        let sem: Vec<(String, i64)> = match query_vector {
            Some(qv) => self.semantic_scores(qv),
            None => Vec::new(),
        };
        let mut entries: Vec<(String, i64, i64)> = Vec::new();
        for i in 0..n
            invariant
                n == hits.len(),
                entries@.len() == i,
                forall|x: int|
                    0 <= x < i ==> (#[trigger] entries@[x]).0@ == spec_entries[x].0
                        && entries@[x].1 as int == spec_entries[x].1 && entries@[x].2 as int
                        == spec_entries[x].2,
                forall|x: int|
                    0 <= x < i ==> 0 <= (#[trigger] entries@[x]).1 <= SCORE_SCALE && -SCORE_SCALE
                        <= entries@[x].2 <= SCORE_SCALE,
                sem_assoc_ok(*self, qvg, sem@),
        {
            let vid = kw_results[i].video.id.clone();
            proof {
                assert(vid@ == hits[i as int].video_id@);
            }
            let kw = Self::kw_score_at(n, i);
            let sem_v = lookup_sem(self, &sem, &vid, query_vector);
            entries.push((vid, kw, sem_v));
            proof {
                assert(spec_entries[i as int] == (
                    hits[i as int].video_id@,
                    kw_rank_score(n as int, i as int),
                    sem_term(*self, qvg, hits[i as int].video_id@),
                ));
            }
        }
        let m = sem.len();
        let ghost cv = contrib_vids(self.embeddings@);
        let ghost nh = not_hit_pred(*self, query@);
        for k in 0..m
            invariant
                n == hits.len(),
                m == sem@.len(),
                sem_assoc_ok(*self, qvg, sem@),
                qvg is Some ==> m == cv.len() && forall|x: int|
                    0 <= x < m ==> (#[trigger] sem@[x]).0@ == cv[x],
                entries@.len() == n + cv.subrange(0, k as int).filter(nh).len(),
                forall|x: int|
                    0 <= x < entries@.len() ==> (#[trigger] entries@[x]).0@ == spec_entries[x].0
                        && entries@[x].1 as int == spec_entries[x].1 && entries@[x].2 as int
                        == spec_entries[x].2,
                forall|x: int|
                    0 <= x < entries@.len() ==> 0 <= (#[trigger] entries@[x]).1 <= SCORE_SCALE
                        && -SCORE_SCALE <= entries@[x].2 <= SCORE_SCALE,
        {
            proof {
                reveal(Seq::filter);
                let s1 = cv.subrange(0, k + 1);
                assert(s1.drop_last() =~= cv.subrange(0, k as int));
                assert(s1.last() == cv[k as int]);
            }
            let mut found = false;
            let mut t: usize = 0;
            while t < n && !found
                invariant
                    t <= n,
                    n == kw_results@.len(),
                    n == hits.len(),
                    k < m,
                    m == sem@.len(),
                    forall|x: int|
                        0 <= x < n ==> crate::lexical::search_hit_ok(
                            *self,
                            query@,
                            #[trigger] kw_results@[x],
                            hits[x],
                        ),
                    !found ==> forall|l: int| 0 <= l < t ==> hits[l].video_id@ != sem@[k as int].0@,
                    found ==> exists|l: int| 0 <= l < n && hits[l].video_id@ == sem@[k as int].0@,
                decreases n - t,
            {
                if kw_results[t].video.id == sem[k].0 {
                    found = true;
                    proof {
                        assert(hits[t as int].video_id@ == sem@[k as int].0@);
                    }
                }
                t = t + 1;
            }
            let ghost kwv = Seq::new(hits.len(), |i: int| hits[i].video_id@);
            proof {
                if found {
                    let l = choose|l: int| 0 <= l < n && hits[l].video_id@ == sem@[k as int].0@;
                    assert(kwv[l] == sem@[k as int].0@);
                    assert(kwv.contains(sem@[k as int].0@));
                    assert(!nh(cv[k as int]));
                } else {
                    if kwv.contains(sem@[k as int].0@) {
                        let l = choose|l: int| 0 <= l < kwv.len() && kwv[l] == sem@[k as int].0@;
                        assert(hits[l].video_id@ == sem@[k as int].0@);
                    }
                    assert(nh(cv[k as int]));
                }
            }
            if !found {
                let vid = sem[k].0.clone();
                let score = sem[k].1;
                entries.push((vid, 0, score));
                proof {
                    assert(qvg is Some) by {
                        if qvg is None {
                            assert(sem@.len() == 0);
                        }
                    }
                    let extras = hybrid_extras(*self, query@, qvg);
                    let pos = entries@.len() - 1;
                    assert(extras == cv.filter(nh));
                    lemma_filter_prefix_extends(cv, nh, k as int);
                    lemma_filter_prefix_index(cv, nh, k as int);
                    let fplen = cv.subrange(0, k as int).filter(nh).len() as int;
                    assert(pos == n + fplen);
                    assert(fplen < extras.len());
                    assert(extras[fplen] == cv[k as int]);
                    assert(spec_entries[pos] == (
                        extras[pos - n],
                        0int,
                        sem_term(*self, qvg, extras[pos - n]),
                    ));
                    assert(sem@[k as int].0@ == cv[k as int]);
                    assert(sem@[k as int].1 as int == sem_term(*self, qvg, cv[k as int]));
                }
            }
        }
        proof {
            reveal(Seq::filter);
            if qvg is Some {
                assert(cv.subrange(0, m as int) =~= cv);
            } else {
                assert(cv.subrange(0, 0).filter(nh) =~= Seq::<Seq<char>>::empty());
            }
            assert(entries@.len() == spec_entries.len());
        }
        let en = entries.len();
        let mut combined: Vec<(usize, i128)> = Vec::new();
        for t in 0..en
            invariant
                en == entries@.len(),
                combined@.len() == t,
                forall|x: int|
                    0 <= x < t ==> (#[trigger] combined@[x]).0 == x && combined@[x].1 as int
                        == spec_entries[x].1 * wk + spec_entries[x].2 * ws,
                forall|x: int|
                    0 <= x < entries@.len() ==> (#[trigger] entries@[x]).0@ == spec_entries[x].0
                        && entries@[x].1 as int == spec_entries[x].1 && entries@[x].2 as int
                        == spec_entries[x].2,
                forall|x: int|
                    0 <= x < entries@.len() ==> 0 <= (#[trigger] entries@[x]).1 <= SCORE_SCALE
                        && -SCORE_SCALE <= entries@[x].2 <= SCORE_SCALE,
        {
            let e1 = entries[t].1;
            let e2 = entries[t].2;
            proof {
                let big: int = 0x8000_0000_0000_0000;
                assert(-1_000_000 * big <= (e1 as int) * (keyword_weight as int) <= 1_000_000
                    * big) by (nonlinear_arith)
                    requires
                        -1_000_000 <= e1 as int <= 1_000_000,
                        -big <= (keyword_weight as int) && (keyword_weight as int) < big,
                        big == 0x8000_0000_0000_0000,
                ;
                assert(-1_000_000 * big <= (e2 as int) * (semantic_weight as int) <= 1_000_000
                    * big) by (nonlinear_arith)
                    requires
                        -1_000_000 <= e2 as int <= 1_000_000,
                        -big <= (semantic_weight as int) && (semantic_weight as int) < big,
                        big == 0x8000_0000_0000_0000,
                ;
            }
            let c: i128 = (e1 as i128) * (keyword_weight as i128) + (e2 as i128)
                * (semantic_weight as i128);
            combined.push((t, c));
        }
        let ranked_idx = sort_wide_desc(&combined);
        proof {
            let rel = |a: (usize, i128), b: (Seq<char>, int, int)|
                {
                    &&& 0 <= a.0 < entries@.len()
                    &&& entries@[a.0 as int].0@ == b.0
                    &&& entries@[a.0 as int].1 as int == b.1
                    &&& entries@[a.0 as int].2 as int == b.2
                    &&& a.1 as int == b.1 * wk + b.2 * ws
                };
            assert forall|x: int| 0 <= x < combined@.len() implies rel(
                #[trigger] combined@[x],
                spec_entries[x],
            ) && pair_wide_key()(combined@[x]) == comb_key(wk, ws)(spec_entries[x]) by {
                assert(combined@[x].0 == x);
            }
            lemma_sort_desc_parallel(
                combined@,
                spec_entries,
                pair_wide_key(),
                comb_key(wk, ws),
                rel,
            );
            lemma_sort_desc_sorted(spec_entries, comb_key(wk, ws));
        }
        let ghost spec_ranked = hybrid_ranked(*self, query@, qvg, wk, ws);
        let total = ranked_idx.len();
        let take = if limit <= total {
            limit
        } else {
            total
        };
        let ghost taken = spec_ranked.subrange(0, take as int);
        let ghost hv = exists_video_pred(*self);
        let mut r: Vec<HybridSearchResult> = Vec::new();
        for k in 0..take
            invariant
                take <= total,
                total == ranked_idx@.len(),
                ranked_idx@.len() == spec_ranked.len(),
                en == entries@.len(),
                taken == spec_ranked.subrange(0, take as int),
                forall|x: int|
                    0 <= x < total ==> 0 <= (#[trigger] ranked_idx@[x]).0 < entries@.len()
                        && entries@[ranked_idx@[x].0 as int].0@ == spec_ranked[x].0
                        && entries@[ranked_idx@[x].0 as int].1 as int == spec_ranked[x].1
                        && entries@[ranked_idx@[x].0 as int].2 as int == spec_ranked[x].2
                        && ranked_idx@[x].1 as int == spec_ranked[x].1 * wk + spec_ranked[x].2
                        * ws,
                forall|x: int, y: int|
                    0 <= x < y < spec_ranked.len() ==> comb_key(wk, ws)(#[trigger] spec_ranked[x])
                        >= comb_key(wk, ws)(#[trigger] spec_ranked[y]),
                r@.len() == taken.subrange(0, k as int).filter(hv).len(),
                forall|x: int|
                    0 <= x < r@.len() ==> hybrid_row_ok(
                        *self,
                        qvg,
                        #[trigger] r@[x],
                        taken.subrange(0, k as int).filter(hv)[x],
                        wk,
                        ws,
                    ),
                forall|x: int|
                    0 <= x < r@.len() ==> forall|j: int|
                        k <= j < spec_ranked.len() ==> (#[trigger] r@[x]).combined_score as int
                            >= comb_key(wk, ws)(#[trigger] spec_ranked[j]),
                forall|x: int, y: int|
                    0 <= x < y < r@.len() ==> r@[x].combined_score >= r@[y].combined_score,
        {
            proof {
                reveal(Seq::filter);
                let s1 = taken.subrange(0, k + 1);
                assert(s1.drop_last() =~= taken.subrange(0, k as int));
                assert(s1.last() == taken[k as int]);
                assert(taken[k as int] == spec_ranked[k as int]);
            }
            let pair = ranked_idx[k];
            let tidx = pair.0;
            let c = pair.1;
            let e = &entries[tidx];
            match self.get_video(e.0.as_str()) {
                Some(video) => {
                    proof {
                        assert(self.has_video(e.0@));
                        assert(hv(taken[k as int]));
                        let w = choose|w: int|
                            0 <= w < self.videos@.len() && (#[trigger] self.videos@[w]).id@
                                == e.0@ && video_like(video, self.videos@[w]);
                        let ci = self.video_index_of(e.0@);
                        assert(0 <= ci < self.videos@.len() && self.videos@[ci].id@ == e.0@);
                        if ci != w {
                            assert(self.videos@[ci].id@ != self.videos@[w].id@);
                        }
                    }
                    let mut matching_chunks: Vec<ChunkMatch> = Vec::new();
                    let mut matching_claims: Vec<Claim> = Vec::new();
                    match query_vector {
                        Some(qv) => {
                            matching_chunks = self.matching_chunks_for(e.0.as_str(), qv);
                            matching_claims = self.matching_claims_for(e.0.as_str(), qv);
                        },
                        None => {},
                    }
                    r.push(
                        HybridSearchResult {
                            video,
                            keyword_score: e.1,
                            semantic_score: e.2,
                            combined_score: c,
                            matching_chunks,
                            matching_claims,
                        },
                    );
                },
                None => {
                    proof {
                        assert(!self.has_video(e.0@));
                        assert(!hv(taken[k as int]));
                    }
                },
            }
        }
        proof {
            assert(taken.subrange(0, take as int) =~= taken);
            let picked = hybrid_results(*self, query@, qvg, wk, ws, limit as int);
            if (limit as int) <= spec_ranked.len() {
                assert(taken =~= spec_ranked.subrange(0, limit as int));
            } else {
                assert(taken =~= spec_ranked);
            }
            assert(picked == taken.filter(hv));
        }
        r
    }
}

/// The semantic association list is exact: its keys are the contributor
/// videos in first-contribution order, each with its best score.
pub open spec fn sem_assoc_ok(db: Database, qv: Option<Seq<i64>>, sem: Seq<(String, i64)>) -> bool {
    match qv {
        Some(q) => {
            &&& sem.len() == contrib_vids(db.embeddings@).len()
            &&& forall|k: int|
                0 <= k < sem.len() ==> (#[trigger] sem[k]).0@ == contrib_vids(db.embeddings@)[k]
            &&& forall|k: int|
                0 <= k < sem.len() ==> (#[trigger] sem[k]).1 as int == sem_of(db, q, sem[k].0@)
            &&& forall|k: int|
                0 <= k < sem.len() ==> -SCORE_SCALE <= (#[trigger] sem[k]).1 <= SCORE_SCALE
        },
        None => sem.len() == 0,
    }
}

/// Looks up a video's semantic score in the association list; a video with
/// no contributions scores zero.
#[verifier::loop_isolation(false)]
fn lookup_sem(
    db: &Database,
    sem: &Vec<(String, i64)>,
    vid: &String,
    query_vector: Option<&[i64]>,
) -> (r: i64)
    requires
        sem_assoc_ok(
            *db,
            match query_vector {
                Some(q) => Some(q@),
                None => None::<Seq<i64>>,
            },
            sem@,
        ),
    ensures
        r as int == sem_term(
            *db,
            match query_vector {
                Some(q) => Some(q@),
                None => None::<Seq<i64>>,
            },
            vid@,
        ),
        -SCORE_SCALE <= r <= SCORE_SCALE,
{
    let m = sem.len();
    let mut t: usize = 0;
    while t < m
        invariant
            t <= m,
            m == sem@.len(),
            forall|l: int| 0 <= l < t ==> (#[trigger] sem@[l]).0@ != vid@,
        decreases m - t,
    {
        if sem[t].0 == *vid {
            return sem[t].1;
        }
        t = t + 1;
    }
    proof {
        match query_vector {
            Some(q) => {
                assert(!has_contrib(db.embeddings@, vid@)) by {
                    if has_contrib(db.embeddings@, vid@) {
                        let w = choose|w: int|
                            0 <= w < db.embeddings@.len() && contrib_vid(
                                #[trigger] db.embeddings@[w],
                            ) == Some(vid@);
                        lemma_contrib_row_listed(db.embeddings@, w);
                        let cvs = contrib_vids(db.embeddings@);
                        let k = choose|k: int| 0 <= k < cvs.len() && cvs[k] == vid@;
                        assert(sem@[k].0@ == vid@);
                    }
                }
            },
            None => {},
        }
    }
    0
}

/// The filtered prefix grows exactly when the next element passes the
/// filter.
proof fn lemma_filter_prefix_extends(s: Seq<Seq<char>>, pred: spec_fn(Seq<char>) -> bool, k: int)
    requires
        0 <= k < s.len(),
        pred(s[k]),
    ensures
        s.subrange(0, k + 1).filter(pred).len() == s.subrange(0, k).filter(pred).len() + 1,
        s.subrange(0, k + 1).filter(pred)[s.subrange(0, k).filter(pred).len() as int] == s[k],
{
    reveal(Seq::filter);
    let s1 = s.subrange(0, k + 1);
    assert(s1.drop_last() =~= s.subrange(0, k));
    assert(s1.last() == s[k]);
}

/// Each element of a filtered prefix stays in place as the prefix grows to
/// the full sequence.
proof fn lemma_filter_prefix_index(s: Seq<Seq<char>>, pred: spec_fn(Seq<char>) -> bool, k: int)
    requires
        0 <= k < s.len(),
        pred(s[k]),
    ensures
        s.subrange(0, k).filter(pred).len() < s.filter(pred).len(),
        s.filter(pred)[s.subrange(0, k).filter(pred).len() as int] == s[k],
    decreases s.len(),
{
    reveal(Seq::filter);
    if k == s.len() - 1 {
        assert(s.subrange(0, k) =~= s.drop_last());
        assert(s.filter(pred) == s.drop_last().filter(pred).push(s[k]));
    } else {
        let s0 = s.drop_last();
        assert(s0.subrange(0, k) =~= s.subrange(0, k));
        assert(s0[k] == s[k]);
        lemma_filter_prefix_index(s0, pred, k);
        if pred(s.last()) {
            assert(s.filter(pred) == s0.filter(pred).push(s.last()));
            assert(s.filter(pred)[s.subrange(0, k).filter(pred).len() as int] == s0.filter(pred)[
                s.subrange(0, k).filter(pred).len() as int]);
        } else {
            assert(s.filter(pred) == s0.filter(pred));
        }
    }
}

/// With full keyword weight and zero semantic weight the fusion ranking is
/// the keyword ranking: the pipeline reorders nothing, and every keyword
/// hit keeps exactly the rank the lexical search gave it.
pub proof fn lemma_hybrid_pure_keyword(db: Database, q: Seq<char>, qv: Option<Seq<i64>>)
    ensures
        hybrid_ranked(db, q, qv, 1, 0) == hybrid_entries(db, q, qv),
        forall|i: int|
            0 <= i < keyword_hits(db, q).len() ==> (#[trigger] hybrid_ranked(db, q, qv, 1, 0)[i]).0
                == keyword_hits(db, q)[i].video_id@ && hybrid_ranked(db, q, qv, 1, 0)[i].1
                == kw_rank_score(keyword_hits(db, q).len() as int, i),
{
    let entries = hybrid_entries(db, q, qv);
    let key = comb_key(1, 0);
    let hits = keyword_hits(db, q);
    let n = hits.len() as int;
    assert forall|i: int, j: int| 0 <= i < j < entries.len() implies key(#[trigger] entries[i])
        >= key(#[trigger] entries[j]) by {
        assert(key(entries[i]) == entries[i].1);
        assert(key(entries[j]) == entries[j].1);
        if j < n {
            assert(entries[i].1 == kw_rank_score(n, i));
            assert(entries[j].1 == kw_rank_score(n, j));
            lemma_kw_rank_monotone(n, i, j);
        } else if i < n {
            assert(entries[i].1 == kw_rank_score(n, i));
            assert(entries[j].1 == 0);
            lemma_kw_rank_nonneg(n, i);
        } else {
            assert(entries[i].1 == 0 && entries[j].1 == 0);
        }
    }
    lemma_sort_desc_of_sorted(entries, key);
    assert(forall|i: int|
        0 <= i < n ==> (#[trigger] entries[i]) == (
            hits[i].video_id@,
            kw_rank_score(n, i),
            sem_term(db, qv, hits[i].video_id@),
        ));
}

/// With zero keyword weight and full semantic weight the fusion ranking
/// orders purely by the semantic score: the best of a video's own
/// embedding score and its chunks' scores.
pub proof fn lemma_hybrid_pure_semantic(db: Database, q: Seq<char>, qs: Seq<i64>)
    ensures
        hybrid_ranked(db, q, Some(qs), 0, 1).len() == hybrid_entries(db, q, Some(qs)).len(),
        forall|i: int|
            0 <= i < hybrid_ranked(db, q, Some(qs), 0, 1).len() ==> (#[trigger] hybrid_ranked(
                db,
                q,
                Some(qs),
                0,
                1,
            )[i]).2 == sem_of(db, qs, hybrid_ranked(db, q, Some(qs), 0, 1)[i].0),
        forall|i: int, j: int|
            0 <= i < j < hybrid_ranked(db, q, Some(qs), 0, 1).len() ==> (#[trigger] hybrid_ranked(
                db,
                q,
                Some(qs),
                0,
                1,
            )[i]).2 >= (#[trigger] hybrid_ranked(db, q, Some(qs), 0, 1)[j]).2,
{
    let entries = hybrid_entries(db, q, Some(qs));
    let key = comb_key(0, 1);
    let ranked = hybrid_ranked(db, q, Some(qs), 0, 1);
    let hits = keyword_hits(db, q);
    let n = hits.len() as int;
    let extras = hybrid_extras(db, q, Some(qs));
    assert forall|k: int| 0 <= k < entries.len() implies (#[trigger] entries[k]).2 == sem_of(
        db,
        qs,
        entries[k].0,
    ) by {
        if k < n {
            assert(entries[k] == (
                hits[k].video_id@,
                kw_rank_score(n, k),
                sem_term(db, Some(qs), hits[k].video_id@),
            ));
        } else {
            assert(entries[k] == (
                extras[k - n],
                0int,
                sem_term(db, Some(qs), extras[k - n]),
            ));
        }
    }
    crate::rank::lemma_sort_desc_membership(entries, key);
    lemma_sort_desc_sorted(entries, key);
    assert forall|i: int| 0 <= i < ranked.len() implies (#[trigger] ranked[i]).2 == sem_of(
        db,
        qs,
        ranked[i].0,
    ) by {
        assert(entries.contains(ranked[i]));
        let w = choose|w: int| 0 <= w < entries.len() && entries[w] == ranked[i];
        assert(entries[w].2 == sem_of(db, qs, entries[w].0));
    }
    assert forall|i: int, j: int| 0 <= i < j < ranked.len() implies (#[trigger] ranked[i]).2 >= (
    #[trigger] ranked[j]).2 by {
        assert(key(ranked[i]) >= key(ranked[j]));
        assert(key(ranked[i]) == ranked[i].2 && key(ranked[j]) == ranked[j].2);
    }
}

/// The rank-derived keyword score never increases with the rank.
proof fn lemma_kw_rank_monotone(n: int, i: int, j: int)
    requires
        0 <= i <= j < n,
    ensures
        kw_rank_score(n, i) >= kw_rank_score(n, j),
{
    assert((n - j) * SCORE_SCALE <= (n - i) * SCORE_SCALE) by (nonlinear_arith)
        requires
            0 < n - j <= n - i,
    ;
    vstd::arithmetic::div_mod::lemma_div_is_ordered(
        (n - j) * SCORE_SCALE,
        (n - i) * SCORE_SCALE,
        n,
    );
}

/// The rank-derived keyword score is never negative.
proof fn lemma_kw_rank_nonneg(n: int, i: int)
    requires
        0 <= i < n,
    ensures
        kw_rank_score(n, i) >= 0,
{
    assert(0 <= (n - i) * SCORE_SCALE) by (nonlinear_arith)
        requires
            0 < n - i,
    ;
    vstd::arithmetic::div_mod::lemma_div_is_ordered(0, (n - i) * SCORE_SCALE, n);
    assert(0int / n == 0) by {
        vstd::arithmetic::div_mod::lemma_div_of0(n);
    }
}

/// A row listed in `contrib_vids` really has a contributor.
proof fn lemma_contrib_vids_have_contrib(rows: Seq<Embedding>, k: int)
    requires
        0 <= k < contrib_vids(rows).len(),
    ensures
        has_contrib(rows, contrib_vids(rows)[k]),
    decreases rows.len(),
{
    if rows.len() > 0 {
        let pre = rows.drop_last();
        let pv = contrib_vids(pre);
        assert forall|v: Seq<char>| has_contrib(pre, v) implies has_contrib(rows, v) by {
            let w = choose|w: int| 0 <= w < pre.len() && contrib_vid(#[trigger] pre[w]) == Some(v);
            assert(contrib_vid(rows[w]) == Some(v));
        }
        match contrib_vid(rows.last()) {
            Some(v) => {
                if pv.contains(v) {
                    lemma_contrib_vids_have_contrib(pre, k);
                } else {
                    if k < pv.len() {
                        lemma_contrib_vids_have_contrib(pre, k);
                    } else {
                        assert(contrib_vids(rows)[k] == v);
                        assert(contrib_vid(rows[rows.len() - 1]) == Some(v));
                    }
                }
            },
            None => {
                lemma_contrib_vids_have_contrib(pre, k);
            },
        }
    }
}

/// A row with a contributor is listed in `contrib_vids`.
proof fn lemma_contrib_row_listed(rows: Seq<Embedding>, w: int)
    requires
        0 <= w < rows.len(),
        contrib_vid(rows[w]) is Some,
    ensures
        contrib_vids(rows).contains(contrib_vid(rows[w])->0),
    decreases rows.len(),
{
    let v = contrib_vid(rows[w])->0;
    let pre = rows.drop_last();
    if w < rows.len() - 1 {
        assert(pre[w] == rows[w]);
        lemma_contrib_row_listed(pre, w);
        let pv = contrib_vids(pre);
        let k = choose|k: int| 0 <= k < pv.len() && pv[k] == v;
        match contrib_vid(rows.last()) {
            Some(u) => {
                if pv.contains(u) {
                    assert(contrib_vids(rows)[k] == v);
                } else {
                    assert(contrib_vids(rows)[k] == v);
                }
            },
            None => {
                assert(contrib_vids(rows)[k] == v);
            },
        }
    } else {
        let pv = contrib_vids(pre);
        if pv.contains(v) {
            let k = choose|k: int| 0 <= k < pv.len() && pv[k] == v;
            assert(contrib_vids(rows)[k] == v);
        } else {
            assert(contrib_vids(rows)[pv.len() as int] == v);
        }
    }
}

/// Stepping the semantic scan over a row that contributes to an already
/// listed video keeps every association exact.
proof fn lemma_sem_scores_step(
    pre: Seq<Embedding>,
    cur: Seq<Embedding>,
    q: Seq<i64>,
    r: Seq<(String, i64)>,
    vid: Seq<char>,
    pos: int,
)
    requires
        cur.len() == pre.len() + 1,
        cur.drop_last() == pre,
        contrib_vid(cur.last()) == Some(vid),
        0 <= pos < r.len(),
        r[pos].0@ == vid,
        forall|k: int, l: int| 0 <= k < l < r.len() ==> r[k].0@ != r[l].0@,
        forall|k: int|
            0 <= k < r.len() && k != pos ==> has_contrib(pre, (#[trigger] r[k]).0@) && r[k].1 as int
                == sem_best(pre, q, r[k].0@),
        has_contrib(pre, vid),
        r[pos].1 as int == if spec_cosine(q, cur.last().vector@) > sem_best(pre, q, vid) {
            spec_cosine(q, cur.last().vector@)
        } else {
            sem_best(pre, q, vid)
        },
    ensures
        forall|k: int|
            0 <= k < r.len() ==> has_contrib(cur, (#[trigger] r[k]).0@) && r[k].1 as int
                == sem_best(cur, q, r[k].0@),
{
    assert forall|v: Seq<char>| has_contrib(pre, v) implies has_contrib(cur, v) by {
        let w = choose|w: int| 0 <= w < pre.len() && contrib_vid(#[trigger] pre[w]) == Some(v);
        assert(contrib_vid(cur[w]) == Some(v));
    }
    assert forall|k: int| 0 <= k < r.len() implies has_contrib(cur, (#[trigger] r[k]).0@)
        && r[k].1 as int == sem_best(cur, q, r[k].0@) by {
        if k == pos {
            assert(sem_best(cur, q, vid) == if spec_cosine(q, cur.last().vector@) > sem_best(
                pre,
                q,
                vid,
            ) {
                spec_cosine(q, cur.last().vector@)
            } else {
                sem_best(pre, q, vid)
            });
        } else {
            assert(r[k].0@ != vid);
            assert(sem_best(cur, q, r[k].0@) == sem_best(pre, q, r[k].0@));
        }
    }
}

/// Stepping the semantic scan over a row that contributes to a new video
/// keeps every association exact; the new video's score is the row's own.
proof fn lemma_sem_scores_step_new(
    pre: Seq<Embedding>,
    cur: Seq<Embedding>,
    q: Seq<i64>,
    r: Seq<(String, i64)>,
    vid: Seq<char>,
)
    requires
        cur.len() == pre.len() + 1,
        cur.drop_last() == pre,
        contrib_vid(cur.last()) == Some(vid),
        r.len() >= 1,
        r[r.len() - 1].0@ == vid,
        !has_contrib(pre, vid),
        forall|k: int, l: int| 0 <= k < l < r.len() ==> r[k].0@ != r[l].0@,
        forall|k: int|
            0 <= k < r.len() - 1 ==> has_contrib(pre, (#[trigger] r[k]).0@) && r[k].1 as int
                == sem_best(pre, q, r[k].0@),
        r[r.len() - 1].1 as int == spec_cosine(q, cur.last().vector@),
    ensures
        forall|k: int|
            0 <= k < r.len() ==> has_contrib(cur, (#[trigger] r[k]).0@) && r[k].1 as int
                == sem_best(cur, q, r[k].0@),
{
    assert forall|v: Seq<char>| has_contrib(pre, v) implies has_contrib(cur, v) by {
        let w = choose|w: int| 0 <= w < pre.len() && contrib_vid(#[trigger] pre[w]) == Some(v);
        assert(contrib_vid(cur[w]) == Some(v));
    }
    assert forall|k: int| 0 <= k < r.len() implies has_contrib(cur, (#[trigger] r[k]).0@)
        && r[k].1 as int == sem_best(cur, q, r[k].0@) by {
        if k == r.len() - 1 {
            assert(contrib_vid(cur[cur.len() - 1]) == Some(vid));
            assert(has_contrib(cur, vid));
            assert(sem_best(cur, q, vid) == spec_cosine(q, cur.last().vector@));
        } else {
            assert(r[k].0@ != vid);
            assert(sem_best(cur, q, r[k].0@) == sem_best(pre, q, r[k].0@));
        }
    }
}

/// Stepping the semantic scan over a non-contributing row changes nothing.
proof fn lemma_sem_scores_skip(
    pre: Seq<Embedding>,
    cur: Seq<Embedding>,
    q: Seq<i64>,
    r: Seq<(String, i64)>,
)
    requires
        cur.len() == pre.len() + 1,
        cur.drop_last() == pre,
        contrib_vid(cur.last()) is None,
        forall|k: int|
            0 <= k < r.len() ==> has_contrib(pre, (#[trigger] r[k]).0@) && r[k].1 as int
                == sem_best(pre, q, r[k].0@),
    ensures
        forall|k: int|
            0 <= k < r.len() ==> has_contrib(cur, (#[trigger] r[k]).0@) && r[k].1 as int
                == sem_best(cur, q, r[k].0@),
{
    assert forall|k: int| 0 <= k < r.len() implies has_contrib(cur, (#[trigger] r[k]).0@)
        && r[k].1 as int == sem_best(cur, q, r[k].0@) by {
        let w = choose|w: int|
            0 <= w < pre.len() && contrib_vid(#[trigger] pre[w]) == Some(r[k].0@);
        assert(contrib_vid(cur[w]) == Some(r[k].0@));
        assert(sem_best(cur, q, r[k].0@) == sem_best(pre, q, r[k].0@));
    }
}

} // verus!
