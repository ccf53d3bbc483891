//! Brute-force cosine similarity search over the stored embedding vectors.
//!
//! Every candidate of the requested kind is scored against the query
//! vector, ranked by non-increasing score (ties keep storage order), and
//! the list is cut to the requested limit.

use vstd::prelude::*;

use crate::kinds::EmbeddingSource;
use crate::model::{Claim, Embedding, SimilarityResult, TranscriptChunk};
use crate::rank::{
    lemma_sort_desc_parallel, lemma_sort_desc_sorted, pair_score_key, sort_desc, sort_pairs_desc,
};
use crate::store::{emb_like, Database};
use crate::text::{
    chars_of, colon_prefix, colon_suffix, count_occurrences, occurrences, parse_i64_chars,
    parsed_or_zero,
    split_colon_prefix, split_colon_suffix,
};
use crate::vector::{cosine_similarity, spec_cosine, MAX_COMPONENT, MAX_DIM, SCORE_SCALE};

verus! {

/// Field-wise agreement of two scored rows.
pub open spec fn scored_like(a: (Embedding, i64), b: (Embedding, i64)) -> bool {
    emb_like(a.0, b.0) && a.1 == b.1
}

/// The ranking key of a scored row.
pub open spec fn scored_key() -> spec_fn((Embedding, i64)) -> int {
    |p: (Embedding, i64)| p.1 as int
}

/// Each candidate row paired with its fixed-point cosine score against `q`.
pub open spec fn scored_of(q: Seq<i64>, rows: Seq<Embedding>) -> Seq<(Embedding, i64)> {
    rows.map_values(|e: Embedding| (e, spec_cosine(q, e.vector@) as i64))
}

/// The candidate filter: one source kind, or every stored row.
pub open spec fn type_pred(source_type: Option<EmbeddingSource>) -> spec_fn(Embedding) -> bool {
    match source_type {
        Some(t) => |e: Embedding| e.source_type == t,
        None => |e: Embedding| true,
    }
}

/// The candidate rows of a similarity search.
pub open spec fn candidates_of(
    rows: Seq<Embedding>,
    source_type: Option<EmbeddingSource>,
) -> Seq<Embedding> {
    rows.filter(type_pred(source_type))
}

/// The full ranking a similarity search cuts its result from.
pub open spec fn ranked_of(
    q: Seq<i64>,
    rows: Seq<Embedding>,
    source_type: Option<EmbeddingSource>,
) -> Seq<(Embedding, i64)> {
    sort_desc(scored_of(q, candidates_of(rows, source_type)), scored_key())
}

impl Database {
    /// Ranks the stored embeddings (optionally restricted to one source
    /// kind) by cosine similarity against `query_vector`, highest first,
    /// and returns at most `limit` of them.  Ties keep storage order.
    #[verifier::loop_isolation(false)]
    pub fn find_similar(
        &self,
        query_vector: &[i64],
        source_type: Option<EmbeddingSource>,
        limit: usize,
    ) -> (r: Vec<(Embedding, i64)>)
        requires
            self.wf(),
            query_vector@.len() <= MAX_DIM,
            forall|i: int|
                0 <= i < query_vector@.len() ==> -MAX_COMPONENT <= #[trigger] query_vector@[i]
                    <= MAX_COMPONENT,
        ensures
            ({
                let ranked = ranked_of(query_vector@, self.embeddings@, source_type);
                &&& r@.len() == if limit <= ranked.len() {
                    limit as int
                } else {
                    ranked.len() as int
                }
                &&& forall|i: int|
                    0 <= i < r@.len() ==> scored_like(#[trigger] r@[i], ranked[i])
            }),
            r@.len() <= limit,
            forall|i: int, j: int| 0 <= i < j < r@.len() ==> r@[i].1 >= r@[j].1,
            forall|i: int| 0 <= i < r@.len() ==> -SCORE_SCALE <= #[trigger] r@[i].1 <= SCORE_SCALE,
    {
        let ghost pred = type_pred(source_type);
        let ghost rows = candidates_of(self.embeddings@, source_type);
        let n = self.embeddings.len();
        let mut scored: Vec<(usize, i64)> = Vec::new();
        for j in 0..n
            invariant
                scored@.len() == self.embeddings@.subrange(0, j as int).filter(pred).len(),
                forall|x: int|
                    0 <= x < scored@.len() ==> 0 <= (#[trigger] scored@[x]).0
                        < self.embeddings@.len() && self.embeddings@[scored@[x].0 as int]
                        == self.embeddings@.subrange(0, j as int).filter(pred)[x],
                forall|x: int|
                    0 <= x < scored@.len() ==> (#[trigger] scored@[x]).1 as int == spec_cosine(
                        query_vector@,
                        self.embeddings@.subrange(0, j as int).filter(pred)[x].vector@,
                    ),
                forall|x: int|
                    0 <= x < scored@.len() ==> -SCORE_SCALE <= (#[trigger] scored@[x]).1
                        <= SCORE_SCALE,
        {
            proof {
                reveal(Seq::filter);
                let s1 = self.embeddings@.subrange(0, j + 1);
                assert(s1.drop_last() =~= self.embeddings@.subrange(0, j as int));
                assert(s1.last() == self.embeddings@[j as int]);
            }
            let row = &self.embeddings[j];
            let keep = match source_type {
                Some(t) => row.source_type == t,
                None => true,
            };
            if keep {
                let score = cosine_similarity(row.vector.as_slice(), query_vector);
                proof {
                    crate::vector::lemma_cosine_symmetric(row.vector@, query_vector@);
                }
                scored.push((j, score));
            }
        }
        proof {
            assert(self.embeddings@.subrange(0, n as int) =~= self.embeddings@);
        }
        let ranked_idx = sort_pairs_desc(&scored);
        proof {
            let rel = |a: (usize, i64), b: (Embedding, i64)|
                {
                    &&& 0 <= a.0 < self.embeddings@.len()
                    &&& self.embeddings@[a.0 as int] == b.0
                    &&& a.1 == b.1
                };
            assert(scored@.len() == scored_of(query_vector@, rows).len());
            assert forall|x: int| 0 <= x < scored@.len() implies rel(
                #[trigger] scored@[x],
                scored_of(query_vector@, rows)[x],
            ) && pair_score_key()(scored@[x]) == scored_key()(
                scored_of(query_vector@, rows)[x],
            ) by {
                assert(scored_of(query_vector@, rows)[x] == (
                    rows[x],
                    spec_cosine(query_vector@, rows[x].vector@) as i64,
                ));
                assert(scored@[x].1 as int == spec_cosine(query_vector@, rows[x].vector@));
                assert((spec_cosine(query_vector@, rows[x].vector@) as i64) == scored@[x].1);
            }
            lemma_sort_desc_parallel(
                scored@,
                scored_of(query_vector@, rows),
                pair_score_key(),
                scored_key(),
                rel,
            );
            lemma_sort_desc_sorted(scored@, pair_score_key());
        }
        let ghost ranked = ranked_of(query_vector@, self.embeddings@, source_type);
        let total = ranked_idx.len();
        let take = if limit <= total {
            limit
        } else {
            total
        };
        let mut r: Vec<(Embedding, i64)> = Vec::new();
        for k in 0..take
            invariant
                take <= ranked_idx@.len(),
                ranked_idx@ == sort_desc(scored@, pair_score_key()),
                ranked_idx@.len() == ranked.len(),
                forall|x: int|
                    0 <= x < ranked_idx@.len() ==> 0 <= (#[trigger] ranked_idx@[x]).0
                        < self.embeddings@.len() && self.embeddings@[ranked_idx@[x].0 as int]
                        == ranked[x].0 && ranked_idx@[x].1 == ranked[x].1,
                r@.len() == k,
                forall|x: int| 0 <= x < k ==> scored_like(#[trigger] r@[x], ranked[x]),
        {
            let (idx, sc) = ranked_idx[k];
            let e = crate::store::clone_embedding(&self.embeddings[idx]);
            r.push((e, sc));
        }
        proof {
            lemma_sort_desc_sorted(scored_of(query_vector@, rows), scored_key());
            assert forall|i: int, j: int| 0 <= i < j < r@.len() implies r@[i].1 >= r@[j].1 by {
                assert(scored_key()(ranked[i]) >= scored_key()(ranked[j]));
                assert(r@[i].1 == ranked[i].1 && r@[j].1 == ranked[j].1);
            }
            assert forall|i: int| 0 <= i < r@.len() implies -SCORE_SCALE <= #[trigger] r@[i].1
                <= SCORE_SCALE by {
                assert(r@[i].1 == ranked_idx@[i].1);
                crate::rank::lemma_insert_desc_elems(
                    Seq::<(usize, i64)>::empty(),
                    (0usize, 0i64),
                    pair_score_key(),
                );
                assert(sort_desc(scored@, pair_score_key()).len() == scored@.len());
                lemma_sorted_elements_bounded(scored@, ranked_idx@, i);
            }
        }
        r
    }
}

/// What the store can say in words about an embedding row: the indexed
/// text of a video, the text of a chunk addressed by its composite key, or
/// a claim's text.  Nothing comes back for dangling references.  Summary
/// rows yield nothing by design: the store's persisted state carries no
/// summary-layer text, only the embedding itself, so there is no text to
/// look up.
pub open spec fn text_for(db: Database, e: Embedding) -> Option<Seq<char>> {
    if e.source_type == EmbeddingSource::Video {
        if db.has_video(e.source_id@) {
            Some(db.video_title_of(e.source_id@) + "\n"@ + db.video_desc_of(e.source_id@))
        } else {
            None
        }
    } else if e.source_type == EmbeddingSource::Chunk {
        if occurrences(e.source_id@, ":"@) == 1 {
            let vid = colon_prefix(e.source_id@);
            let idx = parsed_or_zero(colon_suffix(e.source_id@), -0x8000_0000, 0x7FFF_FFFF);
            if db.has_chunk_at(vid, idx) {
                Some(db.chunk_at(vid, idx).text@)
            } else {
                None
            }
        } else {
            None
        }
    } else if e.source_type == EmbeddingSource::Claim {
        let cid = parsed_or_zero(e.source_id@, -0x7FFF_FFFF_FFFF_FFFF, 0x7FFF_FFFF_FFFF_FFFF);
        if db.has_claim_num(cid) {
            Some(db.claim_at_num(cid).text@)
        } else {
            None
        }
    } else {
        None
    }
}

/// The video a similarity hit is attributed to: the video itself, the
/// owner parsed from a composite key, or the claim's video.
pub open spec fn vid_attr(db: Database, e: Embedding) -> Option<Seq<char>> {
    if e.source_type == EmbeddingSource::Video {
        Some(e.source_id@)
    } else if e.source_type == EmbeddingSource::Chunk || e.source_type
        == EmbeddingSource::Summary {
        Some(colon_prefix(e.source_id@))
    } else {
        let cid = parsed_or_zero(e.source_id@, -0x7FFF_FFFF_FFFF_FFFF, 0x7FFF_FFFF_FFFF_FFFF);
        if db.has_claim_num(cid) {
            Some(db.claim_at_num(cid).video_id@)
        } else {
            None
        }
    }
}

impl Database {
    pub open spec fn has_chunk_at(self, vid: Seq<char>, idx: int) -> bool {
        exists|i: int|
            0 <= i < self.chunks@.len() && (#[trigger] self.chunks@[i]).video_id@ == vid
                && self.chunks@[i].chunk_index == idx
    }

    pub open spec fn chunk_at(self, vid: Seq<char>, idx: int) -> TranscriptChunk {
        self.chunks@[choose|i: int|
            0 <= i < self.chunks@.len() && (#[trigger] self.chunks@[i]).video_id@ == vid
                && self.chunks@[i].chunk_index == idx]
    }

    pub open spec fn has_claim_num(self, id: int) -> bool {
        exists|i: int| 0 <= i < self.claims@.len() && (#[trigger] self.claims@[i]).id == id
    }

    pub open spec fn claim_at_num(self, id: int) -> Claim {
        self.claims@[choose|i: int|
            0 <= i < self.claims@.len() && (#[trigger] self.claims@[i]).id == id]
    }

    /// The text behind one embedding row, if the store still holds it.
    #[verifier::loop_isolation(false)]
    pub fn get_text_for_embedding(&self, embedding: &Embedding) -> (r: Option<String>)
        requires
            self.wf(),
        ensures
            r is Some <==> text_for(*self, *embedding) is Some,
            r is Some ==> r->0@ == text_for(*self, *embedding)->0,
    {
        match embedding.source_type {
            EmbeddingSource::Video => {
                match self.get_video(embedding.source_id.as_str()) {
                    Some(v) => {
                        proof {
                            let w = choose|w: int|
                                0 <= w < self.videos@.len() && (#[trigger] self.videos@[w]).id@
                                    == embedding.source_id@ && crate::store::video_like(
                                    v,
                                    self.videos@[w],
                                );
                            let ci = self.video_index_of(embedding.source_id@);
                            assert(0 <= ci < self.videos@.len() && self.videos@[ci].id@
                                == embedding.source_id@);
                            if ci != w {
                                assert(self.videos@[ci].id@ != self.videos@[w].id@);
                            }
                        }
                        let mut t = v.title.clone();
                        t.append("\n");
                        match &v.description {
                            Some(d) => {
                                t.append(d.as_str());
                            },
                            None => {
                                proof {
                                    assert(t@ =~= v.title@ + "\n"@ + Seq::<char>::empty());
                                }
                            },
                        }
                        Some(t)
                    },
                    None => None,
                }
            },
            EmbeddingSource::Chunk => {
                let sid_chars = chars_of(embedding.source_id.as_str());
                let colon_chars = chars_of(":");
                let cnt = count_occurrences(&sid_chars, &colon_chars);
                if cnt != 1 {
                    return None;
                }
                let vid = split_colon_prefix(embedding.source_id.as_str());
                let suffix = split_colon_suffix(embedding.source_id.as_str());
                let suffix_chars = chars_of(suffix.as_str());
                let parsed = parse_i64_chars(&suffix_chars);
                let idx: i32 = match parsed {
                    Some(x) => if -0x8000_0000i64 <= x && x <= 0x7FFF_FFFFi64 {
                        x as i32
                    } else {
                        0
                    },
                    None => 0,
                };
                proof {
                    assert(idx as int == parsed_or_zero(
                        colon_suffix(embedding.source_id@),
                        -0x8000_0000,
                        0x7FFF_FFFF,
                    ));
                }
                let n = self.chunks.len();
                let mut j: usize = 0;
                while j < n
                    invariant
                        j <= n,
                        forall|l: int|
                            0 <= l < j ==> !((#[trigger] self.chunks@[l]).video_id@ == vid@
                                && self.chunks@[l].chunk_index == idx),
                    decreases n - j,
                {
                    let c = &self.chunks[j];
                    if c.chunk_index == idx && crate::store::str_eq_string(vid.as_str(), &c.video_id)
                        {
                        proof {
                            assert(self.has_chunk_at(vid@, idx as int)) by {
                                assert(self.chunks@[j as int].video_id@ == vid@
                                    && self.chunks@[j as int].chunk_index == idx);
                            }
                            let ci = choose|i: int|
                                0 <= i < self.chunks@.len() && (#[trigger] self.chunks@[i]).video_id@
                                    == vid@ && self.chunks@[i].chunk_index == idx;
                            if ci != j as int {
                                assert(!(self.chunks@[ci].video_id@
                                    == self.chunks@[j as int].video_id@ && self.chunks@[
                                    ci].chunk_index == self.chunks@[j as int].chunk_index));
                            }
                        }
                        return Some(c.text.clone());
                    }
                    j = j + 1;
                }
                proof {
                    assert(!self.has_chunk_at(vid@, idx as int));
                }
                None
            },
            EmbeddingSource::Claim => {
                let sid_chars = chars_of(embedding.source_id.as_str());
                let parsed = parse_i64_chars(&sid_chars);
                let cid: i64 = match parsed {
                    Some(x) => x,
                    None => 0,
                };
                proof {
                    assert(cid as int == parsed_or_zero(
                        embedding.source_id@,
                        -0x7FFF_FFFF_FFFF_FFFF,
                        0x7FFF_FFFF_FFFF_FFFF,
                    ));
                }
                let n = self.claims.len();
                let mut j: usize = 0;
                while j < n
                    invariant
                        j <= n,
                        forall|l: int| 0 <= l < j ==> #[trigger] self.claims@[l].id != cid,
                    decreases n - j,
                {
                    let c = &self.claims[j];
                    if c.id == cid {
                        proof {
                            assert(self.has_claim_num(cid as int)) by {
                                assert(self.claims@[j as int].id == cid);
                            }
                            let ci = choose|i: int|
                                0 <= i < self.claims@.len() && (#[trigger] self.claims@[i]).id
                                    == cid as int;
                            if ci != j as int {
                                assert(self.claims@[ci].id != self.claims@[j as int].id);
                            }
                        }
                        return Some(c.text.clone());
                    }
                    j = j + 1;
                }
                proof {
                    assert(!self.has_claim_num(cid as int));
                }
                None
            },
            EmbeddingSource::Summary => None,
        }
    }

    /// Decorates raw similarity hits with their text and owning video.
    #[verifier::loop_isolation(false)]
    pub fn build_similarity_results(&self, similar: Vec<(Embedding, i64)>) -> (r: Vec<
        SimilarityResult,
    >)
        requires
            self.wf(),
        ensures
            r@.len() == similar@.len(),
            forall|i: int|
                0 <= i < r@.len() ==> similarity_row_ok(
                    *self,
                    #[trigger] r@[i],
                    similar@[i].0,
                    similar@[i].1,
                ),
    {
        let n = similar.len();
        let mut r: Vec<SimilarityResult> = Vec::new();
        for i in 0..n
            invariant
                n == similar@.len(),
                r@.len() == i,
                forall|x: int|
                    0 <= x < i ==> similarity_row_ok(
                        *self,
                        #[trigger] r@[x],
                        similar@[x].0,
                        similar@[x].1,
                    ),
        {
            let e = &similar[i].0;
            let score = similar[i].1;
            let text = match self.get_text_for_embedding(e) {
                Some(t) => t,
                None => String::new(),
            };
            let video_id: Option<String> = match e.source_type {
                EmbeddingSource::Video => Some(e.source_id.clone()),
                EmbeddingSource::Chunk => Some(split_colon_prefix(e.source_id.as_str())),
                EmbeddingSource::Summary => Some(split_colon_prefix(e.source_id.as_str())),
                EmbeddingSource::Claim => {
                    let sid_chars = chars_of(e.source_id.as_str());
                    let parsed = parse_i64_chars(&sid_chars);
                    let cid: i64 = match parsed {
                        Some(x) => x,
                        None => 0,
                    };
                    proof {
                        assert(cid as int == parsed_or_zero(
                            e.source_id@,
                            -0x7FFF_FFFF_FFFF_FFFF,
                            0x7FFF_FFFF_FFFF_FFFF,
                        ));
                    }
                    let m = self.claims.len();
                    let mut j: usize = 0;
                    let mut hit: Option<String> = None;
                    while j < m
                        invariant
                            j <= m,
                            hit is None ==> forall|l: int|
                                0 <= l < j ==> #[trigger] self.claims@[l].id != cid,
                            hit is Some ==> self.has_claim_num(cid as int) && hit->0@
                                == self.claim_at_num(cid as int).video_id@,
                        decreases m - j,
                    {
                        let c = &self.claims[j];
                        if c.id == cid {
                            proof {
                                assert(self.has_claim_num(cid as int)) by {
                                    assert(self.claims@[j as int].id == cid);
                                }
                                let ci = choose|l: int|
                                    0 <= l < self.claims@.len() && (#[trigger] self.claims@[l]).id
                                        == cid as int;
                                if ci != j as int {
                                    assert(self.claims@[ci].id != self.claims@[j as int].id);
                                }
                            }
                            hit = Some(c.video_id.clone());
                            j = m;
                        } else {
                            j = j + 1;
                        }
                    }
                    proof {
                        if hit is None {
                            assert(!self.has_claim_num(cid as int));
                        }
                    }
                    hit
                },
            };
            r.push(
                SimilarityResult {
                    source_type: e.source_type,
                    source_id: e.source_id.clone(),
                    score,
                    text,
                    video_id,
                },
            );
        }
        r
    }
}

/// One decorated similarity hit agrees with the raw hit it came from.
pub open spec fn similarity_row_ok(db: Database, sr: SimilarityResult, e: Embedding, score: i64) -> bool {
    &&& sr.source_type == e.source_type
    &&& sr.source_id@ == e.source_id@
    &&& sr.score == score
    &&& sr.text@ == match text_for(db, e) {
        Some(t) => t,
        None => Seq::<char>::empty(),
    }
    &&& match (sr.video_id, vid_attr(db, e)) {
        (Some(a), Some(b)) => a@ == b,
        (None, None) => true,
        _ => false,
    }
}

/// Every element of the sorted index list is one of the scored pairs, so
/// its score keeps the fixed-point range.
proof fn lemma_sorted_elements_bounded(s: Seq<(usize, i64)>, sorted: Seq<(usize, i64)>, i: int)
    requires
        sorted == sort_desc(s, pair_score_key()),
        0 <= i < sorted.len(),
        forall|x: int| 0 <= x < s.len() ==> -SCORE_SCALE <= (#[trigger] s[x]).1 <= SCORE_SCALE,
    ensures
        -SCORE_SCALE <= sorted[i].1 <= SCORE_SCALE,
{
    crate::rank::lemma_sort_desc_membership(s, pair_score_key());
    assert(s.contains(sorted[i]));
    let k = choose|k: int| 0 <= k < s.len() && s[k] == sorted[i];
    assert(-SCORE_SCALE <= s[k].1 <= SCORE_SCALE);
}

} // verus!
