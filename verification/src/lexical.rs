//! The lexical index: BM25-style keyword relevance over the per-video
//! searchable records, plus substring-level transcript segment matching.
//!
//! The query is tokenized on spaces and lower-cased.  A record is a hit
//! when every term occurs in it (ignoring ASCII case); hits are ordered by
//! a fixed-point BM25-style score: per term, a saturating term-frequency
//! score normalized by the field's length against the index-wide average
//! length, weighted 10 in the title, 5 in the description and 1 in the
//! transcript, and multiplied by an inverse-document-frequency weight (the
//! integer base-2 logarithm of the inverted document-frequency ratio).
//! Ties keep index order.  Each hit carries all transcript segments that
//! contain the whole query string.
//!
//! The exact formula stands in `term_score` and its parts below; it is this
//! library's fixed-point rendering of the TF/IDF, length-normalized scoring
//! family, stated fully so that every score is reproducible.

use vstd::prelude::*;

use crate::model::{SearchResult, SegmentMatch, TranscriptSegment};
use crate::rank::{
    lemma_sort_desc_parallel, lemma_sort_desc_sorted, pair_count_key, sort_counts_desc, sort_desc,
};
use crate::store::{str_eq_string, video_like, Database, IndexEntry};
use crate::text::{
    contains_chars, contains_sub, count_occurrences, lower_of, lower_str, occurrences,
    split_terms, split_terms_chars,
};

verus! {

/// One point of relevance: scores are integers in units of
/// `1 / RELEVANCE_SCALE`.
pub const RELEVANCE_SCALE: u64 = 1024;

/// Term frequencies saturate here; the saturating score curve makes larger
/// counts indistinguishable anyway.
pub const TF_CAP: u64 = 65536;

/// The integer base-2 logarithm; 0 for 0 and 1.
pub open spec fn ilog2(n: nat) -> nat
    decreases n,
{
    if n <= 1 {
        0
    } else {
        1 + ilog2(n / 2)
    }
}

pub open spec fn title_text(e: IndexEntry) -> Seq<char> {
    lower_of(e.title@)
}

pub open spec fn desc_text(e: IndexEntry) -> Seq<char> {
    lower_of(e.description@)
}

pub open spec fn body_text(e: IndexEntry) -> Seq<char> {
    lower_of(e.transcript@)
}

/// Whether the term occurs anywhere in the record, ignoring ASCII case.
pub open spec fn term_occurs(e: IndexEntry, t: Seq<char>) -> bool {
    ||| occurrences(title_text(e), t) > 0
    ||| occurrences(desc_text(e), t) > 0
    ||| occurrences(body_text(e), t) > 0
}

/// In how many records of the index the term occurs: its document
/// frequency.
pub open spec fn doc_freq(idx: Seq<IndexEntry>, t: Seq<char>) -> int
    decreases idx.len(),
{
    if idx.len() == 0 {
        0
    } else {
        doc_freq(idx.drop_last(), t) + if term_occurs(idx.last(), t) {
            1int
        } else {
            0int
        }
    }
}

pub open spec fn title_len_sum(idx: Seq<IndexEntry>) -> int
    decreases idx.len(),
{
    if idx.len() == 0 {
        0
    } else {
        title_len_sum(idx.drop_last()) + idx.last().title@.len()
    }
}

pub open spec fn desc_len_sum(idx: Seq<IndexEntry>) -> int
    decreases idx.len(),
{
    if idx.len() == 0 {
        0
    } else {
        desc_len_sum(idx.drop_last()) + idx.last().description@.len()
    }
}

pub open spec fn body_len_sum(idx: Seq<IndexEntry>) -> int
    decreases idx.len(),
{
    if idx.len() == 0 {
        0
    } else {
        body_len_sum(idx.drop_last()) + idx.last().transcript@.len()
    }
}

/// The average field length across the index, floored at one so it can
/// stand in a denominator.
pub open spec fn avg_of(total: int, n: int) -> int {
    if n == 0 {
        1
    } else {
        let a = total / n;
        if a < 1 {
            1
        } else {
            a
        }
    }
}

/// The saturating, length-normalized term-frequency score: with saturated
/// frequency `t`, field length `len` and average field length `avg`, the
/// fixed-point form of `2t / (t + len/avg)`.  It grows with the frequency,
/// saturates at `2 * RELEVANCE_SCALE`, and is discounted for fields longer
/// than average.
pub open spec fn tf_score(tf: int, len: int, avg: int) -> int {
    let t = if tf > TF_CAP {
        TF_CAP as int
    } else {
        tf
    };
    if t == 0 {
        0
    } else {
        (2 * t * avg * RELEVANCE_SCALE) / (t * avg + len)
    }
}

/// The inverse-document-frequency weight of a term: the integer base-2
/// logarithm of the inverted document-frequency ratio, in fixed point.
/// Rare terms weigh more; a term in every record still weighs
/// `RELEVANCE_SCALE`.
pub open spec fn idf_score(n: int, df: int) -> int {
    RELEVANCE_SCALE * ilog2(((2 * n + 1) / (2 * df + 1) + 1) as nat)
}

/// One term's BM25-style contribution to a record's relevance: its
/// inverse-document-frequency weight times the field-weighted (10/5/1)
/// sum of its length-normalized term-frequency scores.
pub open spec fn term_score(idx: Seq<IndexEntry>, e: IndexEntry, t: Seq<char>) -> int {
    idf_score(idx.len() as int, doc_freq(idx, t)) * (10 * tf_score(
        occurrences(title_text(e), t),
        e.title@.len() as int,
        avg_of(title_len_sum(idx), idx.len() as int),
    ) + 5 * tf_score(
        occurrences(desc_text(e), t),
        e.description@.len() as int,
        avg_of(desc_len_sum(idx), idx.len() as int),
    ) + tf_score(
        occurrences(body_text(e), t),
        e.transcript@.len() as int,
        avg_of(body_len_sum(idx), idx.len() as int),
    ))
}

pub open spec fn relevance_sum(idx: Seq<IndexEntry>, e: IndexEntry, terms: Seq<Seq<char>>) -> int
    decreases terms.len(),
{
    if terms.len() == 0 {
        0
    } else {
        relevance_sum(idx, e, terms.drop_last()) + term_score(idx, e, terms.last())
    }
}

/// The BM25-style relevance of one record for the query: the sum of its
/// terms' contributions.
pub open spec fn relevance_of(idx: Seq<IndexEntry>, e: IndexEntry, q: Seq<char>) -> int {
    relevance_sum(idx, e, split_terms(lower_of(q)))
}

/// A record matches the query when the query has at least one term and
/// every term occurs somewhere in the record.
pub open spec fn matches_all_terms(e: IndexEntry, q: Seq<char>) -> bool {
    let terms = split_terms(lower_of(q));
    terms.len() > 0 && forall|k: int| 0 <= k < terms.len() ==> term_occurs(e, #[trigger] terms[k])
}

/// A keyword hit: a record matching every query term whose video exists.
pub open spec fn hit_pred(db: Database, q: Seq<char>) -> spec_fn(IndexEntry) -> bool {
    |e: IndexEntry| matches_all_terms(e, q) && db.has_video(e.video_id@)
}

pub open spec fn rel_key(idx: Seq<IndexEntry>, q: Seq<char>) -> spec_fn(IndexEntry) -> int {
    |e: IndexEntry| relevance_of(idx, e, q)
}

/// The keyword hits for `q`, by non-increasing relevance, ties keeping
/// index order.
pub open spec fn keyword_hits(db: Database, q: Seq<char>) -> Seq<IndexEntry> {
    sort_desc(
        db.search_index@.filter(hit_pred(db, q)),
        rel_key(db.search_index@, q),
    )
}

/// Whether a transcript segment contains the query, ignoring ASCII case.
pub open spec fn seg_pred(q: Seq<char>) -> spec_fn(TranscriptSegment) -> bool {
    |s: TranscriptSegment| contains_sub(lower_of(s.text@), lower_of(q))
}

/// The segments of this video's transcript that contain `q`.
pub open spec fn matching_segments(db: Database, vid: Seq<char>, q: Seq<char>) -> Seq<
    TranscriptSegment,
> {
    if db.has_transcript(vid) {
        db.transcripts@[db.transcript_index_of(vid)].segments@.filter(seg_pred(q))
    } else {
        Seq::empty()
    }
}

/// Field-wise agreement of a reported match with the segment it came from.
pub open spec fn segment_match_like(m: SegmentMatch, s: TranscriptSegment) -> bool {
    &&& m.start_time == s.start_time
    &&& m.duration == s.duration
    &&& m.text@ == s.text@
}

impl Database {
    /// Keyword search over the lexical index: every video whose searchable
    /// record contains all query terms, by non-increasing BM25-style
    /// relevance (`relevance_of`), each hit carrying the transcript
    /// segments that contain the query string.  A video can be a hit on
    /// its title or description alone, with no segment matches.
    #[verifier::loop_isolation(false)]
    pub fn search_with_timestamps(&self, query: &str) -> (r: Vec<SearchResult>)
        requires
            self.wf(),
        ensures
            r@.len() == keyword_hits(*self, query@).len(),
            forall|i: int|
                0 <= i < r@.len() ==> search_hit_ok(
                    *self,
                    query@,
                    #[trigger] r@[i],
                    keyword_hits(*self, query@)[i],
                ),
    {
        let ghost hp = hit_pred(*self, query@);
        let ghost hits = keyword_hits(*self, query@);
        let ghost idx = self.search_index@;
        let ql = lower_str(query);
        let terms = split_terms_chars(&ql);
        let n = self.search_index.len();
        let tavg = self.title_avg_len();
        let davg = self.desc_avg_len();
        let bavg = self.body_avg_len();
        let dfs = self.doc_freqs(&terms, Ghost(query@));
        let mut scored: Vec<(usize, u128)> = Vec::new();
        for j in 0..n
            invariant
                ql@ == lower_of(query@),
                terms@.len() == split_terms(lower_of(query@)).len(),
                forall|k: int|
                    0 <= k < terms@.len() ==> (#[trigger] terms@[k])@ == split_terms(
                        lower_of(query@),
                    )[k],
                dfs@.len() == terms@.len(),
                forall|k: int|
                    0 <= k < dfs@.len() ==> (#[trigger] dfs@[k]) as int == doc_freq(
                        idx,
                        split_terms(lower_of(query@))[k],
                    ),
                tavg as int == avg_of(title_len_sum(idx), idx.len() as int),
                davg as int == avg_of(desc_len_sum(idx), idx.len() as int),
                bavg as int == avg_of(body_len_sum(idx), idx.len() as int),
                1 <= tavg <= 0xFFFF_FFFF_FFFF_FFFF,
                1 <= davg <= 0xFFFF_FFFF_FFFF_FFFF,
                1 <= bavg <= 0xFFFF_FFFF_FFFF_FFFF,
                scored@.len() == idx.subrange(0, j as int).filter(hp).len(),
                forall|x: int|
                    0 <= x < scored@.len() ==> 0 <= (#[trigger] scored@[x]).0 < idx.len()
                        && idx[scored@[x].0 as int] == idx.subrange(0, j as int).filter(hp)[x],
                forall|x: int|
                    0 <= x < scored@.len() ==> (#[trigger] scored@[x]).1 as int == relevance_of(
                        idx,
                        idx.subrange(0, j as int).filter(hp)[x],
                        query@,
                    ),
        {
            proof {
                reveal(Seq::filter);
                let s1 = idx.subrange(0, j + 1);
                assert(s1.drop_last() =~= idx.subrange(0, j as int));
                assert(s1.last() == idx[j as int]);
            }
            let e = &self.search_index[j];
            let (matched, rel) = score_entry(
                e,
                &terms,
                &dfs,
                n,
                tavg,
                davg,
                bavg,
                Ghost(idx),
                Ghost(query@),
            );
            let mut vid_exists = false;
            let vn = self.videos.len();
            let mut v: usize = 0;
            while v < vn && !vid_exists
                invariant
                    v <= vn,
                    !vid_exists ==> forall|l: int|
                        0 <= l < v ==> #[trigger] self.videos@[l].id@ != self.search_index@[
                            j as int].video_id@,
                    vid_exists ==> self.has_video(self.search_index@[j as int].video_id@),
                decreases vn - v,
            {
                if self.videos[v].id == e.video_id {
                    vid_exists = true;
                    proof {
                        assert(self.videos@[v as int].id@ == self.search_index@[
                            j as int].video_id@);
                    }
                }
                v = v + 1;
            }
            if matched && vid_exists {
                scored.push((j, rel));
            }
        }
        proof {
            assert(idx.subrange(0, n as int) =~= idx);
        }
        let ranked_idx = sort_counts_desc(&scored);
        proof {
            let f = idx.filter(hp);
            let rel = |a: (usize, u128), b: IndexEntry|
                {
                    &&& 0 <= a.0 < idx.len()
                    &&& idx[a.0 as int] == b
                    &&& a.1 as int == relevance_of(idx, b, query@)
                };
            assert forall|x: int| 0 <= x < scored@.len() implies rel(#[trigger] scored@[x], f[x])
                && pair_count_key()(scored@[x]) == rel_key(idx, query@)(f[x]) by {
                assert(idx[scored@[x].0 as int] == f[x]);
            }
            lemma_sort_desc_parallel(scored@, f, pair_count_key(), rel_key(idx, query@), rel);
        }
        let total = ranked_idx.len();
        let mut r: Vec<SearchResult> = Vec::new();
        for k in 0..total
            invariant
                ql@ == lower_of(query@),
                total == ranked_idx@.len(),
                ranked_idx@.len() == hits.len(),
                forall|x: int|
                    0 <= x < ranked_idx@.len() ==> 0 <= (#[trigger] ranked_idx@[x]).0
                        < self.search_index@.len() && self.search_index@[ranked_idx@[x].0 as int]
                        == hits[x],
                r@.len() == k,
                forall|x: int|
                    0 <= x < k ==> search_hit_ok(*self, query@, #[trigger] r@[x], hits[x]),
        {
            let (pos, _score) = ranked_idx[k];
            let e = &self.search_index[pos];
            proof {
                let f = self.search_index@.filter(hp);
                crate::rank::lemma_sort_desc_sorted(f, rel_key(self.search_index@, query@));
                lemma_hits_are_hits(*self, query@, k as int);
            }
            if let Some(video) = self.get_video(e.video_id.as_str()) {
                proof {
                    let w = choose|w: int|
                        0 <= w < self.videos@.len() && (#[trigger] self.videos@[w]).id@
                            == e.video_id@ && video_like(video, self.videos@[w]);
                    let ci = self.video_index_of(e.video_id@);
                    assert(0 <= ci < self.videos@.len() && self.videos@[ci].id@ == e.video_id@);
                    if ci != w {
                        assert(self.videos@[ci].id@ != self.videos@[w].id@);
                    }
                }
                let matches = self.segment_matches_for(e.video_id.as_str(), query);
                r.push(SearchResult { video, matches });
            } else {
                proof {
                    assert(false);
                }
            }
        }
        r
    }

    /// The transcript segments of this video that contain the query,
    /// ignoring ASCII case, in transcript order.
    #[verifier::loop_isolation(false)]
    fn segment_matches_for(&self, video_id: &str, query: &str) -> (r: Vec<SegmentMatch>)
        requires
            self.wf(),
        ensures
            ({
                let segs = matching_segments(*self, video_id@, query@);
                &&& r@.len() == segs.len()
                &&& forall|j: int|
                    0 <= j < segs.len() ==> segment_match_like(#[trigger] r@[j], segs[j])
            }),
    {
        let ql = lower_str(query);
        let tn = self.transcripts.len();
        let mut tpos: usize = 0;
        let mut tfound = false;
        let mut t: usize = 0;
        while t < tn && !tfound
            invariant
                t <= tn,
                !tfound ==> forall|l: int|
                    0 <= l < t ==> #[trigger] self.transcripts@[l].video_id@ != video_id@,
                tfound ==> tpos < tn && self.transcripts@[tpos as int].video_id@ == video_id@,
            decreases tn - t,
        {
            if str_eq_string(video_id, &self.transcripts[t].video_id) {
                tpos = t;
                tfound = true;
            }
            t = t + 1;
        }
        let mut r: Vec<SegmentMatch> = Vec::new();
        if !tfound {
            proof {
                assert(!self.has_transcript(video_id@));
            }
            return r;
        }
        proof {
            assert(self.has_transcript(video_id@)) by {
                assert(self.transcripts@[tpos as int].video_id@ == video_id@);
            }
            let ci = self.transcript_index_of(video_id@);
            assert(0 <= ci < self.transcripts@.len() && self.transcripts@[ci].video_id@
                == video_id@);
            if ci != tpos as int {
                assert(self.transcripts@[ci].video_id@ != self.transcripts@[
                    tpos as int].video_id@);
            }
        }
        let ghost sp = seg_pred(query@);
        let segs = &self.transcripts[tpos].segments;
        let m = segs.len();
        for j in 0..m
            invariant
                r@.len() == segs@.subrange(0, j as int).filter(sp).len(),
                forall|x: int|
                    0 <= x < r@.len() ==> segment_match_like(
                        #[trigger] r@[x],
                        segs@.subrange(0, j as int).filter(sp)[x],
                    ),
        {
            proof {
                reveal(Seq::filter);
                let s1 = segs@.subrange(0, j + 1);
                assert(s1.drop_last() =~= segs@.subrange(0, j as int));
                assert(s1.last() == segs@[j as int]);
            }
            let seg = &segs[j];
            let sl = lower_str(seg.text.as_str());
            if contains_chars(&sl, &ql) {
                r.push(
                    SegmentMatch {
                        start_time: seg.start_time,
                        duration: seg.duration,
                        text: seg.text.clone(),
                    },
                );
            }
        }
        proof {
            assert(segs@.subrange(0, m as int) =~= segs@);
        }
        r
    }
}

/// One reported search hit agrees with the index entry it ranks: the hit's
/// video is the stored video of the entry, and its matches are exactly the
/// transcript segments containing the query.
pub open spec fn search_hit_ok(db: Database, q: Seq<char>, sr: SearchResult, e: IndexEntry) -> bool {
    &&& sr.video.id@ == e.video_id@
    &&& video_like(sr.video, db.videos@[db.video_index_of(e.video_id@)])
    &&& sr.matches@.len() == matching_segments(db, e.video_id@, q).len()
    &&& forall|j: int|
        0 <= j < sr.matches@.len() ==> segment_match_like(
            #[trigger] sr.matches@[j],
            matching_segments(db, e.video_id@, q)[j],
        )
}

/// Every ranked hit satisfies the hit predicate, in particular its video
/// exists.
proof fn lemma_hits_are_hits(db: Database, q: Seq<char>, i: int)
    requires
        0 <= i < keyword_hits(db, q).len(),
    ensures
        matches_all_terms(keyword_hits(db, q)[i], q),
        db.has_video(keyword_hits(db, q)[i].video_id@),
{
    let f = db.search_index@.filter(hit_pred(db, q));
    crate::rank::lemma_sort_desc_membership(f, rel_key(db.search_index@, q));
    assert(f.contains(keyword_hits(db, q)[i]));
    let k = choose|k: int| 0 <= k < f.len() && f[k] == keyword_hits(db, q)[i];
    db.search_index@.filter_lemma(hit_pred(db, q));
    assert(hit_pred(db, q)(f[k]));
}

impl Database {
    /// The average title length across the index, floored at one.
    #[verifier::loop_isolation(false)]
    fn title_avg_len(&self) -> (r: u128)
        ensures
            r as int == avg_of(title_len_sum(self.search_index@), self.search_index@.len() as int),
            1 <= r <= 0xFFFF_FFFF_FFFF_FFFF,
    {
        let n = self.search_index.len();
        let mut sum: u128 = 0;
        for j in 0..n
            invariant
                sum as int == title_len_sum(self.search_index@.subrange(0, j as int)),
                sum <= (j as u128) * 0xFFFF_FFFF_FFFF_FFFF,
        {
            proof {
                let s1 = self.search_index@.subrange(0, j + 1);
                assert(s1.drop_last() =~= self.search_index@.subrange(0, j as int));
                assert(s1.last() == self.search_index@[j as int]);
                assert((j as int + 1) * 0xFFFF_FFFF_FFFF_FFFF == (j as int) * 0xFFFF_FFFF_FFFF_FFFF
                    + 0xFFFF_FFFF_FFFF_FFFF) by (nonlinear_arith);
            }
            let len = self.search_index[j].title.as_str().unicode_len();
            sum = sum + (len as u128);
        }
        proof {
            assert(self.search_index@.subrange(0, n as int) =~= self.search_index@);
        }
        finish_avg(sum, n)
    }

    /// The average description length across the index, floored at one.
    #[verifier::loop_isolation(false)]
    fn desc_avg_len(&self) -> (r: u128)
        ensures
            r as int == avg_of(desc_len_sum(self.search_index@), self.search_index@.len() as int),
            1 <= r <= 0xFFFF_FFFF_FFFF_FFFF,
    {
        let n = self.search_index.len();
        let mut sum: u128 = 0;
        for j in 0..n
            invariant
                sum as int == desc_len_sum(self.search_index@.subrange(0, j as int)),
                sum <= (j as u128) * 0xFFFF_FFFF_FFFF_FFFF,
        {
            proof {
                let s1 = self.search_index@.subrange(0, j + 1);
                assert(s1.drop_last() =~= self.search_index@.subrange(0, j as int));
                assert(s1.last() == self.search_index@[j as int]);
                assert((j as int + 1) * 0xFFFF_FFFF_FFFF_FFFF == (j as int) * 0xFFFF_FFFF_FFFF_FFFF
                    + 0xFFFF_FFFF_FFFF_FFFF) by (nonlinear_arith);
            }
            let len = self.search_index[j].description.as_str().unicode_len();
            sum = sum + (len as u128);
        }
        proof {
            assert(self.search_index@.subrange(0, n as int) =~= self.search_index@);
        }
        finish_avg(sum, n)
    }

    /// The average transcript length across the index, floored at one.
    #[verifier::loop_isolation(false)]
    fn body_avg_len(&self) -> (r: u128)
        ensures
            r as int == avg_of(body_len_sum(self.search_index@), self.search_index@.len() as int),
            1 <= r <= 0xFFFF_FFFF_FFFF_FFFF,
    {
        let n = self.search_index.len();
        let mut sum: u128 = 0;
        for j in 0..n
            invariant
                sum as int == body_len_sum(self.search_index@.subrange(0, j as int)),
                sum <= (j as u128) * 0xFFFF_FFFF_FFFF_FFFF,
        {
            proof {
                let s1 = self.search_index@.subrange(0, j + 1);
                assert(s1.drop_last() =~= self.search_index@.subrange(0, j as int));
                assert(s1.last() == self.search_index@[j as int]);
                assert((j as int + 1) * 0xFFFF_FFFF_FFFF_FFFF == (j as int) * 0xFFFF_FFFF_FFFF_FFFF
                    + 0xFFFF_FFFF_FFFF_FFFF) by (nonlinear_arith);
            }
            let len = self.search_index[j].transcript.as_str().unicode_len();
            sum = sum + (len as u128);
        }
        proof {
            assert(self.search_index@.subrange(0, n as int) =~= self.search_index@);
        }
        finish_avg(sum, n)
    }

    /// The document frequency of every query term across the index.
    #[verifier::loop_isolation(false)]
    fn doc_freqs(&self, terms: &Vec<Vec<char>>, Ghost(q): Ghost<Seq<char>>) -> (r: Vec<usize>)
        requires
            terms@.len() == split_terms(lower_of(q)).len(),
            forall|k: int|
                0 <= k < terms@.len() ==> (#[trigger] terms@[k])@ == split_terms(lower_of(q))[k],
        ensures
            r@.len() == terms@.len(),
            forall|k: int|
                0 <= k < r@.len() ==> (#[trigger] r@[k]) as int == doc_freq(
                    self.search_index@,
                    split_terms(lower_of(q))[k],
                ),
    {
        let tn = terms.len();
        let n = self.search_index.len();
        let mut r: Vec<usize> = Vec::new();
        for k in 0..tn
            invariant
                r@.len() == k,
                forall|x: int|
                    0 <= x < k ==> (#[trigger] r@[x]) as int == doc_freq(
                        self.search_index@,
                        split_terms(lower_of(q))[x],
                    ),
        {
            let t = &terms[k];
            let mut df: usize = 0;
            for j in 0..n
                invariant
                    t@ == split_terms(lower_of(q))[k as int],
                    df as int == doc_freq(self.search_index@.subrange(0, j as int), t@),
                    df <= j,
            {
                proof {
                    let s1 = self.search_index@.subrange(0, j + 1);
                    assert(s1.drop_last() =~= self.search_index@.subrange(0, j as int));
                    assert(s1.last() == self.search_index@[j as int]);
                }
                let e = &self.search_index[j];
                let tl = lower_str(e.title.as_str());
                let dl = lower_str(e.description.as_str());
                let bl = lower_str(e.transcript.as_str());
                let occurs = count_occurrences(&tl, t) > 0 || count_occurrences(&dl, t) > 0
                    || count_occurrences(&bl, t) > 0;
                proof {
                    assert(occurs == term_occurs(self.search_index@[j as int], t@));
                }
                if occurs {
                    df = df + 1;
                }
            }
            proof {
                assert(self.search_index@.subrange(0, n as int) =~= self.search_index@);
            }
            r.push(df);
        }
        r
    }
}

/// The floored-at-one average of a sum over `n` records.
fn finish_avg(sum: u128, n: usize) -> (r: u128)
    requires
        sum <= (n as u128) * 0xFFFF_FFFF_FFFF_FFFF,
    ensures
        r as int == avg_of(sum as int, n as int),
        1 <= r <= 0xFFFF_FFFF_FFFF_FFFF,
{
    if n == 0 {
        1
    } else {
        let a = sum / (n as u128);
        proof {
            vstd::arithmetic::div_mod::lemma_div_is_ordered(
                sum as int,
                (n as int) * 0xFFFF_FFFF_FFFF_FFFF,
                n as int,
            );
            assert(((n as int) * 0xFFFF_FFFF_FFFF_FFFF) / (n as int) == 0xFFFF_FFFF_FFFF_FFFF)
                by {
                vstd::arithmetic::div_mod::lemma_div_multiples_vanish(
                    0xFFFF_FFFF_FFFF_FFFF,
                    n as int,
                );
                assert((n as int) * 0xFFFF_FFFF_FFFF_FFFF == 0xFFFF_FFFF_FFFF_FFFF * (n as int));
            }
        }
        if a < 1 {
            1
        } else {
            a
        }
    }
}

/// The integer base-2 logarithm, at most 127 for a 128-bit argument.
#[verifier::loop_isolation(false)]
fn ilog2_u128(n: u128) -> (r: u64)
    ensures
        r as nat == ilog2(n as nat),
        r <= 127,
{
    proof {
        vstd::arithmetic::power2::lemma2_to64();
        vstd::arithmetic::power2::lemma_pow2_adds(64, 64);
        assert(vstd::arithmetic::power2::pow2(128) == 0x1_0000_0000_0000_0000
            * 0x1_0000_0000_0000_0000);
        assert(0x1_0000_0000_0000_0000int * 0x1_0000_0000_0000_0000
            == 0x1_0000_0000_0000_0000_0000_0000_0000_0000) by (nonlinear_arith);
        lemma_ilog2_small(n as nat, 128);
    }
    let mut m = n;
    let mut r: u64 = 0;
    while m > 1
        invariant
            r as nat + ilog2(m as nat) == ilog2(n as nat),
            ilog2(n as nat) <= 127,
        decreases m,
    {
        proof {
            assert(ilog2(m as nat) == 1 + ilog2((m as nat) / 2));
        }
        m = m / 2;
        r = r + 1;
    }
    r
}

/// A number below `pow2(k)` has a base-2 logarithm below `k`.
proof fn lemma_ilog2_small(n: nat, k: nat)
    requires
        k >= 1,
        n < vstd::arithmetic::power2::pow2(k),
    ensures
        ilog2(n) < k,
    decreases k,
{
    if n > 1 {
        vstd::arithmetic::power2::lemma_pow2_unfold(k);
        let p = vstd::arithmetic::power2::pow2((k - 1) as nat);
        assert(n / 2 < p) by (nonlinear_arith)
            requires
                n < 2 * p,
                p >= 1,
        ;
        assert(k - 1 >= 1) by {
            if k == 1 {
                vstd::arithmetic::power2::lemma2_to64();
            }
        }
        lemma_ilog2_small(n / 2, (k - 1) as nat);
    }
}

/// The saturating, length-normalized term-frequency score, at most
/// `2 * RELEVANCE_SCALE`.
fn tf_weight(tf: usize, len: usize, avg: u128) -> (r: u64)
    requires
        1 <= avg <= 0xFFFF_FFFF_FFFF_FFFF,
    ensures
        r as int == tf_score(tf as int, len as int, avg as int),
        r <= 2048,
{
    let t: u128 = if (tf as u128) > (TF_CAP as u128) {
        TF_CAP as u128
    } else {
        tf as u128
    };
    if t == 0 {
        return 0;
    }
    proof {
        assert(2 * (t as int) * (avg as int) * (RELEVANCE_SCALE as int) <= 2 * 0x1_0000 * (
        0xFFFF_FFFF_FFFF_FFFF as int) * 1024) by (nonlinear_arith)
            requires
                0 < t as int <= 0x1_0000,
                1 <= avg as int <= 0xFFFF_FFFF_FFFF_FFFF,
        ;
        assert((t as int) * (avg as int) >= 1) by (nonlinear_arith)
            requires
                t as int >= 1,
                avg as int >= 1,
        ;
        assert((t as int) * (avg as int) <= 0x1_0000 * 0xFFFF_FFFF_FFFF_FFFF)
            by (nonlinear_arith)
            requires
                0 < t as int <= 0x1_0000,
                1 <= avg as int <= 0xFFFF_FFFF_FFFF_FFFF,
        ;
    }
    let num: u128 = 2 * t * avg * (RELEVANCE_SCALE as u128);
    let den: u128 = t * avg + (len as u128);
    let q = num / den;
    proof {
        let ta = (t as int) * (avg as int);
        assert(num as int == 2048 * ta) by (nonlinear_arith)
            requires
                num as int == 2 * (t as int) * (avg as int) * 1024,
                ta == (t as int) * (avg as int),
        ;
        assert(2048 * ta <= 2048 * (den as int)) by (nonlinear_arith)
            requires
                ta <= den as int,
        ;
        vstd::arithmetic::div_mod::lemma_div_is_ordered(
            num as int,
            2048 * (den as int),
            den as int,
        );
        assert((2048 * (den as int)) / (den as int) == 2048) by {
            vstd::arithmetic::div_mod::lemma_div_multiples_vanish(2048, den as int);
            assert(2048 * (den as int) == (den as int) * 2048);
        }
    }
    q as u64
}

/// The inverse-document-frequency weight, at most `127 * RELEVANCE_SCALE`.
fn idf_weight(n: usize, df: usize) -> (r: u64)
    ensures
        r as int == idf_score(n as int, df as int),
        r <= 130048,
{
    let num: u128 = 2 * (n as u128) + 1;
    let den: u128 = 2 * (df as u128) + 1;
    let ratio = num / den;
    let lg = ilog2_u128(ratio + 1);
    RELEVANCE_SCALE * lg
}

/// The hit flag and BM25-style relevance of one record, from the query
/// terms and the index-wide statistics.
#[verifier::loop_isolation(false)]
fn score_entry(
    e: &IndexEntry,
    terms: &Vec<Vec<char>>,
    dfs: &Vec<usize>,
    nrec: usize,
    tavg: u128,
    davg: u128,
    bavg: u128,
    Ghost(idx): Ghost<Seq<IndexEntry>>,
    Ghost(q): Ghost<Seq<char>>,
) -> (r: (bool, u128))
    requires
        terms@.len() == split_terms(lower_of(q)).len(),
        forall|k: int|
            0 <= k < terms@.len() ==> (#[trigger] terms@[k])@ == split_terms(lower_of(q))[k],
        dfs@.len() == terms@.len(),
        forall|k: int|
            0 <= k < dfs@.len() ==> (#[trigger] dfs@[k]) as int == doc_freq(
                idx,
                split_terms(lower_of(q))[k],
            ),
        nrec == idx.len(),
        tavg as int == avg_of(title_len_sum(idx), idx.len() as int),
        davg as int == avg_of(desc_len_sum(idx), idx.len() as int),
        bavg as int == avg_of(body_len_sum(idx), idx.len() as int),
        1 <= tavg <= 0xFFFF_FFFF_FFFF_FFFF,
        1 <= davg <= 0xFFFF_FFFF_FFFF_FFFF,
        1 <= bavg <= 0xFFFF_FFFF_FFFF_FFFF,
    ensures
        r.0 == matches_all_terms(*e, q),
        r.1 as int == relevance_of(idx, *e, q),
{
    let ghost sterms = split_terms(lower_of(q));
    let tl = lower_str(e.title.as_str());
    let dl = lower_str(e.description.as_str());
    let bl = lower_str(e.transcript.as_str());
    let tlen = tl.len();
    let dlen = dl.len();
    let blen = bl.len();
    let tn = terms.len();
    let mut score: u128 = 0;
    let mut all = tn > 0;
    for k in 0..tn
        invariant
            score as int == relevance_sum(idx, *e, sterms.subrange(0, k as int)),
            score <= (k as u128) * 0x1_0000_0000,
            all == (sterms.len() > 0 && forall|x: int|
                0 <= x < k ==> term_occurs(*e, #[trigger] sterms[x])),
    {
        proof {
            let s1 = sterms.subrange(0, k + 1);
            assert(s1.drop_last() =~= sterms.subrange(0, k as int));
            assert(s1.last() == sterms[k as int]);
            assert((k as int + 1) * 0x1_0000_0000 == (k as int) * 0x1_0000_0000 + 0x1_0000_0000)
                by (nonlinear_arith);
        }
        let t = &terms[k];
        let tf_t = count_occurrences(&tl, t);
        let tf_d = count_occurrences(&dl, t);
        let tf_b = count_occurrences(&bl, t);
        let ghost was_all = all;
        if tf_t == 0 && tf_d == 0 && tf_b == 0 {
            all = false;
        }
        let idf = idf_weight(nrec, dfs[k]);
        let wt = tf_weight(tf_t, tlen, tavg);
        let wd = tf_weight(tf_d, dlen, davg);
        let wb = tf_weight(tf_b, blen, bavg);
        let part: u128 = 10 * (wt as u128) + 5 * (wd as u128) + (wb as u128);
        proof {
            assert((idf as int) * (part as int) <= 130048 * 32768) by (nonlinear_arith)
                requires
                    0 <= idf as int <= 130048,
                    0 <= part as int <= 32768,
            ;
        }
        let per: u128 = (idf as u128) * part;
        proof {
            assert(per as int == term_score(idx, *e, sterms[k as int]));
        }
        score = score + per;
    }
    proof {
        assert(sterms.subrange(0, tn as int) =~= sterms);
    }
    (all, score)
}

} // verus!
