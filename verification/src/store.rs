//! The in-memory store: videos, transcripts, the lexical index projection,
//! transcript chunks, claims, typed claim links, access records, and
//! embedding vectors.
//!
//! Every collection keeps a uniqueness invariant on its logical key, stated
//! by [`Database::wf`]; each operation requires and preserves it.

use vstd::prelude::*;

use crate::kinds::EmbeddingSource;
use crate::model::{
    Claim, ClaimAccess, ClaimLink, Embedding, EmbeddingStats, StoreError, Transcript,
    TranscriptChunk, TranscriptSegment, Video,
};
use crate::vector::{MAX_COMPONENT, MAX_DIM};

verus! {

/// One row of the lexical search projection: the searchable text of a video.
#[derive(Debug, Clone)]
pub struct IndexEntry {
    pub video_id: String,
    pub title: String,
    pub description: String,
    pub transcript: String,
}

/// A vector payload the store accepts: non-empty, within the dimension
/// bound, and with every component inside the fixed-point range.
pub open spec fn valid_vector(v: Seq<i64>) -> bool {
    &&& 0 < v.len() <= MAX_DIM as int
    &&& forall|i: int| 0 <= i < v.len() ==> -MAX_COMPONENT <= #[trigger] v[i] <= MAX_COMPONENT
}

/// The logical key of an embedding row.
pub open spec fn emb_key(e: Embedding) -> (EmbeddingSource, Seq<char>, Seq<char>) {
    (e.source_type, e.source_id@, e.model@)
}

/// Field-wise agreement of two embedding rows, with text and vector
/// payloads compared by their views.
pub open spec fn emb_like(a: Embedding, b: Embedding) -> bool {
    &&& a.id == b.id
    &&& a.source_type == b.source_type
    &&& a.source_id@ == b.source_id@
    &&& a.model@ == b.model@
    &&& a.vector@ == b.vector@
    &&& a.created_at == b.created_at
}

/// The exact content of one embedding row.
pub open spec fn emb_row(
    e: Embedding,
    source_type: EmbeddingSource,
    source_id: Seq<char>,
    model: Seq<char>,
    vector: Seq<i64>,
    created_at: i64,
    id: i64,
) -> bool {
    &&& e.source_type == source_type
    &&& e.source_id@ == source_id
    &&& e.model@ == model
    &&& e.vector@ == vector
    &&& e.created_at == created_at
    &&& e.id == id
}

/// View of an optional text field, with absence read as the empty string.
pub open spec fn opt_str_view(a: Option<String>) -> Seq<char> {
    match a {
        Some(x) => x@,
        None => Seq::empty(),
    }
}

/// Field-wise agreement of two optional text fields.
pub open spec fn opt_str_like(a: Option<String>, b: Option<String>) -> bool {
    match (a, b) {
        (Some(x), Some(y)) => x@ == y@,
        (None, None) => true,
        _ => false,
    }
}

/// Field-wise agreement of two video rows, text compared by view.
pub open spec fn video_like(a: Video, b: Video) -> bool {
    &&& a.id@ == b.id@
    &&& a.url@ == b.url@
    &&& a.title@ == b.title@
    &&& opt_str_like(a.channel, b.channel)
    &&& a.upload_date == b.upload_date
    &&& opt_str_like(a.description, b.description)
    &&& a.added_at == b.added_at
}

/// The persisted state of the knowledge base, held in memory.
pub struct Database {
    pub videos: Vec<Video>,
    pub transcripts: Vec<Transcript>,
    pub search_index: Vec<IndexEntry>,
    pub chunks: Vec<TranscriptChunk>,
    pub claims: Vec<Claim>,
    pub links: Vec<ClaimLink>,
    pub access: Vec<ClaimAccess>,
    pub embeddings: Vec<Embedding>,
    pub next_claim_id: i64,
    pub next_link_id: i64,
    pub next_embedding_id: i64,
    pub next_chunk_id: i64,
}

impl Database {
    pub open spec fn has_video(self, id: Seq<char>) -> bool {
        exists|i: int| 0 <= i < self.videos@.len() && #[trigger] self.videos@[i].id@ == id
    }

    pub open spec fn has_transcript(self, video_id: Seq<char>) -> bool {
        exists|i: int|
            0 <= i < self.transcripts@.len() && #[trigger] self.transcripts@[i].video_id@
                == video_id
    }

    pub open spec fn has_claim(self, id: i64) -> bool {
        exists|i: int| 0 <= i < self.claims@.len() && #[trigger] self.claims@[i].id == id
    }

    pub open spec fn has_emb(self, k: (EmbeddingSource, Seq<char>, Seq<char>)) -> bool {
        exists|i: int|
            0 <= i < self.embeddings@.len() && emb_key(#[trigger] self.embeddings@[i]) == k
    }

    pub open spec fn emb_index_of(self, k: (EmbeddingSource, Seq<char>, Seq<char>)) -> int {
        choose|i: int|
            0 <= i < self.embeddings@.len() && emb_key(#[trigger] self.embeddings@[i]) == k
    }

    /// The stored vector under an embedding key.
    pub open spec fn emb_vector_of(self, k: (EmbeddingSource, Seq<char>, Seq<char>)) -> Seq<i64> {
        self.embeddings@[self.emb_index_of(k)].vector@
    }

    pub open spec fn video_index_of(self, id: Seq<char>) -> int {
        choose|i: int| 0 <= i < self.videos@.len() && #[trigger] self.videos@[i].id@ == id
    }

    pub open spec fn transcript_index_of(self, video_id: Seq<char>) -> int {
        choose|i: int|
            0 <= i < self.transcripts@.len() && #[trigger] self.transcripts@[i].video_id@
                == video_id
    }

    pub open spec fn has_index_entry(self, video_id: Seq<char>) -> bool {
        exists|i: int|
            0 <= i < self.search_index@.len() && #[trigger] self.search_index@[i].video_id@
                == video_id
    }

    /// The title text the lexical index should carry for a stored video.
    pub open spec fn video_title_of(self, id: Seq<char>) -> Seq<char> {
        self.videos@[self.video_index_of(id)].title@
    }

    /// The description text the lexical index should carry for a stored
    /// video (empty when the video has none).
    pub open spec fn video_desc_of(self, id: Seq<char>) -> Seq<char> {
        opt_str_view(self.videos@[self.video_index_of(id)].description)
    }

    /// The transcript body the lexical index should carry for a video
    /// (empty when no transcript is stored).
    pub open spec fn transcript_text_of(self, video_id: Seq<char>) -> Seq<char> {
        if self.has_transcript(video_id) {
            self.transcripts@[self.transcript_index_of(video_id)].full_text@
        } else {
            Seq::empty()
        }
    }

    /// Whether `e` is exactly the searchable record the store would derive
    /// for the video `vid` in the current state.
    pub open spec fn derived_index_row(self, e: IndexEntry, vid: Seq<char>) -> bool {
        &&& e.video_id@ == vid
        &&& e.title@ == self.video_title_of(vid)
        &&& e.description@ == self.video_desc_of(vid)
        &&& e.transcript@ == self.transcript_text_of(vid)
    }

    pub open spec fn wf_videos(self) -> bool {
        forall|i: int, j: int|
            #![trigger self.videos@[i], self.videos@[j]]
            0 <= i < j < self.videos@.len() ==> self.videos@[i].id@ != self.videos@[j].id@
    }

    pub open spec fn wf_transcripts(self) -> bool {
        forall|i: int, j: int|
            #![trigger self.transcripts@[i], self.transcripts@[j]]
            0 <= i < j < self.transcripts@.len() ==> self.transcripts@[i].video_id@
                != self.transcripts@[j].video_id@
    }

    pub open spec fn wf_index(self) -> bool {
        forall|i: int, j: int|
            #![trigger self.search_index@[i], self.search_index@[j]]
            0 <= i < j < self.search_index@.len() ==> self.search_index@[i].video_id@
                != self.search_index@[j].video_id@
    }

    pub open spec fn wf_chunks(self) -> bool {
        &&& forall|i: int, j: int|
            #![trigger self.chunks@[i], self.chunks@[j]]
            0 <= i < j < self.chunks@.len() ==> !(self.chunks@[i].video_id@
                == self.chunks@[j].video_id@ && self.chunks@[i].chunk_index
                == self.chunks@[j].chunk_index)
        &&& forall|i: int|
            0 <= i < self.chunks@.len() ==> #[trigger] self.chunks@[i].id < self.next_chunk_id
    }

    pub open spec fn wf_claims(self) -> bool {
        &&& forall|i: int, j: int|
            #![trigger self.claims@[i], self.claims@[j]]
            0 <= i < j < self.claims@.len() ==> self.claims@[i].id != self.claims@[j].id
        &&& forall|i: int|
            0 <= i < self.claims@.len() ==> #[trigger] self.claims@[i].id < self.next_claim_id
    }

    pub open spec fn wf_links(self) -> bool {
        &&& forall|i: int, j: int|
            #![trigger self.links@[i], self.links@[j]]
            0 <= i < j < self.links@.len() ==> !(self.links@[i].source_claim_id
                == self.links@[j].source_claim_id && self.links@[i].target_claim_id
                == self.links@[j].target_claim_id && self.links@[i].link_type
                == self.links@[j].link_type)
        &&& forall|i: int|
            0 <= i < self.links@.len() ==> #[trigger] self.links@[i].source_claim_id
                != self.links@[i].target_claim_id
        &&& forall|i: int|
            0 <= i < self.links@.len() ==> self.has_claim(
                #[trigger] self.links@[i].source_claim_id,
            ) && self.has_claim(self.links@[i].target_claim_id)
        &&& forall|i: int|
            0 <= i < self.links@.len() ==> #[trigger] self.links@[i].id < self.next_link_id
    }

    pub open spec fn wf_access(self) -> bool {
        forall|i: int, j: int|
            #![trigger self.access@[i], self.access@[j]]
            0 <= i < j < self.access@.len() ==> self.access@[i].claim_id
                != self.access@[j].claim_id
    }

    pub open spec fn wf_embeddings(self) -> bool {
        &&& forall|i: int, j: int|
            #![trigger self.embeddings@[i], self.embeddings@[j]]
            0 <= i < j < self.embeddings@.len() ==> emb_key(self.embeddings@[i]) != emb_key(
                self.embeddings@[j],
            )
        &&& forall|i: int|
            0 <= i < self.embeddings@.len() ==> valid_vector(
                #[trigger] self.embeddings@[i].vector@,
            )
        &&& forall|i: int|
            0 <= i < self.embeddings@.len() ==> #[trigger] self.embeddings@[i].id
                < self.next_embedding_id
    }

    /// Well-formedness of the whole store: every collection's logical key is
    /// unique, links join existing claims and are never self-loops, stored
    /// vectors are valid, and stored ids stay below their counters.
    pub open spec fn wf(self) -> bool {
        &&& self.wf_videos()
        &&& self.wf_transcripts()
        &&& self.wf_index()
        &&& self.wf_chunks()
        &&& self.wf_claims()
        &&& self.wf_links()
        &&& self.wf_access()
        &&& self.wf_embeddings()
    }

    /// A fresh, empty store.
    pub fn open_in_memory() -> (db: Database)
        ensures
            db.wf(),
            db.videos@.len() == 0,
            db.transcripts@.len() == 0,
            db.search_index@.len() == 0,
            db.chunks@.len() == 0,
            db.claims@.len() == 0,
            db.links@.len() == 0,
            db.access@.len() == 0,
            db.embeddings@.len() == 0,
            db.next_claim_id == 1,
            db.next_link_id == 1,
            db.next_embedding_id == 1,
            db.next_chunk_id == 1,
    {
        Database {
            videos: Vec::new(),
            transcripts: Vec::new(),
            search_index: Vec::new(),
            chunks: Vec::new(),
            claims: Vec::new(),
            links: Vec::new(),
            access: Vec::new(),
            embeddings: Vec::new(),
            next_claim_id: 1,
            next_link_id: 1,
            next_embedding_id: 1,
            next_chunk_id: 1,
        }
    }

    /// Stores or overwrites the vector for `(source_type, source_id, model)`.
    /// A malformed payload (empty, oversized, or out-of-range components) is
    /// rejected as `InvalidInput` with the store unchanged; otherwise exactly
    /// the one row with this key holds `vector` afterwards.
    #[verifier::loop_isolation(false)]
    pub fn save_embedding(
        &mut self,
        source_type: EmbeddingSource,
        source_id: &str,
        model: &str,
        vector: &[i64],
        now: i64,
    ) -> (r: Result<Embedding, StoreError>)
        requires
            old(self).wf(),
            old(self).next_embedding_id < i64::MAX,
        ensures
            final(self).wf(),
            !valid_vector(vector@) ==> r == Err::<Embedding, StoreError>(StoreError::InvalidInput)
                && *final(self) == *old(self),
            valid_vector(vector@) ==> r is Ok && emb_row(
                r->Ok_0,
                source_type,
                source_id@,
                model@,
                vector@,
                now,
                old(self).next_embedding_id,
            ) && final(self).next_embedding_id == old(self).next_embedding_id + 1 && {
                if old(self).has_emb((source_type, source_id@, model@)) {
                    exists|i: int|
                        #![trigger old(self).embeddings@[i]]
                        0 <= i < old(self).embeddings@.len() && emb_key(old(self).embeddings@[i])
                            == (source_type, source_id@, model@) && final(self).embeddings@.len()
                            == old(self).embeddings@.len() && emb_row(
                            final(self).embeddings@[i],
                            source_type,
                            source_id@,
                            model@,
                            vector@,
                            now,
                            old(self).next_embedding_id,
                        ) && forall|j: int|
                            0 <= j < old(self).embeddings@.len() && j != i
                                ==> final(self).embeddings@[j] == old(self).embeddings@[j]
                } else {
                    final(self).embeddings@.len() == old(self).embeddings@.len() + 1 && emb_row(
                        final(self).embeddings@[old(self).embeddings@.len() as int],
                        source_type,
                        source_id@,
                        model@,
                        vector@,
                        now,
                        old(self).next_embedding_id,
                    ) && forall|j: int|
                        0 <= j < old(self).embeddings@.len() ==> final(self).embeddings@[j] == old(
                            self,
                        ).embeddings@[j]
                }
            },
            final(self).videos@ == old(self).videos@,
            final(self).transcripts@ == old(self).transcripts@,
            final(self).search_index@ == old(self).search_index@,
            final(self).chunks@ == old(self).chunks@,
            final(self).claims@ == old(self).claims@,
            final(self).links@ == old(self).links@,
            final(self).access@ == old(self).access@,
            final(self).next_claim_id == old(self).next_claim_id,
            final(self).next_link_id == old(self).next_link_id,
            final(self).next_chunk_id == old(self).next_chunk_id,
    {
        let n = vector.len();
        if n == 0 || n > MAX_DIM {
            return Err(StoreError::InvalidInput);
        }
        let mut vv: Vec<i64> = Vec::new();
        for i in 0..n
            invariant
                vv@ == vector@.subrange(0, i as int),
                forall|j: int|
                    0 <= j < i ==> -MAX_COMPONENT <= #[trigger] vector@[j] <= MAX_COMPONENT,
        {
            let c = vector[i];
            if c < -MAX_COMPONENT || c > MAX_COMPONENT {
                return Err(StoreError::InvalidInput);
            }
            vv.push(c);
            proof {
                assert(vv@ =~= vector@.subrange(0, i + 1));
            }
        }
        proof {
            assert(vv@ =~= vector@);
            assert(valid_vector(vector@));
        }
        let ghost k = (source_type, source_id@, model@);
        let m = self.embeddings.len();
        let mut pos: usize = 0;
        let mut found = false;
        let mut j: usize = 0;
        while j < m && !found
            invariant
                j <= m,
                !found ==> forall|l: int|
                    0 <= l < j ==> emb_key(#[trigger] self.embeddings@[l]) != k,
                found ==> pos < m && emb_key(self.embeddings@[pos as int]) == k,
            decreases m - j,
        {
            let row = &self.embeddings[j];
            if row.source_type == source_type && str_eq_string(source_id, &row.source_id)
                && str_eq_string(model, &row.model) {
                pos = j;
                found = true;
            }
            j = j + 1;
        }
        let e = Embedding {
            id: self.next_embedding_id,
            source_type,
            source_id: source_id.to_owned(),
            model: model.to_owned(),
            vector: vv,
            created_at: now,
        };
        let ret = Embedding {
            id: self.next_embedding_id,
            source_type,
            source_id: source_id.to_owned(),
            model: model.to_owned(),
            vector: slice_to_vec_i64(vector),
            created_at: now,
        };
        self.next_embedding_id = self.next_embedding_id + 1;
        if found {
            self.embeddings.set(pos, e);
        } else {
            self.embeddings.push(e);
        }
        Ok(ret)
    }

    /// The stored vector row for the key, if any.
    pub fn get_embedding(
        &self,
        source_type: EmbeddingSource,
        source_id: &str,
        model: &str,
    ) -> (r: Option<Embedding>)
        requires
            self.wf(),
        ensures
            r is Some <==> self.has_emb((source_type, source_id@, model@)),
            r is Some ==> exists|i: int|
                0 <= i < self.embeddings@.len() && emb_like(r->0, #[trigger] self.embeddings@[i])
                    && emb_key(self.embeddings@[i]) == (source_type, source_id@, model@),
    {
        let m = self.embeddings.len();
        for j in 0..m
            invariant
                m == self.embeddings@.len(),
                forall|l: int|
                    0 <= l < j ==> emb_key(#[trigger] self.embeddings@[l]) != (
                    source_type,
                    source_id@,
                    model@,
                    ),
        {
            let row = &self.embeddings[j];
            if row.source_type == source_type && str_eq_string(source_id, &row.source_id)
                && str_eq_string(model, &row.model) {
                return Some(clone_embedding(row));
            }
        }
        None
    }

    /// Whether any model's vector is stored for `(source_type, source_id)`.
    pub fn has_embedding(&self, source_type: EmbeddingSource, source_id: &str) -> (r: bool)
        ensures
            r == exists|i: int|
                0 <= i < self.embeddings@.len() && #[trigger] self.embeddings@[i].source_type
                    == source_type && self.embeddings@[i].source_id@ == source_id@,
    {
        let m = self.embeddings.len();
        for j in 0..m
            invariant
                m == self.embeddings@.len(),
                forall|l: int|
                    0 <= l < j ==> !(#[trigger] self.embeddings@[l].source_type == source_type
                        && self.embeddings@[l].source_id@ == source_id@),
        {
            let row = &self.embeddings[j];
            if row.source_type == source_type && str_eq_string(source_id, &row.source_id) {
                return true;
            }
        }
        false
    }

    /// Deletes every stored vector for `(source_type, source_id)` across all
    /// models; reports whether anything was removed.
    #[verifier::loop_isolation(false)]
    pub fn delete_embedding(&mut self, source_type: EmbeddingSource, source_id: &str) -> (r: bool)
        requires
            old(self).wf(),
        ensures
            final(self).wf(),
            ({
                let kept = old(self).embeddings@.filter(
                    |e: Embedding| !(e.source_type == source_type && e.source_id@ == source_id@),
                );
                &&& final(self).embeddings@.len() == kept.len()
                &&& forall|i: int|
                    0 <= i < kept.len() ==> emb_like(#[trigger] final(self).embeddings@[i], kept[i])
            }),
            r == (final(self).embeddings@.len() != old(self).embeddings@.len()),
            final(self).videos@ == old(self).videos@,
            final(self).transcripts@ == old(self).transcripts@,
            final(self).search_index@ == old(self).search_index@,
            final(self).chunks@ == old(self).chunks@,
            final(self).claims@ == old(self).claims@,
            final(self).links@ == old(self).links@,
            final(self).access@ == old(self).access@,
            final(self).next_embedding_id == old(self).next_embedding_id,
            final(self).next_claim_id == old(self).next_claim_id,
            final(self).next_link_id == old(self).next_link_id,
            final(self).next_chunk_id == old(self).next_chunk_id,
    {
        let ghost pred = |e: Embedding| !(e.source_type == source_type && e.source_id@
            == source_id@);
        let m = self.embeddings.len();
        let mut kept: Vec<Embedding> = Vec::new();
        for j in 0..m
            invariant
                self.embeddings@ == old(self).embeddings@,
                kept@.len() == old(self).embeddings@.subrange(0, j as int).filter(pred).len(),
                forall|i: int|
                    0 <= i < kept@.len() ==> emb_like(
                        #[trigger] kept@[i],
                        old(self).embeddings@.subrange(0, j as int).filter(pred)[i],
                    ),
        {
            let row = &self.embeddings[j];
            proof {
                reveal(Seq::filter);
                let s1 = old(self).embeddings@.subrange(0, j + 1);
                assert(s1.drop_last() =~= old(self).embeddings@.subrange(0, j as int));
                assert(s1.last() == old(self).embeddings@[j as int]);
            }
            if !(row.source_type == source_type && str_eq_string(source_id, &row.source_id)) {
                kept.push(clone_embedding(row));
            }
        }
        proof {
            assert(old(self).embeddings@.subrange(0, m as int) =~= old(self).embeddings@);
        }
        let removed = kept.len() != m;
        self.embeddings = kept;
        proof {
            old(self).embeddings@.lemma_filter_len(pred);
            lemma_filter_keeps_wf_embeddings(*old(self), *self, pred);
        }
        removed
    }
}

/// A derived index row stays derived in any state with the same videos and
/// transcripts.
proof fn lemma_derived_row_stable(pre: Database, post: Database, e: IndexEntry, vid: Seq<char>)
    requires
        pre.wf_videos(),
        pre.wf_transcripts(),
        post.videos@ == pre.videos@,
        post.transcripts@ == pre.transcripts@,
        pre.has_video(vid),
        pre.derived_index_row(e, vid),
    ensures
        post.derived_index_row(e, vid),
{
    let i = choose|i: int| 0 <= i < pre.videos@.len() && #[trigger] pre.videos@[i].id@ == vid;
    assert(post.videos@[i].id@ == vid);
    assert(post.has_video(vid));
    let ci = pre.video_index_of(vid);
    let cj = post.video_index_of(vid);
    assert(0 <= ci < pre.videos@.len() && pre.videos@[ci].id@ == vid);
    assert(0 <= cj < post.videos@.len() && post.videos@[cj].id@ == vid);
    if ci != cj {
        assert(pre.videos@[ci].id@ != pre.videos@[cj].id@);
    }
    assert(post.video_title_of(vid) == pre.video_title_of(vid));
    assert(post.video_desc_of(vid) == pre.video_desc_of(vid));
    if pre.has_transcript(vid) {
        let t = choose|t: int|
            0 <= t < pre.transcripts@.len() && #[trigger] pre.transcripts@[t].video_id@ == vid;
        assert(post.transcripts@[t].video_id@ == vid);
        assert(post.has_transcript(vid));
        let ti = pre.transcript_index_of(vid);
        let tj = post.transcript_index_of(vid);
        assert(0 <= ti < pre.transcripts@.len() && pre.transcripts@[ti].video_id@ == vid);
        assert(0 <= tj < post.transcripts@.len() && post.transcripts@[tj].video_id@ == vid);
        if ti != tj {
            assert(pre.transcripts@[ti].video_id@ != pre.transcripts@[tj].video_id@);
        }
        assert(post.transcript_text_of(vid) == pre.transcript_text_of(vid));
    } else {
        assert(!post.has_transcript(vid)) by {
            if post.has_transcript(vid) {
                let t = choose|t: int|
                    0 <= t < post.transcripts@.len() && #[trigger] post.transcripts@[t].video_id@
                        == vid;
                assert(pre.transcripts@[t].video_id@ == vid);
            }
        }
        assert(post.transcript_text_of(vid) == pre.transcript_text_of(vid));
    }
}

/// The searchable record for `vid` was re-derived in `post`, leaving every
/// other index entry as it was in `pre`.
pub open spec fn index_upserted(pre: Database, post: Database, vid: Seq<char>) -> bool {
    if pre.has_index_entry(vid) {
        exists|i: int|
            #![trigger pre.search_index@[i]]
            0 <= i < pre.search_index@.len() && pre.search_index@[i].video_id@ == vid
                && post.search_index@.len() == pre.search_index@.len()
                && post.derived_index_row(post.search_index@[i], vid) && (forall|j: int|
                0 <= j < pre.search_index@.len() && j != i ==> post.search_index@[j]
                    == pre.search_index@[j])
    } else {
        &&& post.search_index@.len() == pre.search_index@.len() + 1
        &&& post.derived_index_row(
            post.search_index@[pre.search_index@.len() as int],
            vid,
        )
        &&& forall|j: int|
            0 <= j < pre.search_index@.len() ==> post.search_index@[j] == pre.search_index@[j]
    }
}

/// Field-wise agreement of two transcript segments.
pub open spec fn segment_like(a: TranscriptSegment, b: TranscriptSegment) -> bool {
    &&& a.start_time == b.start_time
    &&& a.duration == b.duration
    &&& a.text@ == b.text@
}

/// Field-wise agreement of two transcript rows.
pub open spec fn transcript_like(a: Transcript, b: Transcript) -> bool {
    &&& a.video_id@ == b.video_id@
    &&& a.language@ == b.language@
    &&& a.full_text@ == b.full_text@
    &&& a.segments@.len() == b.segments@.len()
    &&& forall|i: int|
        0 <= i < a.segments@.len() ==> segment_like(
            #[trigger] a.segments@[i],
            b.segments@[i],
        )
}

impl Database {
    /// Stores or overwrites a video record and refreshes its searchable
    /// index entry.
    #[verifier::loop_isolation(false)]
    pub fn insert_video(&mut self, video: Video)
        requires
            old(self).wf(),
        ensures
            final(self).wf(),
            if old(self).has_video(video.id@) {
                exists|i: int|
                    #![trigger old(self).videos@[i]]
                    0 <= i < old(self).videos@.len() && old(self).videos@[i].id@ == video.id@
                        && final(self).videos@ == old(self).videos@.update(i, video)
            } else {
                final(self).videos@ == old(self).videos@.push(video)
            },
            final(self).has_video(video.id@),
            final(self).has_index_entry(video.id@),
            exists|i: int|
                0 <= i < final(self).search_index@.len() && final(self).derived_index_row(
                    #[trigger] final(self).search_index@[i],
                    video.id@,
                ),
            final(self).transcripts@ == old(self).transcripts@,
            final(self).chunks@ == old(self).chunks@,
            final(self).claims@ == old(self).claims@,
            final(self).links@ == old(self).links@,
            final(self).access@ == old(self).access@,
            final(self).embeddings@ == old(self).embeddings@,
            final(self).next_claim_id == old(self).next_claim_id,
            final(self).next_link_id == old(self).next_link_id,
            final(self).next_embedding_id == old(self).next_embedding_id,
            final(self).next_chunk_id == old(self).next_chunk_id,
    {
        let ghost vid = video.id@;
        let id_copy = video.id.clone();
        let m = self.videos.len();
        let mut pos: usize = 0;
        let mut found = false;
        let mut j: usize = 0;
        while j < m && !found
            invariant
                j <= m,
                !found ==> forall|l: int| 0 <= l < j ==> #[trigger] self.videos@[l].id@ != vid,
                found ==> pos < m && self.videos@[pos as int].id@ == vid,
            decreases m - j,
        {
            if self.videos[j].id == video.id {
                pos = j;
                found = true;
            }
            j = j + 1;
        }
        if found {
            self.videos.set(pos, video);
            proof {
                assert(self.has_video(vid)) by {
                    assert(self.videos@[pos as int].id@ == vid);
                }
            }
        } else {
            self.videos.push(video);
            proof {
                let n0 = old(self).videos@.len() as int;
                assert(self.has_video(vid)) by {
                    assert(self.videos@[n0].id@ == vid);
                }
            }
        }
        assert(self.wf()) by {
            assert(forall|i: int|
                0 <= i < self.links@.len() ==> self.has_claim(
                    #[trigger] self.links@[i].source_claim_id,
                ) && self.has_claim(self.links@[i].target_claim_id));
        }
        self.update_search_index(id_copy.as_str());
    }

    /// Stores or overwrites a video's transcript and refreshes the video's
    /// searchable index entry.  A transcript for a video that does not exist
    /// is stored but indexes nothing.
    #[verifier::loop_isolation(false)]
    pub fn insert_transcript(&mut self, transcript: Transcript)
        requires
            old(self).wf(),
        ensures
            final(self).wf(),
            if old(self).has_transcript(transcript.video_id@) {
                exists|i: int|
                    #![trigger old(self).transcripts@[i]]
                    0 <= i < old(self).transcripts@.len() && old(self).transcripts@[i].video_id@
                        == transcript.video_id@ && final(self).transcripts@
                        == old(self).transcripts@.update(i, transcript)
            } else {
                final(self).transcripts@ == old(self).transcripts@.push(transcript)
            },
            final(self).has_transcript(transcript.video_id@),
            old(self).has_video(transcript.video_id@) ==> exists|i: int|
                0 <= i < final(self).search_index@.len() && final(self).derived_index_row(
                    #[trigger] final(self).search_index@[i],
                    transcript.video_id@,
                ),
            !old(self).has_video(transcript.video_id@) ==> final(self).search_index@ == old(
                self,
            ).search_index@,
            final(self).videos@ == old(self).videos@,
            final(self).chunks@ == old(self).chunks@,
            final(self).claims@ == old(self).claims@,
            final(self).links@ == old(self).links@,
            final(self).access@ == old(self).access@,
            final(self).embeddings@ == old(self).embeddings@,
            final(self).next_claim_id == old(self).next_claim_id,
            final(self).next_link_id == old(self).next_link_id,
            final(self).next_embedding_id == old(self).next_embedding_id,
            final(self).next_chunk_id == old(self).next_chunk_id,
    {
        let ghost vid = transcript.video_id@;
        let id_copy = transcript.video_id.clone();
        let m = self.transcripts.len();
        let mut pos: usize = 0;
        let mut found = false;
        let mut j: usize = 0;
        while j < m && !found
            invariant
                j <= m,
                !found ==> forall|l: int|
                    0 <= l < j ==> #[trigger] self.transcripts@[l].video_id@ != vid,
                found ==> pos < m && self.transcripts@[pos as int].video_id@ == vid,
            decreases m - j,
        {
            if self.transcripts[j].video_id == transcript.video_id {
                pos = j;
                found = true;
            }
            j = j + 1;
        }
        if found {
            self.transcripts.set(pos, transcript);
            proof {
                assert(self.has_transcript(vid)) by {
                    assert(self.transcripts@[pos as int].video_id@ == vid);
                }
            }
        } else {
            self.transcripts.push(transcript);
            proof {
                let n0 = old(self).transcripts@.len() as int;
                assert(self.has_transcript(vid)) by {
                    assert(self.transcripts@[n0].video_id@ == vid);
                }
            }
        }
        assert(self.wf()) by {
            assert(forall|i: int|
                0 <= i < self.links@.len() ==> self.has_claim(
                    #[trigger] self.links@[i].source_claim_id,
                ) && self.has_claim(self.links@[i].target_claim_id));
        }
        self.update_search_index(id_copy.as_str());
    }

    /// Re-derives the searchable record of one video from its current title,
    /// description and transcript.  Indexing a video that does not exist
    /// changes nothing.
    #[verifier::loop_isolation(false)]
    fn update_search_index(&mut self, video_id: &str)
        requires
            old(self).wf(),
        ensures
            final(self).wf(),
            final(self).videos@ == old(self).videos@,
            final(self).transcripts@ == old(self).transcripts@,
            final(self).chunks@ == old(self).chunks@,
            final(self).claims@ == old(self).claims@,
            final(self).links@ == old(self).links@,
            final(self).access@ == old(self).access@,
            final(self).embeddings@ == old(self).embeddings@,
            final(self).next_claim_id == old(self).next_claim_id,
            final(self).next_link_id == old(self).next_link_id,
            final(self).next_embedding_id == old(self).next_embedding_id,
            final(self).next_chunk_id == old(self).next_chunk_id,
            !old(self).has_video(video_id@) ==> final(self).search_index@ == old(
                self,
            ).search_index@,
            old(self).has_video(video_id@) ==> final(self).has_index_entry(video_id@)
                && index_upserted(*old(self), *final(self), video_id@),
    {
        let ghost vid = video_id@;
        let vn = self.videos.len();
        let mut vpos: usize = 0;
        let mut vfound = false;
        let mut j: usize = 0;
        while j < vn && !vfound
            invariant
                j <= vn,
                !vfound ==> forall|l: int| 0 <= l < j ==> #[trigger] self.videos@[l].id@ != vid,
                vfound ==> vpos < vn && self.videos@[vpos as int].id@ == vid,
            decreases vn - j,
        {
            if str_eq_string(video_id, &self.videos[j].id) {
                vpos = j;
                vfound = true;
            }
            j = j + 1;
        }
        if !vfound {
            return ;
        }
        proof {
            assert(self.has_video(vid));
            let ci = self.video_index_of(vid);
            assert(0 <= ci < self.videos@.len() && self.videos@[ci].id@ == vid);
            if ci != vpos as int {
                assert(self.videos@[ci].id@ != self.videos@[vpos as int].id@);
            }
            assert(ci == vpos as int);
        }
        let title = self.videos[vpos].title.clone();
        let description = match &self.videos[vpos].description {
            Some(d) => d.clone(),
            None => String::new(),
        };
        let tn = self.transcripts.len();
        let mut tpos: usize = 0;
        let mut tfound = false;
        let mut k: usize = 0;
        while k < tn && !tfound
            invariant
                k <= tn,
                !tfound ==> forall|l: int|
                    0 <= l < k ==> #[trigger] self.transcripts@[l].video_id@ != vid,
                tfound ==> tpos < tn && self.transcripts@[tpos as int].video_id@ == vid,
            decreases tn - k,
        {
            if str_eq_string(video_id, &self.transcripts[k].video_id) {
                tpos = k;
                tfound = true;
            }
            k = k + 1;
        }
        let transcript_text = if tfound {
            proof {
                assert(self.has_transcript(vid));
                let ci = self.transcript_index_of(vid);
                assert(0 <= ci < self.transcripts@.len() && self.transcripts@[ci].video_id@
                    == vid);
                if ci != tpos as int {
                    assert(self.transcripts@[ci].video_id@ != self.transcripts@[tpos as int].video_id@);
                }
                assert(ci == tpos as int);
            }
            self.transcripts[tpos].full_text.clone()
        } else {
            String::new()
        };
        let entry = IndexEntry {
            video_id: video_id.to_owned(),
            title,
            description,
            transcript: transcript_text,
        };
        let ghost ge = entry;
        proof {
            assert(self.derived_index_row(ge, vid));
        }
        let sn = self.search_index.len();
        let mut spos: usize = 0;
        let mut sfound = false;
        let mut l: usize = 0;
        while l < sn && !sfound
            invariant
                l <= sn,
                !sfound ==> forall|x: int|
                    0 <= x < l ==> #[trigger] self.search_index@[x].video_id@ != vid,
                sfound ==> spos < sn && self.search_index@[spos as int].video_id@ == vid,
            decreases sn - l,
        {
            if str_eq_string(video_id, &self.search_index[l].video_id) {
                spos = l;
                sfound = true;
            }
            l = l + 1;
        }
        if sfound {
            self.search_index.set(spos, entry);
            proof {
                lemma_derived_row_stable(*old(self), *self, ge, vid);
                assert(self.search_index@[spos as int] == ge);
                assert(self.derived_index_row(self.search_index@[spos as int], vid));
                assert(self.has_index_entry(vid)) by {
                    assert(self.search_index@[spos as int].video_id@ == vid);
                }
                assert(index_upserted(*old(self), *self, vid)) by {
                    assert(old(self).search_index@[spos as int].video_id@ == vid);
                }
            }
        } else {
            self.search_index.push(entry);
            proof {
                lemma_derived_row_stable(*old(self), *self, ge, vid);
                let n0 = old(self).search_index@.len() as int;
                assert(self.search_index@[n0] == ge);
                assert(self.derived_index_row(self.search_index@[n0], vid));
                assert(self.has_index_entry(vid)) by {
                    assert(self.search_index@[n0].video_id@ == vid);
                }
                assert(!old(self).has_index_entry(vid));
                assert(index_upserted(*old(self), *self, vid));
            }
        }
        assert(self.wf()) by {
            assert(forall|i: int|
                0 <= i < self.links@.len() ==> self.has_claim(
                    #[trigger] self.links@[i].source_claim_id,
                ) && self.has_claim(self.links@[i].target_claim_id));
        }
    }

    /// Clears the index and re-derives the searchable record of every
    /// stored video; returns how many were indexed.
    #[verifier::loop_isolation(false)]
    pub fn rebuild_search_index(&mut self) -> (r: usize)
        requires
            old(self).wf(),
        ensures
            final(self).wf(),
            r == old(self).videos@.len(),
            final(self).search_index@.len() == old(self).videos@.len(),
            forall|i: int|
                0 <= i < final(self).search_index@.len() ==> final(self).derived_index_row(
                    #[trigger] final(self).search_index@[i],
                    old(self).videos@[i].id@,
                ),
            final(self).videos@ == old(self).videos@,
            final(self).transcripts@ == old(self).transcripts@,
            final(self).chunks@ == old(self).chunks@,
            final(self).claims@ == old(self).claims@,
            final(self).links@ == old(self).links@,
            final(self).access@ == old(self).access@,
            final(self).embeddings@ == old(self).embeddings@,
            final(self).next_claim_id == old(self).next_claim_id,
            final(self).next_link_id == old(self).next_link_id,
            final(self).next_embedding_id == old(self).next_embedding_id,
            final(self).next_chunk_id == old(self).next_chunk_id,
    {
        self.search_index.clear();
        assert(self.wf()) by {
            assert(forall|i: int|
                0 <= i < self.links@.len() ==> self.has_claim(
                    #[trigger] self.links@[i].source_claim_id,
                ) && self.has_claim(self.links@[i].target_claim_id));
        }
        let n = self.videos.len();
        for i in 0..n
            invariant
                self.wf(),
                self.videos@ == old(self).videos@,
                self.transcripts@ == old(self).transcripts@,
                self.chunks@ == old(self).chunks@,
                self.claims@ == old(self).claims@,
                self.links@ == old(self).links@,
                self.access@ == old(self).access@,
                self.embeddings@ == old(self).embeddings@,
                self.next_claim_id == old(self).next_claim_id,
                self.next_link_id == old(self).next_link_id,
                self.next_embedding_id == old(self).next_embedding_id,
                self.next_chunk_id == old(self).next_chunk_id,
                self.search_index@.len() == i,
                forall|x: int|
                    0 <= x < i ==> self.derived_index_row(
                        #[trigger] self.search_index@[x],
                        self.videos@[x].id@,
                    ),
        {
            let id_copy = self.videos[i].id.clone();
            proof {
                assert(self.has_video(id_copy@)) by {
                    assert(self.videos@[i as int].id@ == id_copy@);
                }
                assert(!self.has_index_entry(id_copy@)) by {
                    if self.has_index_entry(id_copy@) {
                        let x = choose|x: int|
                            0 <= x < self.search_index@.len()
                                && #[trigger] self.search_index@[x].video_id@ == id_copy@;
                        assert(self.derived_index_row(self.search_index@[x], self.videos@[x].id@));
                        assert(self.videos@[x].id@ == id_copy@);
                        assert(self.videos@[i as int].id@ == id_copy@);
                        assert(x < i as int);
                        assert(self.videos@[x].id@ != self.videos@[i as int].id@);
                    }
                }
            }
            self.update_search_index(id_copy.as_str());
        }
        n
    }
}

/// `row` is the stored form of the supplied chunk `src` for video `vid`.
pub open spec fn chunk_saved_row(row: TranscriptChunk, src: TranscriptChunk, vid: Seq<char>) -> bool {
    &&& row.video_id@ == vid
    &&& row.chunk_index == src.chunk_index
    &&& row.start_time == src.start_time
    &&& row.end_time == src.end_time
    &&& row.text@ == src.text@
    &&& row.token_count == src.token_count
    &&& row.overlap_with_previous == src.overlap_with_previous
}

/// Field-wise agreement of two transcript chunks.
pub open spec fn chunk_like(a: TranscriptChunk, b: TranscriptChunk) -> bool {
    &&& a.id == b.id
    &&& a.video_id@ == b.video_id@
    &&& a.chunk_index == b.chunk_index
    &&& a.start_time == b.start_time
    &&& a.end_time == b.end_time
    &&& a.text@ == b.text@
    &&& a.token_count == b.token_count
    &&& a.overlap_with_previous == b.overlap_with_previous
}

impl Database {
    /// The stored video with this id, if any.
    #[verifier::loop_isolation(false)]
    pub fn get_video(&self, id: &str) -> (r: Option<Video>)
        requires
            self.wf(),
        ensures
            r is Some <==> self.has_video(id@),
            r is Some ==> exists|i: int|
                0 <= i < self.videos@.len() && (#[trigger] self.videos@[i]).id@ == id@
                    && video_like(r->0, self.videos@[i]),
    {
        let n = self.videos.len();
        let mut j: usize = 0;
        while j < n
            invariant
                j <= n,
                forall|l: int| 0 <= l < j ==> #[trigger] self.videos@[l].id@ != id@,
            decreases n - j,
        {
            if str_eq_string(id, &self.videos[j].id) {
                return Some(clone_video(&self.videos[j]));
            }
            j = j + 1;
        }
        None
    }

    /// The stored transcript of this video, if any.
    #[verifier::loop_isolation(false)]
    pub fn get_transcript(&self, video_id: &str) -> (r: Option<Transcript>)
        requires
            self.wf(),
        ensures
            r is Some <==> self.has_transcript(video_id@),
            r is Some ==> exists|i: int|
                0 <= i < self.transcripts@.len() && (#[trigger] self.transcripts@[i]).video_id@
                    == video_id@ && transcript_like(r->0, self.transcripts@[i]),
    {
        let n = self.transcripts.len();
        let mut j: usize = 0;
        while j < n
            invariant
                j <= n,
                forall|l: int| 0 <= l < j ==> #[trigger] self.transcripts@[l].video_id@ != video_id@,
            decreases n - j,
        {
            if str_eq_string(video_id, &self.transcripts[j].video_id) {
                return Some(clone_transcript(&self.transcripts[j]));
            }
            j = j + 1;
        }
        None
    }

    /// Every stored video, in storage order.
    #[verifier::loop_isolation(false)]
    pub fn list_videos(&self) -> (r: Vec<Video>)
        ensures
            r@.len() == self.videos@.len(),
            forall|i: int|
                0 <= i < r@.len() ==> video_like(#[trigger] r@[i], self.videos@[i]),
    {
        let n = self.videos.len();
        let mut r: Vec<Video> = Vec::new();
        for j in 0..n
            invariant
                r@.len() == j,
                forall|i: int| 0 <= i < j ==> video_like(#[trigger] r@[i], self.videos@[i]),
        {
            r.push(clone_video(&self.videos[j]));
        }
        r
    }

    /// Every stored embedding row, in storage order.
    #[verifier::loop_isolation(false)]
    pub fn list_all_embeddings(&self) -> (r: Vec<Embedding>)
        ensures
            r@.len() == self.embeddings@.len(),
            forall|i: int|
                0 <= i < r@.len() ==> emb_like(#[trigger] r@[i], self.embeddings@[i]),
    {
        let n = self.embeddings.len();
        let mut r: Vec<Embedding> = Vec::new();
        for j in 0..n
            invariant
                r@.len() == j,
                forall|i: int| 0 <= i < j ==> emb_like(#[trigger] r@[i], self.embeddings@[i]),
        {
            r.push(clone_embedding(&self.embeddings[j]));
        }
        r
    }

    /// The stored embedding rows of one source kind, in storage order.
    #[verifier::loop_isolation(false)]
    pub fn list_embeddings_by_type(&self, source_type: EmbeddingSource) -> (r: Vec<Embedding>)
        ensures
            ({
                let kept = self.embeddings@.filter(
                    |e: Embedding| e.source_type == source_type,
                );
                &&& r@.len() == kept.len()
                &&& forall|i: int| 0 <= i < kept.len() ==> emb_like(#[trigger] r@[i], kept[i])
            }),
    {
        let ghost pred = |e: Embedding| e.source_type == source_type;
        let n = self.embeddings.len();
        let mut r: Vec<Embedding> = Vec::new();
        for j in 0..n
            invariant
                r@.len() == self.embeddings@.subrange(0, j as int).filter(pred).len(),
                forall|i: int|
                    0 <= i < r@.len() ==> emb_like(
                        #[trigger] r@[i],
                        self.embeddings@.subrange(0, j as int).filter(pred)[i],
                    ),
        {
            proof {
                reveal(Seq::filter);
                let s1 = self.embeddings@.subrange(0, j + 1);
                assert(s1.drop_last() =~= self.embeddings@.subrange(0, j as int));
                assert(s1.last() == self.embeddings@[j as int]);
            }
            if self.embeddings[j].source_type == source_type {
                r.push(clone_embedding(&self.embeddings[j]));
            }
        }
        proof {
            assert(self.embeddings@.subrange(0, n as int) =~= self.embeddings@);
        }
        r
    }

    /// Replaces every stored chunk of this video by the given ones.  The
    /// chunks must come in strictly increasing `chunk_index` order (the
    /// order of the transcript slice they were cut from); anything else is
    /// rejected as `InvalidInput` with the store unchanged.
    #[verifier::loop_isolation(false)]
    pub fn save_transcript_chunks(&mut self, video_id: &str, chunks: &[TranscriptChunk]) -> (r:
        Result<(), StoreError>)
        requires
            old(self).wf(),
            old(self).next_chunk_id + chunks@.len() <= i64::MAX,
        ensures
            final(self).wf(),
            r is Err ==> *final(self) == *old(self) && r->Err_0 == StoreError::InvalidInput
                && !(forall|i: int, j: int|
                0 <= i < j < chunks@.len() ==> #[trigger] chunks@[i].chunk_index
                    < #[trigger] chunks@[j].chunk_index),
            r is Ok ==> (forall|i: int, j: int|
                0 <= i < j < chunks@.len() ==> #[trigger] chunks@[i].chunk_index
                    < #[trigger] chunks@[j].chunk_index) && ({
                let kept = old(self).chunks@.filter(
                    |c: TranscriptChunk| c.video_id@ != video_id@,
                );
                &&& final(self).chunks@.len() == kept.len() + chunks@.len()
                &&& forall|i: int|
                    0 <= i < kept.len() ==> chunk_like(#[trigger] final(self).chunks@[i], kept[i])
                &&& forall|i: int|
                    0 <= i < chunks@.len() ==> chunk_saved_row(
                        #[trigger] final(self).chunks@[kept.len() + i],
                        chunks@[i],
                        video_id@,
                    )
            }),
            final(self).videos@ == old(self).videos@,
            final(self).transcripts@ == old(self).transcripts@,
            final(self).search_index@ == old(self).search_index@,
            final(self).claims@ == old(self).claims@,
            final(self).links@ == old(self).links@,
            final(self).access@ == old(self).access@,
            final(self).embeddings@ == old(self).embeddings@,
            final(self).next_claim_id == old(self).next_claim_id,
            final(self).next_link_id == old(self).next_link_id,
            final(self).next_embedding_id == old(self).next_embedding_id,
            r is Ok ==> final(self).next_chunk_id == old(self).next_chunk_id + chunks@.len(),
    {
        let n = chunks.len();
        let mut i: usize = 1;
        while i < n
            invariant
                1 <= i <= n || n == 0,
                forall|a: int, b: int|
                    0 <= a < b < i ==> #[trigger] chunks@[a].chunk_index
                        < #[trigger] chunks@[b].chunk_index,
            decreases n - i,
        {
            if chunks[i - 1].chunk_index >= chunks[i].chunk_index {
                return Err(StoreError::InvalidInput);
            }
            i = i + 1;
        }
        let ghost keep = |c: TranscriptChunk| c.video_id@ != video_id@;
        let m = self.chunks.len();
        let mut kept: Vec<TranscriptChunk> = Vec::new();
        for j in 0..m
            invariant
                self.chunks@ == old(self).chunks@,
                kept@.len() == old(self).chunks@.subrange(0, j as int).filter(keep).len(),
                forall|x: int|
                    0 <= x < kept@.len() ==> chunk_like(
                        #[trigger] kept@[x],
                        old(self).chunks@.subrange(0, j as int).filter(keep)[x],
                    ),
        {
            proof {
                reveal(Seq::filter);
                let s1 = old(self).chunks@.subrange(0, j + 1);
                assert(s1.drop_last() =~= old(self).chunks@.subrange(0, j as int));
                assert(s1.last() == old(self).chunks@[j as int]);
            }
            if !str_eq_string(video_id, &self.chunks[j].video_id) {
                kept.push(clone_chunk(&self.chunks[j]));
            }
        }
        proof {
            assert(old(self).chunks@.subrange(0, m as int) =~= old(self).chunks@);
            old(self).chunks@.lemma_filter_len(keep);
        }
        let ghost keptlen = kept@.len() as int;
        for x in 0..n
            invariant
                kept@.len() == keptlen + x,
                self.chunks@ == old(self).chunks@,
                self.videos@ == old(self).videos@,
                self.transcripts@ == old(self).transcripts@,
                self.search_index@ == old(self).search_index@,
                self.claims@ == old(self).claims@,
                self.links@ == old(self).links@,
                self.access@ == old(self).access@,
                self.embeddings@ == old(self).embeddings@,
                self.next_claim_id == old(self).next_claim_id,
                self.next_link_id == old(self).next_link_id,
                self.next_embedding_id == old(self).next_embedding_id,
                self.next_chunk_id == old(self).next_chunk_id + x,
                old(self).next_chunk_id + n <= i64::MAX,
                forall|y: int|
                    0 <= y < keptlen ==> chunk_like(
                        #[trigger] kept@[y],
                        old(self).chunks@.filter(keep)[y],
                    ),
                forall|y: int|
                    0 <= y < x ==> chunk_saved_row(#[trigger] kept@[keptlen + y], chunks@[y], video_id@)
                        && kept@[keptlen + y].id < self.next_chunk_id,
        {
            let c = &chunks[x];
            let row = TranscriptChunk {
                id: self.next_chunk_id,
                video_id: video_id.to_owned(),
                chunk_index: c.chunk_index,
                start_time: c.start_time,
                end_time: c.end_time,
                text: c.text.clone(),
                token_count: c.token_count,
                overlap_with_previous: c.overlap_with_previous,
            };
            self.next_chunk_id = self.next_chunk_id + 1;
            kept.push(row);
        }
        self.chunks = kept;
        proof {
            assert forall|i: int| keptlen <= i < self.chunks@.len() implies (
            #[trigger] self.chunks@[i]).video_id@ == video_id@ && self.chunks@[i].id
                < self.next_chunk_id by {
                let y = i - keptlen;
                assert(chunk_saved_row(self.chunks@[keptlen + y], chunks@[y], video_id@));
                assert(self.chunks@[keptlen + y].id < self.next_chunk_id);
            }
            assert forall|i: int, j: int|
                keptlen <= i < j < self.chunks@.len() implies #[trigger] self.chunks@[i].chunk_index
                < #[trigger] self.chunks@[j].chunk_index by {
                let y = i - keptlen;
                let z = j - keptlen;
                assert(chunk_saved_row(self.chunks@[keptlen + y], chunks@[y], video_id@));
                assert(chunk_saved_row(self.chunks@[keptlen + z], chunks@[z], video_id@));
                assert(chunks@[y].chunk_index < chunks@[z].chunk_index);
            }
            lemma_replace_chunks_wf(*old(self), *self, keep, video_id@, chunks@.len() as int);
        }
        Ok(())
    }

    /// The stored chunks of this video, in increasing `chunk_index` order
    /// when they were saved through `save_transcript_chunks`.
    #[verifier::loop_isolation(false)]
    pub fn get_transcript_chunks(&self, video_id: &str) -> (r: Vec<TranscriptChunk>)
        ensures
            ({
                let kept = self.chunks@.filter(|c: TranscriptChunk| c.video_id@ == video_id@);
                &&& r@.len() == kept.len()
                &&& forall|i: int| 0 <= i < kept.len() ==> chunk_like(#[trigger] r@[i], kept[i])
            }),
    {
        let ghost pred = |c: TranscriptChunk| c.video_id@ == video_id@;
        let n = self.chunks.len();
        let mut r: Vec<TranscriptChunk> = Vec::new();
        for j in 0..n
            invariant
                r@.len() == self.chunks@.subrange(0, j as int).filter(pred).len(),
                forall|i: int|
                    0 <= i < r@.len() ==> chunk_like(
                        #[trigger] r@[i],
                        self.chunks@.subrange(0, j as int).filter(pred)[i],
                    ),
        {
            proof {
                reveal(Seq::filter);
                let s1 = self.chunks@.subrange(0, j + 1);
                assert(s1.drop_last() =~= self.chunks@.subrange(0, j as int));
                assert(s1.last() == self.chunks@[j as int]);
            }
            if str_eq_string(video_id, &self.chunks[j].video_id) {
                r.push(clone_chunk(&self.chunks[j]));
            }
        }
        proof {
            assert(self.chunks@.subrange(0, n as int) =~= self.chunks@);
        }
        r
    }

    /// Whether any chunks are stored for this video.
    #[verifier::loop_isolation(false)]
    pub fn has_chunks(&self, video_id: &str) -> (r: bool)
        ensures
            r == exists|i: int|
                0 <= i < self.chunks@.len() && #[trigger] self.chunks@[i].video_id@ == video_id@,
    {
        let n = self.chunks.len();
        let mut j: usize = 0;
        while j < n
            invariant
                j <= n,
                forall|l: int| 0 <= l < j ==> #[trigger] self.chunks@[l].video_id@ != video_id@,
            decreases n - j,
        {
            if str_eq_string(video_id, &self.chunks[j].video_id) {
                return true;
            }
            j = j + 1;
        }
        false
    }
}

impl Database {
    /// Counts of stored embeddings, in total and per source kind, with the
    /// model name and dimension of the first stored row.
    #[verifier::loop_isolation(false)]
    pub fn get_embedding_stats(&self) -> (r: EmbeddingStats)
        requires
            self.wf(),
            self.embeddings@.len() <= i64::MAX,
        ensures
            r.total_embeddings == self.embeddings@.len(),
            r.video_embeddings == self.embeddings@.filter(
                |e: Embedding| e.source_type == EmbeddingSource::Video,
            ).len(),
            r.chunk_embeddings == self.embeddings@.filter(
                |e: Embedding| e.source_type == EmbeddingSource::Chunk,
            ).len(),
            r.claim_embeddings == self.embeddings@.filter(
                |e: Embedding| e.source_type == EmbeddingSource::Claim,
            ).len(),
            r.summary_embeddings == self.embeddings@.filter(
                |e: Embedding| e.source_type == EmbeddingSource::Summary,
            ).len(),
            r.model is Some <==> self.embeddings@.len() > 0,
            r.model is Some ==> r.model->0@ == self.embeddings@[0].model@
                && r.dimensions == Some(self.embeddings@[0].vector@.len() as i32),
            r.dimensions is Some <==> self.embeddings@.len() > 0,
    {
        let ghost vp = |e: Embedding| e.source_type == EmbeddingSource::Video;
        let ghost kp = |e: Embedding| e.source_type == EmbeddingSource::Chunk;
        let ghost cp = |e: Embedding| e.source_type == EmbeddingSource::Claim;
        let ghost sp = |e: Embedding| e.source_type == EmbeddingSource::Summary;
        let n = self.embeddings.len();
        let mut videos: usize = 0;
        let mut chunks: usize = 0;
        let mut claims: usize = 0;
        let mut summaries: usize = 0;
        for j in 0..n
            invariant
                videos == self.embeddings@.subrange(0, j as int).filter(vp).len(),
                chunks == self.embeddings@.subrange(0, j as int).filter(kp).len(),
                claims == self.embeddings@.subrange(0, j as int).filter(cp).len(),
                summaries == self.embeddings@.subrange(0, j as int).filter(sp).len(),
                videos <= j && chunks <= j && claims <= j && summaries <= j,
        {
            proof {
                reveal(Seq::filter);
                let s1 = self.embeddings@.subrange(0, j + 1);
                assert(s1.drop_last() =~= self.embeddings@.subrange(0, j as int));
                assert(s1.last() == self.embeddings@[j as int]);
                self.embeddings@.subrange(0, j as int).lemma_filter_len(vp);
                self.embeddings@.subrange(0, j as int).lemma_filter_len(kp);
                self.embeddings@.subrange(0, j as int).lemma_filter_len(cp);
                self.embeddings@.subrange(0, j as int).lemma_filter_len(sp);
            }
            let row = &self.embeddings[j];
            match row.source_type {
                EmbeddingSource::Video => {
                    videos = videos + 1;
                },
                EmbeddingSource::Chunk => {
                    chunks = chunks + 1;
                },
                EmbeddingSource::Claim => {
                    claims = claims + 1;
                },
                EmbeddingSource::Summary => {
                    summaries = summaries + 1;
                },
            }
        }
        proof {
            assert(self.embeddings@.subrange(0, n as int) =~= self.embeddings@);
        }
        let (model, dimensions) = if n > 0 {
            let first = &self.embeddings[0];
            proof {
                assert(valid_vector(self.embeddings@[0].vector@));
            }
            (Some(first.model.clone()), Some(first.vector.len() as i32))
        } else {
            (None, None)
        };
        EmbeddingStats {
            total_embeddings: n as i64,
            video_embeddings: videos as i64,
            chunk_embeddings: chunks as i64,
            claim_embeddings: claims as i64,
            summary_embeddings: summaries as i64,
            model,
            dimensions,
        }
    }

    /// The entities still lacking an embedding: video ids without a
    /// video-kind row, chunk composite keys without a chunk-kind row, and
    /// claim ids without a claim-kind row.
    #[verifier::loop_isolation(false)]
    pub fn get_items_needing_embeddings(&self) -> (r: (Vec<String>, Vec<String>, Vec<i64>))
        requires
            self.wf(),
        ensures
            ({
                let me = *self;
                let vids = self.videos@.filter(|v: Video| !me.video_has_any_embedding(v.id@));
                &&& r.0@.len() == vids.len()
                &&& forall|i: int| 0 <= i < vids.len() ==> (#[trigger] r.0@[i])@ == vids[i].id@
            }),
            ({
                let me = *self;
                let rows = self.chunks@.filter(|c: TranscriptChunk| !me.chunk_has_embedding(c));
                &&& r.1@.len() == rows.len()
                &&& forall|i: int|
                    0 <= i < rows.len() ==> (#[trigger] r.1@[i])@ == rows[i].video_id@ + ":"@
                        + crate::text::dec_of(rows[i].chunk_index as int)
            }),
            ({
                let me = *self;
                let rows = self.claims@.filter(|c: Claim| !me.claim_has_embedding(c.id));
                &&& r.2@.len() == rows.len()
                &&& forall|i: int| 0 <= i < rows.len() ==> #[trigger] r.2@[i] == rows[i].id
            }),
    {
        let ghost me = *self;
        let ghost vpred = |v: Video| !me.video_has_any_embedding(v.id@);
        let ghost kpred = |c: TranscriptChunk| !me.chunk_has_embedding(c);
        let ghost cpred = |c: Claim| !me.claim_has_embedding(c.id);
        let vn = self.videos.len();
        let mut missing_videos: Vec<String> = Vec::new();
        for j in 0..vn
            invariant
                missing_videos@.len() == self.videos@.subrange(0, j as int).filter(vpred).len(),
                forall|x: int|
                    0 <= x < missing_videos@.len() ==> (#[trigger] missing_videos@[x])@
                        == self.videos@.subrange(0, j as int).filter(vpred)[x].id@,
        {
            proof {
                reveal(Seq::filter);
                let s1 = self.videos@.subrange(0, j + 1);
                assert(s1.drop_last() =~= self.videos@.subrange(0, j as int));
                assert(s1.last() == self.videos@[j as int]);
            }
            let v = &self.videos[j];
            if !self.has_embedding(EmbeddingSource::Video, v.id.as_str()) {
                missing_videos.push(v.id.clone());
            }
        }
        let kn = self.chunks.len();
        let mut missing_chunks: Vec<String> = Vec::new();
        for j in 0..kn
            invariant
                missing_chunks@.len() == self.chunks@.subrange(0, j as int).filter(kpred).len(),
                forall|x: int|
                    0 <= x < missing_chunks@.len() ==> (#[trigger] missing_chunks@[x])@
                        == self.chunks@.subrange(0, j as int).filter(kpred)[x].video_id@ + ":"@
                        + crate::text::dec_of(
                        self.chunks@.subrange(0, j as int).filter(kpred)[x].chunk_index as int,
                    ),
        {
            proof {
                reveal(Seq::filter);
                let s1 = self.chunks@.subrange(0, j + 1);
                assert(s1.drop_last() =~= self.chunks@.subrange(0, j as int));
                assert(s1.last() == self.chunks@[j as int]);
            }
            let c = &self.chunks[j];
            let mut key = c.video_id.clone();
            key.append(":");
            key.append(crate::text::format_i64(c.chunk_index as i64).as_str());
            if !self.has_embedding(EmbeddingSource::Chunk, key.as_str()) {
                missing_chunks.push(key);
            }
        }
        let cn = self.claims.len();
        let mut missing_claims: Vec<i64> = Vec::new();
        for j in 0..cn
            invariant
                missing_claims@.len() == self.claims@.subrange(0, j as int).filter(cpred).len(),
                forall|x: int|
                    0 <= x < missing_claims@.len() ==> #[trigger] missing_claims@[x]
                        == self.claims@.subrange(0, j as int).filter(cpred)[x].id,
        {
            proof {
                reveal(Seq::filter);
                let s1 = self.claims@.subrange(0, j + 1);
                assert(s1.drop_last() =~= self.claims@.subrange(0, j as int));
                assert(s1.last() == self.claims@[j as int]);
            }
            let c = &self.claims[j];
            let key = crate::text::format_i64(c.id);
            if !self.has_embedding(EmbeddingSource::Claim, key.as_str()) {
                missing_claims.push(c.id);
            }
        }
        proof {
            assert(self.videos@.subrange(0, vn as int) =~= self.videos@);
            assert(self.chunks@.subrange(0, kn as int) =~= self.chunks@);
            assert(self.claims@.subrange(0, cn as int) =~= self.claims@);
        }
        (missing_videos, missing_chunks, missing_claims)
    }

    /// Whether any model's vector is stored for a video-kind key.
    pub open spec fn video_has_any_embedding(self, vid: Seq<char>) -> bool {
        exists|i: int|
            0 <= i < self.embeddings@.len() && (#[trigger] self.embeddings@[i]).source_type
                == EmbeddingSource::Video && self.embeddings@[i].source_id@ == vid
    }

    /// Whether any model's vector is stored for a chunk's composite key.
    pub open spec fn chunk_has_embedding(self, c: TranscriptChunk) -> bool {
        exists|i: int|
            0 <= i < self.embeddings@.len() && (#[trigger] self.embeddings@[i]).source_type
                == EmbeddingSource::Chunk && self.embeddings@[i].source_id@ == c.video_id@ + ":"@
                + crate::text::dec_of(c.chunk_index as int)
    }

    /// Whether any model's vector is stored for a claim id.
    pub open spec fn claim_has_embedding(self, id: i64) -> bool {
        exists|i: int|
            0 <= i < self.embeddings@.len() && (#[trigger] self.embeddings@[i]).source_type
                == EmbeddingSource::Claim && self.embeddings@[i].source_id@
                == crate::text::dec_of(id as int)
    }
}

/// Replacing one video's chunks keeps the store well-formed.
proof fn lemma_replace_chunks_wf(
    a: Database,
    b: Database,
    keep: spec_fn(TranscriptChunk) -> bool,
    vid: Seq<char>,
    added: int,
)
    requires
        a.wf(),
        forall|c: TranscriptChunk| #[trigger] keep(c) <==> c.video_id@ != vid,
        b.chunks@.len() == a.chunks@.filter(keep).len() + added,
        forall|i: int|
            0 <= i < a.chunks@.filter(keep).len() ==> chunk_like(
                #[trigger] b.chunks@[i],
                a.chunks@.filter(keep)[i],
            ),
        forall|i: int|
            a.chunks@.filter(keep).len() <= i < b.chunks@.len() ==> (
            #[trigger] b.chunks@[i]).video_id@ == vid && b.chunks@[i].id < b.next_chunk_id,
        forall|i: int, j: int|
            a.chunks@.filter(keep).len() <= i < j < b.chunks@.len()
                ==> #[trigger] b.chunks@[i].chunk_index < #[trigger] b.chunks@[j].chunk_index,
        a.next_chunk_id <= b.next_chunk_id,
        b.videos@ == a.videos@,
        b.transcripts@ == a.transcripts@,
        b.search_index@ == a.search_index@,
        b.claims@ == a.claims@,
        b.links@ == a.links@,
        b.access@ == a.access@,
        b.embeddings@ == a.embeddings@,
        b.next_claim_id == a.next_claim_id,
        b.next_link_id == a.next_link_id,
        b.next_embedding_id == a.next_embedding_id,
    ensures
        b.wf(),
{
    lemma_filter_chunk_rows(a.chunks@, keep);
    let f = a.chunks@.filter(keep);
    assert forall|i: int, j: int|
        #![trigger b.chunks@[i], b.chunks@[j]]
        0 <= i < j < b.chunks@.len() implies !(b.chunks@[i].video_id@ == b.chunks@[j].video_id@
        && b.chunks@[i].chunk_index == b.chunks@[j].chunk_index) by {
        if j < f.len() {
            assert(!(f[i].video_id@ == f[j].video_id@ && f[i].chunk_index == f[j].chunk_index));
        } else if i >= f.len() {
        } else {
            assert(keep(f[i]));
            assert(b.chunks@[i].video_id@ == f[i].video_id@);
            assert(b.chunks@[j].video_id@ == vid);
        }
    }
    assert forall|i: int| 0 <= i < b.chunks@.len() implies #[trigger] b.chunks@[i].id
        < b.next_chunk_id by {
        if i < f.len() {
            assert(a.chunks@.contains(f[i]));
            let k = choose|k: int| 0 <= k < a.chunks@.len() && a.chunks@[k] == f[i];
            assert(a.chunks@[k].id < a.next_chunk_id);
        }
    }
    assert(forall|i: int|
        0 <= i < b.links@.len() ==> b.has_claim(#[trigger] b.links@[i].source_claim_id)
            && b.has_claim(b.links@[i].target_claim_id));
}

/// A filtered chunk collection keeps pairwise-distinct `(video, index)`
/// keys, and each kept row is one of the original rows.
proof fn lemma_filter_chunk_rows(s: Seq<TranscriptChunk>, pred: spec_fn(TranscriptChunk) -> bool)
    requires
        forall|i: int, j: int|
            #![trigger s[i], s[j]]
            0 <= i < j < s.len() ==> !(s[i].video_id@ == s[j].video_id@ && s[i].chunk_index
                == s[j].chunk_index),
    ensures
        forall|i: int, j: int|
            #![trigger s.filter(pred)[i], s.filter(pred)[j]]
            0 <= i < j < s.filter(pred).len() ==> !(s.filter(pred)[i].video_id@ == s.filter(
                pred,
            )[j].video_id@ && s.filter(pred)[i].chunk_index == s.filter(pred)[j].chunk_index),
        forall|i: int|
            0 <= i < s.filter(pred).len() ==> pred(#[trigger] s.filter(pred)[i]) && s.contains(
                s.filter(pred)[i],
            ),
    decreases s.len(),
{
    reveal(Seq::filter);
    if s.len() > 0 {
        let s0 = s.drop_last();
        let f = s.filter(pred);
        let f0 = s0.filter(pred);
        lemma_filter_chunk_rows(s0, pred);
        assert forall|i: int| 0 <= i < f0.len() implies s.contains(f0[i]) by {
            assert(s0.contains(f0[i]));
            let k = choose|k: int| 0 <= k < s0.len() && s0[k] == f0[i];
            assert(s[k] == f0[i]);
        }
        if pred(s.last()) {
            assert(f == f0.push(s.last()));
            assert(s.contains(s.last())) by {
                assert(s[s.len() - 1] == s.last());
            }
            assert forall|i: int, j: int|
                #![trigger f[i], f[j]]
                0 <= i < j < f.len() implies !(f[i].video_id@ == f[j].video_id@
                && f[i].chunk_index == f[j].chunk_index) by {
                if j < f0.len() {
                    assert(f[i] == f0[i] && f[j] == f0[j]);
                } else {
                    assert(f[j] == s.last());
                    assert(f[i] == f0[i]);
                    assert(s0.contains(f0[i]));
                    let k = choose|k: int| 0 <= k < s0.len() && s0[k] == f0[i];
                    assert(s[k] == f0[i] && k < s.len() - 1);
                    assert(!(s[k].video_id@ == s[s.len() - 1].video_id@ && s[k].chunk_index == s[
                        s.len() - 1].chunk_index));
                }
            }
        } else {
            assert(f == f0);
        }
    }
}

/// A copy of one video row.
fn clone_video(v: &Video) -> (r: Video)
    ensures
        video_like(r, *v),
{
    Video {
        id: v.id.clone(),
        url: v.url.clone(),
        title: v.title.clone(),
        channel: match &v.channel {
            Some(c) => Some(c.clone()),
            None => None,
        },
        upload_date: v.upload_date,
        description: match &v.description {
            Some(d) => Some(d.clone()),
            None => None,
        },
        added_at: v.added_at,
    }
}

/// A copy of one transcript row.
#[verifier::loop_isolation(false)]
fn clone_transcript(t: &Transcript) -> (r: Transcript)
    ensures
        transcript_like(r, *t),
{
    let n = t.segments.len();
    let mut segments: Vec<TranscriptSegment> = Vec::new();
    for i in 0..n
        invariant
            segments@.len() == i,
            forall|j: int|
                0 <= j < i ==> segment_like(#[trigger] segments@[j], t.segments@[j]),
    {
        let s = &t.segments[i];
        segments.push(
            TranscriptSegment {
                start_time: s.start_time,
                duration: s.duration,
                text: s.text.clone(),
            },
        );
    }
    Transcript {
        video_id: t.video_id.clone(),
        language: t.language.clone(),
        segments,
        full_text: t.full_text.clone(),
    }
}

/// A copy of one chunk row.
pub(crate) fn clone_chunk(c: &TranscriptChunk) -> (r: TranscriptChunk)
    ensures
        chunk_like(r, *c),
{
    TranscriptChunk {
        id: c.id,
        video_id: c.video_id.clone(),
        chunk_index: c.chunk_index,
        start_time: c.start_time,
        end_time: c.end_time,
        text: c.text.clone(),
        token_count: c.token_count,
        overlap_with_previous: c.overlap_with_previous,
    }
}

/// Replacing the embedding rows by copies of a filtered selection keeps the
/// store well-formed, as long as nothing else changed.
proof fn lemma_filter_keeps_wf_embeddings(
    a: Database,
    b: Database,
    pred: spec_fn(Embedding) -> bool,
)
    requires
        a.wf(),
        b.embeddings@.len() == a.embeddings@.filter(pred).len(),
        forall|i: int|
            0 <= i < b.embeddings@.len() ==> emb_like(
                #[trigger] b.embeddings@[i],
                a.embeddings@.filter(pred)[i],
            ),
        b.videos@ == a.videos@,
        b.transcripts@ == a.transcripts@,
        b.search_index@ == a.search_index@,
        b.chunks@ == a.chunks@,
        b.claims@ == a.claims@,
        b.links@ == a.links@,
        b.access@ == a.access@,
        b.next_claim_id == a.next_claim_id,
        b.next_link_id == a.next_link_id,
        b.next_embedding_id == a.next_embedding_id,
        b.next_chunk_id == a.next_chunk_id,
    ensures
        b.wf(),
{
    lemma_filter_emb_rows(a.embeddings@, pred);
    let f = a.embeddings@.filter(pred);
    assert forall|i: int, j: int|
        #![trigger b.embeddings@[i], b.embeddings@[j]]
        0 <= i < j < b.embeddings@.len() implies emb_key(b.embeddings@[i]) != emb_key(
        b.embeddings@[j],
    ) by {
        assert(emb_key(b.embeddings@[i]) == emb_key(f[i]));
        assert(emb_key(b.embeddings@[j]) == emb_key(f[j]));
        assert(emb_key(f[i]) != emb_key(f[j]));
    }
    assert forall|i: int|
        0 <= i < b.embeddings@.len() implies valid_vector(#[trigger] b.embeddings@[i].vector@)
        && b.embeddings@[i].id < b.next_embedding_id by {
        assert(a.embeddings@.contains(f[i]));
        let k = choose|k: int| 0 <= k < a.embeddings@.len() && a.embeddings@[k] == f[i];
        assert(valid_vector(a.embeddings@[k].vector@));
        assert(b.embeddings@[i].vector@ == f[i].vector@);
        assert(b.embeddings@[i].id == f[i].id);
    }
    assert(forall|i: int|
        0 <= i < b.links@.len() ==> b.has_claim(#[trigger] b.links@[i].source_claim_id)
            && b.has_claim(b.links@[i].target_claim_id));
}

/// A filtered embedding collection keeps pairwise-distinct keys, and each
/// kept row is one of the original rows.
proof fn lemma_filter_emb_rows(s: Seq<Embedding>, pred: spec_fn(Embedding) -> bool)
    requires
        forall|i: int, j: int|
            #![trigger s[i], s[j]]
            0 <= i < j < s.len() ==> emb_key(s[i]) != emb_key(s[j]),
    ensures
        forall|i: int, j: int|
            #![trigger s.filter(pred)[i], s.filter(pred)[j]]
            0 <= i < j < s.filter(pred).len() ==> emb_key(s.filter(pred)[i]) != emb_key(
                s.filter(pred)[j],
            ),
        forall|i: int| 0 <= i < s.filter(pred).len() ==> s.contains(#[trigger] s.filter(pred)[i]),
    decreases s.len(),
{
    reveal(Seq::filter);
    if s.len() > 0 {
        let s0 = s.drop_last();
        let f = s.filter(pred);
        let f0 = s0.filter(pred);
        lemma_filter_emb_rows(s0, pred);
        assert forall|i: int| 0 <= i < f0.len() implies s.contains(f0[i]) by {
            assert(s0.contains(f0[i]));
            let k = choose|k: int| 0 <= k < s0.len() && s0[k] == f0[i];
            assert(s[k] == f0[i]);
        }
        if pred(s.last()) {
            assert(f == f0.push(s.last()));
            assert(s.contains(s.last())) by {
                assert(s[s.len() - 1] == s.last());
            }
            assert forall|i: int, j: int|
                #![trigger f[i], f[j]]
                0 <= i < j < f.len() implies emb_key(f[i]) != emb_key(f[j]) by {
                if j < f0.len() {
                    assert(f[i] == f0[i] && f[j] == f0[j]);
                } else {
                    assert(f[j] == s.last());
                    assert(f[i] == f0[i]);
                    assert(s0.contains(f0[i]));
                    let k = choose|k: int| 0 <= k < s0.len() && s0[k] == f0[i];
                    assert(s[k] == f0[i] && k < s.len() - 1);
                    assert(emb_key(s[k]) != emb_key(s[s.len() - 1]));
                }
            }
        } else {
            assert(f == f0);
        }
    }
}

/// Whether `s` spells the same characters as the string `t`.
pub(crate) fn str_eq_string(s: &str, t: &String) -> (b: bool)
    ensures
        b == (s@ == t@),
{
    let own = s.to_owned();
    own == *t
}

/// A copy of one embedding row.
pub(crate) fn clone_embedding(e: &Embedding) -> (r: Embedding)
    ensures
        emb_like(r, *e),
{
    Embedding {
        id: e.id,
        source_type: e.source_type,
        source_id: e.source_id.clone(),
        model: e.model.clone(),
        vector: clone_i64_vec(&e.vector),
        created_at: e.created_at,
    }
}

fn clone_i64_vec(v: &Vec<i64>) -> (r: Vec<i64>)
    ensures
        r@ == v@,
{
    let mut r: Vec<i64> = Vec::new();
    let n = v.len();
    for i in 0..n
        invariant
            n == v@.len(),
            r@ == v@.subrange(0, i as int),
    {
        r.push(v[i]);
        proof {
            assert(r@ =~= v@.subrange(0, i + 1));
        }
    }
    proof {
        assert(r@ =~= v@);
    }
    r
}

fn slice_to_vec_i64(v: &[i64]) -> (r: Vec<i64>)
    ensures
        r@ == v@,
{
    let mut r: Vec<i64> = Vec::new();
    let n = v.len();
    for i in 0..n
        invariant
            n == v@.len(),
            r@ == v@.subrange(0, i as int),
    {
        r.push(v[i]);
        proof {
            assert(r@ =~= v@.subrange(0, i + 1));
        }
    }
    proof {
        assert(r@ =~= v@);
    }
    r
}

} // verus!
