//! The in-memory model of a bucket's store: documents, their chunks, and
//! the study items, with the store's invariants.
//!
//! A document's canonical source path is its deduplication key: re-adding
//! a source that is already present is a reported no-op, never a duplicate
//! insert.  Deleting a document cascades to its chunks.  The persistent
//! engine that mirrors this model lives outside the crate; everything the
//! retrieval core needs from storage is specified here.

use vstd::prelude::*;

use crate::chunker::{chunk_text, spec_chunks_of, Chunk, ChunkConfig};
use crate::search::{spec_find_from, view_pairs};
use crate::study::{
    due_items, new_item, spec_due_items, spec_filter_due, spec_item_wf, spec_new_count,
    spec_new_ease, spec_new_interval, update_after_review, StudyItem, StudyItemKind,
};
use crate::text::{chars_eq, chars_vec, map_lower, spec_lower};

verus! {

/// An ingested unit of content.
#[derive(Debug, Clone)]
pub struct Document {
    pub id: i64,
    /// Canonical source identifier: an absolute file path or a URL.
    pub source_path: String,
    pub filename: String,
    pub content_type: String,
    pub content: String,
    pub tags: Option<String>,
    pub created_at: i64,
    pub updated_at: i64,
}

/// A stored chunk of a document, optionally carrying the bytes of its
/// embedding vector.
#[derive(Debug, Clone)]
pub struct StoredChunk {
    pub id: i64,
    pub document_id: i64,
    pub chunk_index: i64,
    pub content: String,
    pub embedding: Option<Vec<u8>>,
}

/// What an ingestion attempt did.
#[derive(Debug, Clone, Copy, PartialEq, Eq, Structural)]
pub enum IngestOutcome {
    Added,
    AlreadyPresent,
}

/// One bucket's contents.
pub struct Library {
    pub documents: Vec<Document>,
    pub chunks: Vec<StoredChunk>,
    pub study_items: Vec<StudyItem>,
    pub next_document_id: i64,
    pub next_chunk_id: i64,
    pub next_study_item_id: i64,
}

/// Whether some document carries the given source path.
pub open spec fn spec_has_path(docs: Seq<Document>, path: Seq<char>) -> bool {
    exists|i: int| 0 <= i < docs.len() && (#[trigger] docs[i]).source_path@ == path
}

/// The store's invariants: ids are unique and below their counters, and
/// source paths never repeat.
pub open spec fn spec_library_wf(lib: Library) -> bool {
    &&& forall|i: int|
        0 <= i < lib.documents@.len() ==> 0 < (#[trigger] lib.documents@[i]).id
            < lib.next_document_id
    &&& forall|i: int, j: int|
        0 <= i < j < lib.documents@.len() ==> (#[trigger] lib.documents@[i]).id
            != (#[trigger] lib.documents@[j]).id
    &&& forall|i: int, j: int|
        0 <= i < j < lib.documents@.len() ==> (#[trigger] lib.documents@[i]).source_path@
            != (#[trigger] lib.documents@[j]).source_path@
    &&& forall|i: int|
        0 <= i < lib.chunks@.len() ==> 0 < (#[trigger] lib.chunks@[i]).id < lib.next_chunk_id
    &&& forall|i: int, j: int|
        0 <= i < j < lib.chunks@.len() ==> (#[trigger] lib.chunks@[i]).id
            != (#[trigger] lib.chunks@[j]).id
    &&& forall|i: int|
        0 <= i < lib.study_items@.len() ==> 0 < (#[trigger] lib.study_items@[i]).id
            < lib.next_study_item_id
    &&& forall|i: int, j: int|
        0 <= i < j < lib.study_items@.len() ==> (#[trigger] lib.study_items@[i]).id
            != (#[trigger] lib.study_items@[j]).id
    &&& forall|i: int| 0 <= i < lib.study_items@.len() ==> spec_item_wf(
        #[trigger] lib.study_items@[i],
    )
    &&& 0 < lib.next_document_id
    &&& 0 < lib.next_chunk_id
    &&& 0 < lib.next_study_item_id
}

impl Library {
    /// An empty bucket.
    pub fn new() -> (r: Library)
        ensures
            spec_library_wf(r),
            r.documents@.len() == 0,
            r.chunks@.len() == 0,
            r.study_items@.len() == 0,
    {
        Library {
            documents: Vec::new(),
            chunks: Vec::new(),
            study_items: Vec::new(),
            next_document_id: 1,
            next_chunk_id: 1,
            next_study_item_id: 1,
        }
    }

    pub fn document_count(&self) -> (r: usize)
        ensures
            r == self.documents@.len(),
    {
        self.documents.len()
    }

    pub fn chunk_count(&self) -> (r: usize)
        ensures
            r == self.chunks@.len(),
    {
        self.chunks.len()
    }

    /// Whether a document with this source path is already present.
    pub fn exists_by_path(&self, source_path: &str) -> (r: bool)
        ensures
            r == spec_has_path(self.documents@, source_path@),
    {
        let pv = chars_vec(source_path);
        let mut i: usize = 0;
        while i < self.documents.len()
            invariant
                i <= self.documents@.len(),
                pv@ == source_path@,
                forall|k: int|
                    0 <= k < i ==> (#[trigger] self.documents@[k]).source_path@ != source_path@,
            decreases self.documents@.len() - i,
        {
            let dv = chars_vec(self.documents[i].source_path.as_str());
            if chars_eq(&dv, &pv) {
                return true;
            }
            i += 1;
        }
        false
    }

    /// Insert a document.  The caller has ruled out a duplicate source
    /// path; the new document gets the next free id.
    fn push_document(
        &mut self,
        source_path: &str,
        filename: &str,
        content_type: &str,
        content: &str,
        tags: Option<String>,
        now_secs: i64,
    ) -> (r: i64)
        requires
            spec_library_wf(*old(self)),
            !spec_has_path(old(self).documents@, source_path@),
            old(self).next_document_id < i64::MAX,
        ensures
            spec_library_wf(*final(self)),
            r == old(self).next_document_id,
            final(self).documents@.len() == old(self).documents@.len() + 1,
            final(self).documents@ == old(self).documents@.push(
                final(self).documents@[old(self).documents@.len() as int],
            ),
            final(self).documents@[old(self).documents@.len() as int].id == r,
            final(self).documents@[old(self).documents@.len() as int].source_path@
                == source_path@,
            final(self).documents@[old(self).documents@.len() as int].filename@ == filename@,
            final(self).documents@[old(self).documents@.len() as int].content_type@
                == content_type@,
            final(self).documents@[old(self).documents@.len() as int].content@ == content@,
            final(self).documents@[old(self).documents@.len() as int].tags == tags,
            final(self).documents@[old(self).documents@.len() as int].created_at == now_secs,
            final(self).documents@[old(self).documents@.len() as int].updated_at == now_secs,
            final(self).chunks@ == old(self).chunks@,
            final(self).study_items@ == old(self).study_items@,
            final(self).next_document_id == old(self).next_document_id + 1,
            final(self).next_chunk_id == old(self).next_chunk_id,
            final(self).next_study_item_id == old(self).next_study_item_id,
            spec_has_path(final(self).documents@, source_path@),
    {
        let id = self.next_document_id;
        let doc = Document {
            id,
            source_path: source_path.to_owned(),
            filename: filename.to_owned(),
            content_type: content_type.to_owned(),
            content: content.to_owned(),
            tags,
            created_at: now_secs,
            updated_at: now_secs,
        };
        let ghost pre = self.documents@;
        self.documents.push(doc);
        self.next_document_id = self.next_document_id + 1;
        proof {
            assert(self.documents@[pre.len() as int].source_path@ == source_path@);
            assert(self.documents@ =~= pre.push(self.documents@[pre.len() as int]));
        }
        id
    }

    /// Insert one chunk for a document, with the next free id.
    pub fn insert_chunk(
        &mut self,
        document_id: i64,
        chunk_index: i64,
        content: &str,
        embedding: Option<Vec<u8>>,
    ) -> (r: i64)
        requires
            spec_library_wf(*old(self)),
            old(self).next_chunk_id < i64::MAX,
        ensures
            spec_library_wf(*final(self)),
            r == old(self).next_chunk_id,
            final(self).chunks@.len() == old(self).chunks@.len() + 1,
            final(self).chunks@ == old(self).chunks@.push(
                final(self).chunks@[old(self).chunks@.len() as int],
            ),
            final(self).chunks@[old(self).chunks@.len() as int].id == r,
            final(self).chunks@[old(self).chunks@.len() as int].document_id == document_id,
            final(self).chunks@[old(self).chunks@.len() as int].chunk_index == chunk_index,
            final(self).chunks@[old(self).chunks@.len() as int].content@ == content@,
            final(self).chunks@[old(self).chunks@.len() as int].embedding == embedding,
            final(self).documents@ == old(self).documents@,
            final(self).study_items@ == old(self).study_items@,
            final(self).next_document_id == old(self).next_document_id,
            final(self).next_chunk_id == old(self).next_chunk_id + 1,
            final(self).next_study_item_id == old(self).next_study_item_id,
    {
        let id = self.next_chunk_id;
        let chunk = StoredChunk { id, document_id, chunk_index, content: content.to_owned(), embedding };
        let ghost pre = self.chunks@;
        self.chunks.push(chunk);
        self.next_chunk_id = self.next_chunk_id + 1;
        proof {
            assert(self.chunks@ =~= pre.push(self.chunks@[pre.len() as int]));
        }
        id
    }

    /// What storing a text's chunks means: the chunk list grows by exactly
    /// one record per emitted chunk, in order, each owned by the new
    /// document, under its dense ordinal, with a fresh id and no embedding
    /// yet; everything stored before stays untouched.
    pub open spec fn spec_chunks_appended(
        before: Library,
        after: Library,
        sc: Seq<(int, int, Seq<char>)>,
    ) -> bool {
        &&& after.chunks@.len() == before.chunks@.len() + sc.len()
        &&& forall|k: int|
            0 <= k < before.chunks@.len() ==> after.chunks@[k] == before.chunks@[k]
        &&& forall|k: int|
            0 <= k < sc.len() ==> (#[trigger] after.chunks@[before.chunks@.len() + k]).id
                == before.next_chunk_id + k && after.chunks@[before.chunks@.len()
                + k].document_id == before.next_document_id && after.chunks@[before.chunks@.len()
                + k].chunk_index == k && after.chunks@[before.chunks@.len() + k].content@
                == sc[k].2 && after.chunks@[before.chunks@.len() + k].embedding is None
    }

    /// Ingest a document: a no-op when the source path is already present
    /// (re-running ingestion never duplicates a document), otherwise the
    /// document is inserted and its text is chunked, each chunk stored
    /// under its dense ordinal with no embedding yet.
    pub fn ingest_document(
        &mut self,
        source_path: &str,
        filename: &str,
        content_type: &str,
        content: &str,
        tags: Option<String>,
        config: &ChunkConfig,
        now_secs: i64,
    ) -> (r: IngestOutcome)
        requires
            spec_library_wf(*old(self)),
            config.chunk_size >= 1,
            old(self).next_document_id < i64::MAX,
        ensures
            spec_library_wf(*final(self)),
            spec_has_path(old(self).documents@, source_path@) ==> r
                == IngestOutcome::AlreadyPresent && *final(self) == *old(self),
            !spec_has_path(old(self).documents@, source_path@) ==> r == IngestOutcome::Added
                && final(self).documents@.len() == old(self).documents@.len() + 1
                && final(self).documents@[old(self).documents@.len() as int].id == old(self).next_document_id
                && final(self).documents@[old(self).documents@.len() as int].source_path@
                == source_path@
                && final(self).documents@[old(self).documents@.len() as int].filename@
                == filename@
                && final(self).documents@[old(self).documents@.len() as int].content@ == content@
                && final(self).documents@[old(self).documents@.len() as int].content_type@
                == content_type@
                && final(self).documents@[old(self).documents@.len() as int].tags == tags
                && final(self).documents@[old(self).documents@.len() as int].created_at
                == now_secs
                && final(self).documents@[old(self).documents@.len() as int].updated_at
                == now_secs
                && (forall|k: int|
                0 <= k < old(self).documents@.len() ==> final(self).documents@[k] == old(self).documents@[k]),
            // the chunking half: when the chunk id space has room, exactly
            // the emitted chunks of the text are stored
            !spec_has_path(old(self).documents@, source_path@) && old(self).next_chunk_id
                + spec_chunks_of(
                content@,
                config.chunk_size as int,
                config.overlap as int,
            ).len() <= i64::MAX ==> Self::spec_chunks_appended(
                *old(self),
                *final(self),
                spec_chunks_of(content@, config.chunk_size as int, config.overlap as int),
            ),
            spec_has_path(final(self).documents@, source_path@),
            final(self).documents@.len() >= old(self).documents@.len(),
            final(self).chunks@.len() >= old(self).chunks@.len(),
            final(self).study_items@ == old(self).study_items@,
    {
        if self.exists_by_path(source_path) {
            return IngestOutcome::AlreadyPresent;
        }
        let doc_id = self.push_document(source_path, filename, content_type, content, tags, now_secs);
        let chunks: Vec<Chunk> = chunk_text(content, config);
        let ghost sc = spec_chunks_of(content@, config.chunk_size as int, config.overlap as int);
        let ghost rh = old(self).next_chunk_id + sc.len() <= i64::MAX;
        proof {
            assert(chunks@.map_values(
                |c: Chunk| (c.start_char as int, c.end_char as int, c.text@),
            ) == sc);
            assert(chunks@.len() == sc.len());
        }
        let mut i: usize = 0;
        while i < chunks.len()
            invariant
                spec_library_wf(*self),
                i <= chunks@.len(),
                sc == spec_chunks_of(content@, config.chunk_size as int, config.overlap as int),
                rh == (old(self).next_chunk_id + sc.len() <= i64::MAX),
                chunks@.map_values(|c: Chunk| (c.start_char as int, c.end_char as int, c.text@))
                    == sc,
                chunks@.len() == sc.len(),
                forall|k: int| 0 <= k < chunks@.len() ==> (#[trigger] chunks@[k]).index == k,
                doc_id == old(self).next_document_id,
                spec_has_path(self.documents@, source_path@),
                self.documents@.len() == old(self).documents@.len() + 1,
                self.documents@[old(self).documents@.len() as int].id == old(self).next_document_id,
                self.documents@[old(self).documents@.len() as int].source_path@ == source_path@,
                self.documents@[old(self).documents@.len() as int].filename@ == filename@,
                self.documents@[old(self).documents@.len() as int].content@ == content@,
                self.documents@[old(self).documents@.len() as int].content_type@
                    == content_type@,
                self.documents@[old(self).documents@.len() as int].tags == tags,
                self.documents@[old(self).documents@.len() as int].created_at == now_secs,
                self.documents@[old(self).documents@.len() as int].updated_at == now_secs,
                forall|k: int|
                    0 <= k < old(self).documents@.len() ==> self.documents@[k] == old(self).documents@[k],
                self.chunks@.len() >= old(self).chunks@.len(),
                self.study_items@ == old(self).study_items@,
                0 < old(self).next_chunk_id,
                rh ==> self.next_chunk_id == old(self).next_chunk_id + i,
                rh ==> self.chunks@.len() == old(self).chunks@.len() + i,
                rh ==> forall|k: int|
                    0 <= k < old(self).chunks@.len() ==> self.chunks@[k] == old(self).chunks@[k],
                rh ==> forall|k: int|
                    0 <= k < i ==> (#[trigger] self.chunks@[old(self).chunks@.len() + k]).id
                        == old(self).next_chunk_id + k && self.chunks@[old(self).chunks@.len()
                        + k].document_id == old(self).next_document_id && self.chunks@[old(self).chunks@.len() + k].chunk_index == k && self.chunks@[old(self).chunks@.len()
                        + k].content@ == sc[k].2 && self.chunks@[old(self).chunks@.len()
                        + k].embedding is None,
            decreases chunks@.len() - i,
        {
            if self.next_chunk_id == i64::MAX {
                // the chunk id space is exhausted; keep what was stored
                proof {
                    if rh {
                        assert(old(self).next_chunk_id + i < i64::MAX);
                        assert(false);
                    }
                }
                i = chunks.len();
                continue;
            }
            let ghost pre_chunks = self.chunks@;
            self.insert_chunk(doc_id, chunks[i].index as i64, chunks[i].text.as_str(), None);
            proof {
                assert(chunks@.map_values(
                    |c: Chunk| (c.start_char as int, c.end_char as int, c.text@),
                )[i as int] == sc[i as int]);
                assert(chunks@[i as int].text@ == sc[i as int].2);
                if rh {
                    assert(i as int <= i64::MAX);
                    assert(chunks@[i as int].index as i64 == i as i64);
                    assert forall|k: int|
                        0 <= k < i + 1 implies (#[trigger] self.chunks@[old(self).chunks@.len()
                        + k]).id == old(self).next_chunk_id + k && self.chunks@[old(self).chunks@.len() + k].document_id == old(self).next_document_id
                        && self.chunks@[old(self).chunks@.len() + k].chunk_index == k
                        && self.chunks@[old(self).chunks@.len() + k].content@ == sc[k].2
                        && self.chunks@[old(self).chunks@.len() + k].embedding is None by {
                        if k < i as int {
                            assert(self.chunks@[old(self).chunks@.len() + k] == pre_chunks[old(self).chunks@.len() + k]);
                        }
                    }
                }
            }
            i += 1;
        }
        proof {
            assert(i == chunks@.len());
        }
        IngestOutcome::Added
    }

    /// Index of the document with the given id, if any.
    fn find_document(&self, id: i64) -> (r: Option<usize>)
        ensures
            match r {
                Some(i) => i < self.documents@.len() && self.documents@[i as int].id == id,
                None => forall|k: int|
                    0 <= k < self.documents@.len() ==> (#[trigger] self.documents@[k]).id != id,
            },
    {
        let mut i: usize = 0;
        while i < self.documents.len()
            invariant
                i <= self.documents@.len(),
                forall|k: int| 0 <= k < i ==> (#[trigger] self.documents@[k]).id != id,
            decreases self.documents@.len() - i,
        {
            if self.documents[i].id == id {
                return Some(i);
            }
            i += 1;
        }
        None
    }

    /// A copy of the document with the given id, if it exists.
    pub fn get_document(&self, id: i64) -> (r: Option<Document>)
        ensures
            match r {
                Some(d) => exists|i: int|
                    0 <= i < self.documents@.len() && (#[trigger] self.documents@[i]).id == id
                        && d.filename@ == self.documents@[i].filename@ && d.content@
                        == self.documents@[i].content@ && d.source_path@
                        == self.documents@[i].source_path@ && d.id == id,
                None => forall|k: int|
                    0 <= k < self.documents@.len() ==> (#[trigger] self.documents@[k]).id != id,
            },
    {
        match self.find_document(id) {
            Some(i) => {
                let d = &self.documents[i];
                let copy = Document {
                    id: d.id,
                    source_path: d.source_path.clone(),
                    filename: d.filename.clone(),
                    content_type: d.content_type.clone(),
                    content: d.content.clone(),
                    tags: match &d.tags {
                        Some(t) => Some(t.clone()),
                        None => None,
                    },
                    created_at: d.created_at,
                    updated_at: d.updated_at,
                };
                proof {
                    assert(self.documents@[i as int].id == id);
                }
                Some(copy)
            },
            None => None,
        }
    }

    /// The chunks that survive deleting a document: every chunk owned by
    /// another document, in store order.
    pub open spec fn spec_keep_chunks(s: Seq<StoredChunk>, id: i64) -> Seq<StoredChunk>
        decreases s.len(),
    {
        if s.len() == 0 {
            Seq::empty()
        } else if s[0].document_id == id {
            Self::spec_keep_chunks(s.drop_first(), id)
        } else {
            seq![s[0]] + Self::spec_keep_chunks(s.drop_first(), id)
        }
    }

    proof fn lemma_keep_chunks_push(s: Seq<StoredChunk>, x: StoredChunk, id: i64)
        ensures
            Self::spec_keep_chunks(s.push(x), id) == Self::spec_keep_chunks(s, id) + (if x.document_id
                == id {
                Seq::<StoredChunk>::empty()
            } else {
                seq![x]
            }),
        decreases s.len(),
    {
        if s.len() == 0 {
            assert(s.push(x)[0] == x);
            assert(s.push(x).drop_first() =~= Seq::<StoredChunk>::empty());
            assert(Self::spec_keep_chunks(Seq::<StoredChunk>::empty(), id) =~= Seq::<
                StoredChunk,
            >::empty());
            assert(s =~= Seq::<StoredChunk>::empty());
            if x.document_id == id {
                assert(Self::spec_keep_chunks(s.push(x), id) =~= Self::spec_keep_chunks(s, id)
                    + Seq::<StoredChunk>::empty());
            } else {
                assert(Self::spec_keep_chunks(s.push(x), id) =~= seq![x]);
                assert(Self::spec_keep_chunks(s, id) + seq![x] =~= seq![x]);
            }
        } else {
            assert(s.push(x).drop_first() =~= s.drop_first().push(x));
            Self::lemma_keep_chunks_push(s.drop_first(), x, id);
            if s[0].document_id == id {
            } else {
                assert(seq![s[0]] + (Self::spec_keep_chunks(s.drop_first(), id) + (if x.document_id
                    == id {
                    Seq::<StoredChunk>::empty()
                } else {
                    seq![x]
                })) =~= (seq![s[0]] + Self::spec_keep_chunks(s.drop_first(), id)) + (if x.document_id
                    == id {
                    Seq::<StoredChunk>::empty()
                } else {
                    seq![x]
                }));
            }
        }
    }

    /// Deletes the document with the given id, cascading to its chunks;
    /// reports whether anything was deleted.
    pub fn delete_document(&mut self, id: i64) -> (r: bool)
        requires
            spec_library_wf(*old(self)),
        ensures
            spec_library_wf(*final(self)),
            r == (exists|i: int|
                0 <= i < old(self).documents@.len() && (#[trigger] old(self).documents@[i]).id
                    == id),
            r ==> final(self).documents@.len() == old(self).documents@.len() - 1 && (exists|i: int|
                0 <= i < old(self).documents@.len() && (#[trigger] old(self).documents@[i]).id
                    == id && final(self).documents@ == old(self).documents@.remove(i)),
            !r ==> final(self).documents@ == old(self).documents@,
            final(self).chunks@ == Self::spec_keep_chunks(old(self).chunks@, id),
            forall|k: int|
                0 <= k < final(self).documents@.len()
                    ==> (#[trigger] final(self).documents@[k]).id != id,
            forall|k: int|
                0 <= k < final(self).chunks@.len()
                    ==> (#[trigger] final(self).chunks@[k]).document_id != id,
            final(self).study_items@ == old(self).study_items@,
    {
        let found: bool;
        match self.find_document(id) {
            Some(i) => {
                let ghost pre = self.documents@;
                self.documents.remove(i);
                proof {
                    assert forall|k: int|
                        0 <= k < self.documents@.len() implies (#[trigger] self.documents@[k]).id
                        != id by {
                        if k < i {
                            assert(self.documents@[k] == pre[k]);
                        } else {
                            assert(self.documents@[k] == pre[k + 1]);
                        }
                    }
                    assert forall|k1: int, k2: int|
                        0 <= k1 < k2 < self.documents@.len() implies (
                    #[trigger] self.documents@[k1]).id != (#[trigger] self.documents@[k2]).id
                        && self.documents@[k1].source_path@
                        != self.documents@[k2].source_path@ by {
                        let m1 = if k1 < i { k1 } else { k1 + 1 };
                        let m2 = if k2 < i { k2 } else { k2 + 1 };
                        assert(self.documents@[k1] == pre[m1]);
                        assert(self.documents@[k2] == pre[m2]);
                    }
                    assert forall|k: int|
                        0 <= k < self.documents@.len() implies 0 < (
                    #[trigger] self.documents@[k]).id < self.next_document_id by {
                        let m = if k < i { k } else { k + 1 };
                        assert(self.documents@[k] == pre[m]);
                    }
                }
                found = true;
            },
            None => {
                found = false;
            },
        }
        let ghost docs_mid = self.documents@;
        let ghost items_mid = self.study_items@;
        let ghost oc = old(self).chunks@;
        // cascade: drop this document's chunks, keeping every other
        // document's chunks in order
        let ghost mut j: int = 0;
        let mut i: usize = 0;
        proof {
            assert(oc.take(0) =~= Seq::<StoredChunk>::empty());
            assert(Self::spec_keep_chunks(oc.take(0), id) =~= Seq::<StoredChunk>::empty());
            assert(self.chunks@ =~= Self::spec_keep_chunks(oc.take(0), id) + oc.skip(0));
        }
        while i < self.chunks.len()
            invariant
                0 <= j <= oc.len(),
                i as int == Self::spec_keep_chunks(oc.take(j), id).len(),
                self.chunks@ == Self::spec_keep_chunks(oc.take(j), id) + oc.skip(j),
                forall|k: int| 0 <= k < i ==> (#[trigger] self.chunks@[k]).document_id != id,
                spec_library_wf(*self),
                self.documents@ == docs_mid,
                self.study_items@ == items_mid,
            decreases self.chunks@.len() - i,
        {
            proof {
                assert(j < oc.len());
                assert(self.chunks@[i as int] == oc.skip(j)[0]);
                assert(oc.skip(j)[0] == oc[j]);
                Self::lemma_keep_chunks_push(oc.take(j), oc[j], id);
                assert(oc.take(j + 1) =~= oc.take(j).push(oc[j]));
            }
            if self.chunks[i].document_id == id {
                let ghost pre = self.chunks@;
                self.chunks.remove(i);
                proof {
                    assert(self.chunks@ =~= Self::spec_keep_chunks(oc.take(j + 1), id) + oc.skip(
                        j + 1,
                    ));
                    assert forall|k: int|
                        0 <= k < i as int implies (#[trigger] self.chunks@[k]).document_id
                        != id by {
                        assert(self.chunks@[k] == pre[k]);
                    }
                    assert forall|k1: int, k2: int|
                        0 <= k1 < k2 < self.chunks@.len() implies (
                    #[trigger] self.chunks@[k1]).id != (#[trigger] self.chunks@[k2]).id by {
                        let m1 = if k1 < i as int { k1 } else { k1 + 1 };
                        let m2 = if k2 < i as int { k2 } else { k2 + 1 };
                        assert(self.chunks@[k1] == pre[m1]);
                        assert(self.chunks@[k2] == pre[m2]);
                    }
                    assert forall|k: int|
                        0 <= k < self.chunks@.len() implies 0 < (#[trigger] self.chunks@[k]).id
                        < self.next_chunk_id by {
                        let m = if k < i as int { k } else { k + 1 };
                        assert(self.chunks@[k] == pre[m]);
                    }
                    j = j + 1;
                }
            } else {
                proof {
                    assert(self.chunks@ =~= (Self::spec_keep_chunks(oc.take(j), id) + seq![
                        oc[j],
                    ]) + oc.skip(j + 1));
                    assert(Self::spec_keep_chunks(oc.take(j + 1), id) =~= Self::spec_keep_chunks(
                        oc.take(j),
                        id,
                    ) + seq![oc[j]]);
                    j = j + 1;
                }
                i += 1;
            }
        }
        proof {
            assert(oc.skip(j) =~= Seq::<StoredChunk>::empty());
            assert(j == oc.len());
            assert(oc.take(j) =~= oc);
            assert(self.chunks@ =~= Self::spec_keep_chunks(oc, id));
        }
        found
    }
}

/// Field-for-field agreement between two chunk records.
pub open spec fn chunk_like(a: StoredChunk, b: StoredChunk) -> bool {
    &&& a.id == b.id
    &&& a.document_id == b.document_id
    &&& a.chunk_index == b.chunk_index
    &&& a.content@ == b.content@
    &&& match (a.embedding, b.embedding) {
        (Some(ea), Some(eb)) => ea@ == eb@,
        (None, None) => true,
        _ => false,
    }
}

/// Whether a chunk's content contains the query, ignoring ASCII case.
pub open spec fn spec_keyword_match(c: StoredChunk, q: Seq<char>) -> bool {
    spec_find_from(spec_lower(c.content@), spec_lower(q), 0) >= 0
}

/// The first `room` keyword hits from position `i` on, as id and content
/// pairs in store order.
pub open spec fn spec_keyword_hits(
    chunks: Seq<StoredChunk>,
    q: Seq<char>,
    i: int,
    room: int,
) -> Seq<(i64, Seq<char>)>
    decreases chunks.len() - i,
    when 0 <= i
{
    if i >= chunks.len() || room <= 0 {
        Seq::empty()
    } else if spec_keyword_match(chunks[i], q) {
        seq![(chunks[i].id, chunks[i].content@)] + spec_keyword_hits(chunks, q, i + 1, room - 1)
    } else {
        spec_keyword_hits(chunks, q, i + 1, room)
    }
}

/// Copies a byte vector.
fn clone_bytes(v: &Vec<u8>) -> (r: Vec<u8>)
    ensures
        r@ == v@,
{
    let mut r: Vec<u8> = Vec::new();
    let mut i: usize = 0;
    while i < v.len()
        invariant
            i <= v@.len(),
            r@ =~= v@.subrange(0, i as int),
        decreases v@.len() - i,
    {
        r.push(v[i]);
        i += 1;
        proof {
            assert(r@ =~= v@.subrange(0, i as int));
        }
    }
    proof {
        assert(r@ =~= v@);
    }
    r
}

/// A field-for-field copy of a chunk record.
fn clone_chunk(c: &StoredChunk) -> (r: StoredChunk)
    ensures
        chunk_like(r, *c),
{
    StoredChunk {
        id: c.id,
        document_id: c.document_id,
        chunk_index: c.chunk_index,
        content: c.content.clone(),
        embedding: match &c.embedding {
            Some(e) => Some(clone_bytes(e)),
            None => None,
        },
    }
}

impl Library {
    /// Copies of all stored chunks, in store order.
    pub fn all_chunks(&self) -> (r: Vec<StoredChunk>)
        ensures
            r@.len() == self.chunks@.len(),
            forall|k: int| 0 <= k < r@.len() ==> chunk_like(#[trigger] r@[k], self.chunks@[k]),
    {
        let mut r: Vec<StoredChunk> = Vec::new();
        let mut i: usize = 0;
        while i < self.chunks.len()
            invariant
                i <= self.chunks@.len(),
                r@.len() == i,
                forall|k: int| 0 <= k < i ==> chunk_like(#[trigger] r@[k], self.chunks@[k]),
            decreases self.chunks@.len() - i,
        {
            let c = clone_chunk(&self.chunks[i]);
            r.push(c);
            i += 1;
        }
        r
    }

    /// Keyword search over chunk content: case-insensitive substring
    /// match, in store order, capped at `limit` hits.
    pub fn search_content(&self, query: &str, limit: usize) -> (r: Vec<(i64, String)>)
        ensures
            view_pairs(r@) == spec_keyword_hits(self.chunks@, query@, 0, limit as int),
    {
        let qv = chars_vec(query);
        let ql = map_lower(&qv);
        let mut r: Vec<(i64, String)> = Vec::new();
        let mut i: usize = 0;
        proof {
            assert(view_pairs(r@) =~= Seq::<(i64, Seq<char>)>::empty());
        }
        while i < self.chunks.len()
            invariant
                i <= self.chunks@.len(),
                r@.len() <= limit,
                ql@ == spec_lower(query@),
                spec_keyword_hits(self.chunks@, query@, 0, limit as int) == view_pairs(r@)
                    + spec_keyword_hits(
                    self.chunks@,
                    query@,
                    i as int,
                    limit - r@.len(),
                ),
            decreases self.chunks@.len() - i,
        {
            if r.len() >= limit {
                proof {
                    assert(spec_keyword_hits(self.chunks@, query@, i as int, limit - r@.len())
                        =~= Seq::<(i64, Seq<char>)>::empty());
                    assert(view_pairs(r@) + Seq::<(i64, Seq<char>)>::empty() =~= view_pairs(r@));
                }
                return r;
            }
            let ghost pre = r@;
            let cv = chars_vec(self.chunks[i].content.as_str());
            let cl = map_lower(&cv);
            let hit = match crate::search::find_in_chars(&cl, &ql) {
                Some(_) => true,
                None => false,
            };
            if hit {
                r.push((self.chunks[i].id, self.chunks[i].content.clone()));
                proof {
                    assert(view_pairs(r@) =~= view_pairs(pre) + seq![
                        (self.chunks@[i as int].id, self.chunks@[i as int].content@),
                    ]);
                }
            }
            i += 1;
        }
        proof {
            assert(spec_keyword_hits(self.chunks@, query@, i as int, limit - r@.len())
                =~= Seq::<(i64, Seq<char>)>::empty());
            assert(view_pairs(r@) + Seq::<(i64, Seq<char>)>::empty() =~= view_pairs(r@));
        }
        r
    }

    /// Attach an embedding to the chunk with the given id; reports whether
    /// the chunk exists.
    pub fn update_embedding(&mut self, chunk_id: i64, bytes: Vec<u8>) -> (r: bool)
        requires
            spec_library_wf(*old(self)),
        ensures
            spec_library_wf(*final(self)),
            final(self).documents@ == old(self).documents@,
            final(self).study_items@ == old(self).study_items@,
            final(self).chunks@.len() == old(self).chunks@.len(),
            r == (exists|k: int|
                0 <= k < old(self).chunks@.len() && (#[trigger] old(self).chunks@[k]).id
                    == chunk_id),
            forall|k: int|
                0 <= k < final(self).chunks@.len() && (#[trigger] final(self).chunks@[k]).id
                    != chunk_id ==> final(self).chunks@[k] == old(self).chunks@[k],
            forall|k: int|
                0 <= k < final(self).chunks@.len() && (#[trigger] final(self).chunks@[k]).id
                    == chunk_id ==> final(self).chunks@[k].embedding == Some(bytes)
                    && final(self).chunks@[k].document_id == old(self).chunks@[k].document_id
                    && final(self).chunks@[k].chunk_index == old(self).chunks@[k].chunk_index
                    && final(self).chunks@[k].content@ == old(self).chunks@[k].content@,
    {
        let mut i: usize = 0;
        while i < self.chunks.len()
            invariant
                i <= self.chunks@.len(),
                *self == *old(self),
                spec_library_wf(*old(self)),
                forall|k: int| 0 <= k < i ==> (#[trigger] self.chunks@[k]).id != chunk_id,
            decreases self.chunks@.len() - i,
        {
            if self.chunks[i].id == chunk_id {
                let ghost pre = self.chunks@;
                let old_chunk = self.chunks.remove(i);
                let ghost mid = self.chunks@;
                let updated = StoredChunk {
                    id: old_chunk.id,
                    document_id: old_chunk.document_id,
                    chunk_index: old_chunk.chunk_index,
                    content: old_chunk.content,
                    embedding: Some(bytes),
                };
                self.chunks.insert(i, updated);
                proof {
                    assert(old_chunk == pre[i as int]);
                    assert forall|k: int|
                        0 <= k < self.chunks@.len() && k != i as int implies self.chunks@[k]
                        == pre[k] by {
                        if k < i as int {
                            assert(self.chunks@[k] == mid[k]);
                            assert(mid[k] == pre[k]);
                        } else {
                            assert(self.chunks@[k] == mid[k - 1]);
                            assert(mid[k - 1] == pre[k]);
                        }
                    }
                    assert(self.chunks@[i as int] == updated);
                    assert(self.chunks@[i as int].id == pre[i as int].id);
                    assert forall|k1: int, k2: int|
                        0 <= k1 < k2 < self.chunks@.len() implies (
                    #[trigger] self.chunks@[k1]).id != (#[trigger] self.chunks@[k2]).id by {
                        if k1 != i as int {
                            assert(self.chunks@[k1] == pre[k1]);
                        }
                        if k2 != i as int {
                            assert(self.chunks@[k2] == pre[k2]);
                        }
                        let c1 = old(self).chunks@[k1];
                        let c2 = old(self).chunks@[k2];
                        assert(pre[k1] == c1 && pre[k2] == c2);
                        assert(self.chunks@[k1].id == c1.id);
                        assert(self.chunks@[k2].id == c2.id);
                        assert(c1.id != c2.id);
                    }
                    assert forall|k: int|
                        0 <= k < self.chunks@.len() implies 0 < (#[trigger] self.chunks@[k]).id
                        < self.next_chunk_id by {
                        if k != i as int {
                            assert(self.chunks@[k] == pre[k]);
                        }
                        let c = old(self).chunks@[k];
                        assert(pre[k] == c);
                        assert(self.chunks@[k].id == c.id);
                    }
                    assert forall|k: int|
                        0 <= k < self.chunks@.len() && (#[trigger] self.chunks@[k]).id
                        == chunk_id implies k == i as int by {
                        if k != i as int {
                            assert(self.chunks@[k] == pre[k]);
                        }
                    }
                }
                return true;
            }
            i += 1;
        }
        false
    }

    /// Insert a fresh study item, due immediately.
    pub fn insert_study_item(
        &mut self,
        document_id: Option<i64>,
        item_type: StudyItemKind,
        front: &str,
        back: &str,
        now_secs: i64,
    ) -> (r: i64)
        requires
            spec_library_wf(*old(self)),
            old(self).next_study_item_id < i64::MAX,
        ensures
            spec_library_wf(*final(self)),
            r == old(self).next_study_item_id,
            final(self).study_items@.len() == old(self).study_items@.len() + 1,
            final(self).study_items@[old(self).study_items@.len() as int].id == r,
            final(self).study_items@[old(self).study_items@.len() as int].document_id
                == document_id,
            final(self).study_items@[old(self).study_items@.len() as int].item_type == item_type,
            final(self).study_items@[old(self).study_items@.len() as int].front@ == front@,
            final(self).study_items@[old(self).study_items@.len() as int].back@ == back@,
            final(self).study_items@[old(self).study_items@.len() as int].review_count == 0,
            final(self).study_items@[old(self).study_items@.len() as int].interval_centi == 100,
            final(self).study_items@[old(self).study_items@.len() as int].ease_centi
                == crate::study::EASE_INIT_CENTI,
            final(self).study_items@[old(self).study_items@.len() as int].next_review_at
                == now_secs,
            crate::study::spec_is_due(
                final(self).study_items@[old(self).study_items@.len() as int],
                now_secs as int,
            ),
            final(self).next_study_item_id == old(self).next_study_item_id + 1,
            forall|k: int|
                0 <= k < old(self).study_items@.len() ==> final(self).study_items@[k] == old(self).study_items@[k],
            final(self).documents@ == old(self).documents@,
            final(self).chunks@ == old(self).chunks@,
    {
        let id = self.next_study_item_id;
        let item = new_item(id, document_id, item_type, front.to_owned(), back.to_owned(), now_secs);
        let ghost pre = self.study_items@;
        self.study_items.push(item);
        self.next_study_item_id = self.next_study_item_id + 1;
        proof {
            assert(self.study_items@ =~= pre.push(self.study_items@[pre.len() as int]));
        }
        id
    }

    /// The items due at `now_secs`, oldest first, capped at `limit`.
    pub fn get_due(&self, now_secs: i64, limit: usize) -> (r: Vec<StudyItem>)
        ensures
            r@ == spec_due_items(self.study_items@, now_secs as int, limit as int),
    {
        due_items(&self.study_items, now_secs, limit)
    }

    /// How many items are due at `now_secs`.
    pub fn count_due(&self, now_secs: i64) -> (r: usize)
        ensures
            r == spec_filter_due(self.study_items@, now_secs as int, 0).len(),
    {
        let mut n: usize = 0;
        let mut i: usize = 0;
        while i < self.study_items.len()
            invariant
                i <= self.study_items@.len(),
                n <= i,
                spec_filter_due(self.study_items@, now_secs as int, 0).len() == n
                    + spec_filter_due(self.study_items@, now_secs as int, i as int).len(),
            decreases self.study_items@.len() - i,
        {
            if crate::study::is_due(&self.study_items[i], now_secs) {
                n += 1;
            }
            i += 1;
        }
        n
    }

    /// Apply a review to the item with the given id; the SM-2 update rule
    /// decides the new ease, interval, count and due time.  Reports
    /// whether the item exists.
    pub fn review_item(&mut self, id: i64, quality: u8, now_secs: i64) -> (r: bool)
        requires
            spec_library_wf(*old(self)),
            now_secs <= i64::MAX - 31536000000int,
        ensures
            spec_library_wf(*final(self)),
            final(self).documents@ == old(self).documents@,
            final(self).chunks@ == old(self).chunks@,
            final(self).study_items@.len() == old(self).study_items@.len(),
            r == (exists|k: int|
                0 <= k < old(self).study_items@.len() && (#[trigger] old(self).study_items@[k]).id == id),
            forall|k: int|
                0 <= k < final(self).study_items@.len() && (#[trigger] final(self).study_items@[k]).id != id ==> final(self).study_items@[k] == old(self).study_items@[k],
            forall|k: int|
                0 <= k < final(self).study_items@.len() && (#[trigger] final(self).study_items@[k]).id == id ==> final(self).study_items@[k].ease_centi as int
                    == spec_new_ease(old(self).study_items@[k].ease_centi as int, quality as int)
                    && final(self).study_items@[k].interval_centi as int == spec_new_interval(
                    old(self).study_items@[k].interval_centi as int,
                    final(self).study_items@[k].ease_centi as int,
                    old(self).study_items@[k].review_count as int,
                    quality as int,
                ) && final(self).study_items@[k].review_count as int == spec_new_count(
                    old(self).study_items@[k].review_count as int,
                    quality as int,
                ),
    {
        let mut i: usize = 0;
        while i < self.study_items.len()
            invariant
                i <= self.study_items@.len(),
                *self == *old(self),
                spec_library_wf(*old(self)),
                now_secs <= i64::MAX - 31536000000int,
                forall|k: int| 0 <= k < i ==> (#[trigger] self.study_items@[k]).id != id,
            decreases self.study_items@.len() - i,
        {
            if self.study_items[i].id == id {
                let ghost pre = self.study_items@;
                let old_item = self.study_items.remove(i);
                let ghost mid = self.study_items@;
                proof {
                    assert(old_item == pre[i as int]);
                    assert(pre == old(self).study_items@);
                    let it0 = old(self).study_items@[i as int];
                    assert(spec_item_wf(it0));
                    assert(spec_item_wf(old_item));
                }
                let updated = update_after_review(&old_item, quality, now_secs);
                self.study_items.insert(i, updated);
                proof {
                    assert forall|k: int|
                        0 <= k < self.study_items@.len() && k != i as int implies self.study_items@[k]
                        == pre[k] by {
                        if k < i as int {
                            assert(self.study_items@[k] == mid[k]);
                            assert(mid[k] == pre[k]);
                        } else {
                            assert(self.study_items@[k] == mid[k - 1]);
                            assert(mid[k - 1] == pre[k]);
                        }
                    }
                    assert(self.study_items@[i as int] == updated);
                    assert(self.study_items@[i as int].id == pre[i as int].id);
                    assert forall|k1: int, k2: int|
                        0 <= k1 < k2 < self.study_items@.len() implies (
                    #[trigger] self.study_items@[k1]).id
                        != (#[trigger] self.study_items@[k2]).id by {
                        if k1 != i as int {
                            assert(self.study_items@[k1] == pre[k1]);
                        }
                        if k2 != i as int {
                            assert(self.study_items@[k2] == pre[k2]);
                        }
                        let t1 = old(self).study_items@[k1];
                        let t2 = old(self).study_items@[k2];
                        assert(pre[k1] == t1 && pre[k2] == t2);
                        assert(self.study_items@[k1].id == t1.id);
                        assert(self.study_items@[k2].id == t2.id);
                        assert(t1.id != t2.id);
                    }
                    assert forall|k: int|
                        0 <= k < self.study_items@.len() implies 0 < (
                    #[trigger] self.study_items@[k]).id < self.next_study_item_id
                        && spec_item_wf(self.study_items@[k]) by {
                        if k != i as int {
                            assert(self.study_items@[k] == pre[k]);
                        }
                        let t = old(self).study_items@[k];
                        assert(pre[k] == t);
                    }
                    assert forall|k: int|
                        0 <= k < self.study_items@.len() && (#[trigger] self.study_items@[k]).id
                        == id implies k == i as int by {
                        if k != i as int {
                            assert(self.study_items@[k] == pre[k]);
                        }
                    }
                }
                return true;
            }
            i += 1;
        }
        false
    }
}

} // verus!
