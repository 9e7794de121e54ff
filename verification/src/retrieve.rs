//! Hybrid retrieval: merging keyword and embedding-similarity hits into one
//! ranked candidate list, resolving ids to content, deduplicating
//! near-identical chunks, and packing the survivors into a bounded context
//! string.
//!
//! Keyword hits come first in the merge: exact matches are treated as
//! higher precision for specific lookups.  The caller supplies the
//! similarity ranking (the embedding provider's work); everything from the
//! merge on is computed and verified here.

use vstd::prelude::*;

use crate::context::{assemble_context, block_views, spec_assemble_from, ContextBlock};
use crate::search::{deduplicate_chunks, spec_dedup_chunks, view_pairs};
use crate::store::{Document, StoredChunk};

verus! {

/// The ids with later duplicates removed, first occurrence kept.
pub open spec fn spec_dedup_ids_from(s: Seq<i64>, i: int, acc: Seq<i64>) -> Seq<i64>
    decreases s.len() - i,
    when 0 <= i
{
    if i >= s.len() {
        acc
    } else if acc.contains(s[i]) {
        spec_dedup_ids_from(s, i + 1, acc)
    } else {
        spec_dedup_ids_from(s, i + 1, acc.push(s[i]))
    }
}

/// The merged candidate list: keyword hits first, then similarity hits,
/// skipping ids already present.
pub open spec fn spec_merge_ids(keyword: Seq<i64>, semantic: Seq<i64>) -> Seq<i64> {
    spec_dedup_ids_from(keyword + semantic, 0, Seq::empty())
}

fn contains_id(v: &Vec<i64>, id: i64) -> (r: bool)
    ensures
        r == v@.contains(id),
{
    let mut i: usize = 0;
    while i < v.len()
        invariant
            i <= v@.len(),
            forall|k: int| 0 <= k < i ==> v@[k] != id,
        decreases v@.len() - i,
    {
        if v[i] == id {
            return true;
        }
        i += 1;
    }
    proof {
        if v@.contains(id) {
            let k = choose|k: int| 0 <= k < v@.len() && v@[k] == id;
            assert(false);
        }
    }
    false
}

/// Merge keyword and similarity candidate ids into one de-duplicated
/// ordered list, keyword hits first.
pub fn merge_ranked_ids(keyword_ids: &Vec<i64>, semantic_ids: &Vec<i64>) -> (r: Vec<i64>)
    ensures
        r@ == spec_merge_ids(keyword_ids@, semantic_ids@),
{
    let ghost s = keyword_ids@ + semantic_ids@;
    let mut r: Vec<i64> = Vec::new();
    let mut i: usize = 0;
    while i < keyword_ids.len()
        invariant
            i <= keyword_ids@.len(),
            s == keyword_ids@ + semantic_ids@,
            spec_dedup_ids_from(s, 0, Seq::empty()) == spec_dedup_ids_from(s, i as int, r@),
        decreases keyword_ids@.len() - i,
    {
        proof {
            assert(s[i as int] == keyword_ids@[i as int]);
        }
        if !contains_id(&r, keyword_ids[i]) {
            r.push(keyword_ids[i]);
        }
        i += 1;
    }
    let mut j: usize = 0;
    while j < semantic_ids.len()
        invariant
            j <= semantic_ids@.len(),
            s == keyword_ids@ + semantic_ids@,
            spec_dedup_ids_from(s, 0, Seq::empty()) == spec_dedup_ids_from(
                s,
                keyword_ids@.len() + j,
                r@,
            ),
        decreases semantic_ids@.len() - j,
    {
        proof {
            assert(s[keyword_ids@.len() + j] == semantic_ids@[j as int]);
        }
        if !contains_id(&r, semantic_ids[j]) {
            r.push(semantic_ids[j]);
        }
        j += 1;
    }
    proof {
        assert(spec_dedup_ids_from(s, keyword_ids@.len() + j, r@) == r@);
    }
    r
}

/// First index of the chunk with the given id, or -1.
pub open spec fn spec_find_chunk(chunks: Seq<StoredChunk>, id: i64) -> int
    decreases chunks.len(),
{
    if chunks.len() == 0 {
        -1
    } else if chunks[0].id == id {
        0
    } else {
        let r = spec_find_chunk(chunks.drop_first(), id);
        if r < 0 {
            -1
        } else {
            r + 1
        }
    }
}

proof fn lemma_find_chunk(chunks: Seq<StoredChunk>, id: i64)
    ensures
        spec_find_chunk(chunks, id) >= 0 ==> spec_find_chunk(chunks, id) < chunks.len()
            && chunks[spec_find_chunk(chunks, id)].id == id,
        spec_find_chunk(chunks, id) < 0 ==> forall|k: int|
            0 <= k < chunks.len() ==> (#[trigger] chunks[k]).id != id,
    decreases chunks.len(),
{
    if chunks.len() > 0 && chunks[0].id != id {
        lemma_find_chunk(chunks.drop_first(), id);
        let d = chunks.drop_first();
        if spec_find_chunk(d, id) < 0 {
            assert forall|k: int| 0 <= k < chunks.len() implies (#[trigger] chunks[k]).id
                != id by {
                if k > 0 {
                    assert(chunks[k] == d[k - 1]);
                }
            }
        }
    }
}

proof fn lemma_find_chunk_at(chunks: Seq<StoredChunk>, id: i64, i: int)
    requires
        0 <= i < chunks.len(),
        chunks[i].id == id,
        forall|k: int| 0 <= k < i ==> (#[trigger] chunks[k]).id != id,
    ensures
        spec_find_chunk(chunks, id) == i,
    decreases chunks.len(),
{
    if i > 0 {
        let d = chunks.drop_first();
        assert(forall|k: int| 0 <= k < i - 1 ==> (#[trigger] d[k]).id != id);
        lemma_find_chunk_at(d, id, i - 1);
    }
}

fn find_chunk_index(chunks: &Vec<StoredChunk>, id: i64) -> (r: Option<usize>)
    ensures
        match r {
            Some(i) => i < chunks@.len() && spec_find_chunk(chunks@, id) == i as int,
            None => spec_find_chunk(chunks@, id) < 0,
        },
{
    let mut i: usize = 0;
    while i < chunks.len()
        invariant
            i <= chunks@.len(),
            forall|k: int| 0 <= k < i ==> (#[trigger] chunks@[k]).id != id,
        decreases chunks@.len() - i,
    {
        if chunks[i].id == id {
            proof {
                lemma_find_chunk_at(chunks@, id, i as int);
            }
            return Some(i);
        }
        i += 1;
    }
    proof {
        lemma_find_chunk(chunks@, id);
        if spec_find_chunk(chunks@, id) >= 0 {
            assert(false);
        }
    }
    None
}

/// First index of the keyword pair with the given id, or -1.
pub open spec fn spec_find_pair(pairs: Seq<(i64, Seq<char>)>, id: i64) -> int
    decreases pairs.len(),
{
    if pairs.len() == 0 {
        -1
    } else if pairs[0].0 == id {
        0
    } else {
        let r = spec_find_pair(pairs.drop_first(), id);
        if r < 0 {
            -1
        } else {
            r + 1
        }
    }
}

proof fn lemma_find_pair(pairs: Seq<(i64, Seq<char>)>, id: i64)
    ensures
        spec_find_pair(pairs, id) >= 0 ==> spec_find_pair(pairs, id) < pairs.len()
            && pairs[spec_find_pair(pairs, id)].0 == id,
        spec_find_pair(pairs, id) < 0 ==> forall|k: int|
            0 <= k < pairs.len() ==> (#[trigger] pairs[k]).0 != id,
    decreases pairs.len(),
{
    if pairs.len() > 0 && pairs[0].0 != id {
        lemma_find_pair(pairs.drop_first(), id);
        let d = pairs.drop_first();
        if spec_find_pair(d, id) < 0 {
            assert forall|k: int| 0 <= k < pairs.len() implies (#[trigger] pairs[k]).0 != id by {
                if k > 0 {
                    assert(pairs[k] == d[k - 1]);
                }
            }
        }
    }
}

proof fn lemma_find_pair_at(pairs: Seq<(i64, Seq<char>)>, id: i64, i: int)
    requires
        0 <= i < pairs.len(),
        pairs[i].0 == id,
        forall|k: int| 0 <= k < i ==> (#[trigger] pairs[k]).0 != id,
    ensures
        spec_find_pair(pairs, id) == i,
    decreases pairs.len(),
{
    if i > 0 {
        let d = pairs.drop_first();
        assert(forall|k: int| 0 <= k < i - 1 ==> (#[trigger] d[k]).0 != id);
        lemma_find_pair_at(d, id, i - 1);
    }
}

fn find_pair_index(pairs: &Vec<(i64, String)>, id: i64) -> (r: Option<usize>)
    ensures
        match r {
            Some(i) => i < pairs@.len() && spec_find_pair(view_pairs(pairs@), id) == i as int,
            None => spec_find_pair(view_pairs(pairs@), id) < 0,
        },
{
    let ghost pv = view_pairs(pairs@);
    let mut i: usize = 0;
    while i < pairs.len()
        invariant
            i <= pairs@.len(),
            pv == view_pairs(pairs@),
            forall|k: int| 0 <= k < i ==> (#[trigger] pv[k]).0 != id,
        decreases pairs@.len() - i,
    {
        proof {
            assert(pv[i as int].0 == pairs@[i as int].0);
        }
        if pairs[i].0 == id {
            proof {
                lemma_find_pair_at(pv, id, i as int);
            }
            return Some(i);
        }
        i += 1;
    }
    proof {
        lemma_find_pair(pv, id);
        if spec_find_pair(pv, id) >= 0 {
            assert(false);
        }
    }
    None
}

/// Resolve merged ids to their content: the stored chunk list is tried
/// first, then the keyword hits; unknown ids are dropped.
pub open spec fn spec_resolve(
    ids: Seq<i64>,
    chunks: Seq<StoredChunk>,
    kw: Seq<(i64, Seq<char>)>,
    i: int,
) -> Seq<(i64, Seq<char>)>
    decreases ids.len() - i,
    when 0 <= i
{
    if i >= ids.len() {
        Seq::empty()
    } else {
        let ci = spec_find_chunk(chunks, ids[i]);
        let ki = spec_find_pair(kw, ids[i]);
        if ci >= 0 {
            seq![(ids[i], chunks[ci].content@)] + spec_resolve(ids, chunks, kw, i + 1)
        } else if ki >= 0 {
            seq![(ids[i], kw[ki].1)] + spec_resolve(ids, chunks, kw, i + 1)
        } else {
            spec_resolve(ids, chunks, kw, i + 1)
        }
    }
}

fn resolve_ids(
    ids: &Vec<i64>,
    chunks: &Vec<StoredChunk>,
    keyword_hits: &Vec<(i64, String)>,
) -> (r: Vec<(i64, String)>)
    ensures
        view_pairs(r@) == spec_resolve(ids@, chunks@, view_pairs(keyword_hits@), 0),
{
    let ghost kv = view_pairs(keyword_hits@);
    let mut r: Vec<(i64, String)> = Vec::new();
    let mut i: usize = 0;
    proof {
        assert(view_pairs(r@) =~= Seq::<(i64, Seq<char>)>::empty());
    }
    while i < ids.len()
        invariant
            i <= ids@.len(),
            kv == view_pairs(keyword_hits@),
            spec_resolve(ids@, chunks@, kv, 0) == view_pairs(r@) + spec_resolve(
                ids@,
                chunks@,
                kv,
                i as int,
            ),
        decreases ids@.len() - i,
    {
        let ghost pre = r@;
        let id = ids[i];
        match find_chunk_index(chunks, id) {
            Some(ci) => {
                r.push((id, chunks[ci].content.clone()));
                proof {
                    assert(view_pairs(r@) =~= view_pairs(pre) + seq![
                        (id, chunks@[ci as int].content@),
                    ]);
                }
            },
            None => {
                match find_pair_index(keyword_hits, id) {
                    Some(ki) => {
                        r.push((id, keyword_hits[ki].1.clone()));
                        proof {
                            assert(kv[ki as int].1 == keyword_hits@[ki as int].1@);
                            assert(view_pairs(r@) =~= view_pairs(pre) + seq![
                                (id, kv[ki as int].1),
                            ]);
                        }
                    },
                    None => {
                    },
                }
            },
        }
        i += 1;
    }
    proof {
        assert(spec_resolve(ids@, chunks@, kv, i as int) =~= Seq::<(i64, Seq<char>)>::empty());
        assert(view_pairs(r@) + Seq::<(i64, Seq<char>)>::empty() =~= view_pairs(r@));
    }
    r
}

/// The display name of a document, or a placeholder when the id is
/// unknown.
pub open spec fn spec_doc_name(docs: Seq<(i64, Seq<char>)>, doc_id: i64) -> Seq<char> {
    let i = spec_find_pair(docs, doc_id);
    if i >= 0 {
        docs[i].1
    } else {
        "Unknown"@
    }
}

fn doc_name_of(docs: &Vec<(i64, String)>, doc_id: i64) -> (r: String)
    ensures
        r@ == spec_doc_name(view_pairs(docs@), doc_id),
{
    match find_pair_index(docs, doc_id) {
        Some(i) => {
            proof {
                assert(view_pairs(docs@)[i as int].1 == docs@[i as int].1@);
            }
            docs[i].1.clone()
        },
        None => "Unknown".to_owned(),
    }
}

/// The labeled context blocks for the surviving chunks: each one carries
/// its owning document's display name and its chunk ordinal.
pub open spec fn spec_context_blocks(
    pairs: Seq<(i64, Seq<char>)>,
    chunks: Seq<StoredChunk>,
    docs: Seq<(i64, Seq<char>)>,
    i: int,
) -> Seq<(Seq<char>, Option<int>, Seq<char>)>
    decreases pairs.len() - i,
    when 0 <= i
{
    if i >= pairs.len() {
        Seq::empty()
    } else {
        let ci = spec_find_chunk(chunks, pairs[i].0);
        let doc_id = if ci >= 0 { chunks[ci].document_id } else { 0 };
        let idx = if ci >= 0 { chunks[ci].chunk_index as int } else { 0 };
        seq![(spec_doc_name(docs, doc_id), Some(idx), pairs[i].1)] + spec_context_blocks(
            pairs,
            chunks,
            docs,
            i + 1,
        )
    }
}

fn make_context_blocks(
    pairs: &Vec<(i64, String)>,
    chunks: &Vec<StoredChunk>,
    docs: &Vec<(i64, String)>,
) -> (r: Vec<ContextBlock>)
    ensures
        block_views(r@) == spec_context_blocks(view_pairs(pairs@), chunks@, view_pairs(docs@), 0),
{
    let ghost pv = view_pairs(pairs@);
    let ghost dv = view_pairs(docs@);
    let mut r: Vec<ContextBlock> = Vec::new();
    let mut i: usize = 0;
    proof {
        assert(block_views(r@) =~= Seq::<(Seq<char>, Option<int>, Seq<char>)>::empty());
    }
    while i < pairs.len()
        invariant
            i <= pairs@.len(),
            pv == view_pairs(pairs@),
            dv == view_pairs(docs@),
            spec_context_blocks(pv, chunks@, dv, 0) == block_views(r@) + spec_context_blocks(
                pv,
                chunks@,
                dv,
                i as int,
            ),
        decreases pairs@.len() - i,
    {
        let ghost pre = r@;
        proof {
            assert(pv[i as int] == (pairs@[i as int].0, pairs@[i as int].1@));
        }
        let id = pairs[i].0;
        let (doc_id, idx): (i64, i64) = match find_chunk_index(chunks, id) {
            Some(ci) => (chunks[ci].document_id, chunks[ci].chunk_index),
            None => (0, 0),
        };
        let name = doc_name_of(docs, doc_id);
        let block = ContextBlock {
            doc_name: name,
            chunk_index: Some(idx),
            content: pairs[i].1.clone(),
        };
        r.push(block);
        proof {
            assert(block_views(r@) =~= block_views(pre) + seq![
                (spec_doc_name(dv, doc_id), Some(idx as int), pv[i as int].1),
            ]);
        }
        i += 1;
    }
    proof {
        assert(spec_context_blocks(pv, chunks@, dv, i as int) =~= Seq::<
            (Seq<char>, Option<int>, Seq<char>),
        >::empty());
        assert(block_views(r@) + Seq::<(Seq<char>, Option<int>, Seq<char>)>::empty()
            =~= block_views(r@));
    }
    r
}

/// The full semantic-context pipeline over resolved inputs: merge keyword
/// hits before similarity hits, resolve ids to content, drop
/// near-duplicate chunks, and pack the survivors into the budget.
pub open spec fn spec_semantic_context(
    chunks: Seq<StoredChunk>,
    kw: Seq<(i64, Seq<char>)>,
    kw_ids: Seq<i64>,
    sem_ids: Seq<i64>,
    docs: Seq<(i64, Seq<char>)>,
    max: int,
) -> Seq<char> {
    let merged = spec_merge_ids(kw_ids, sem_ids);
    let resolved = spec_resolve(merged, chunks, kw, 0);
    let deduped = spec_dedup_chunks(resolved);
    spec_assemble_from(spec_context_blocks(deduped, chunks, docs, 0), 0, 0, max, 2000)
}

/// Build the retrieval context from keyword hits and similarity hits.
///
/// `chunks` is the stored chunk list (for content and metadata), `keyword_hits`
/// the ranked keyword matches, `semantic_ids` the similarity ranking, and
/// `docs` the id-to-display-name document list.  The result never exceeds
/// `max_context_chars` characters.
pub fn build_semantic_context(
    chunks: &Vec<StoredChunk>,
    keyword_hits: &Vec<(i64, String)>,
    semantic_ids: &Vec<i64>,
    docs: &Vec<(i64, String)>,
    max_context_chars: usize,
) -> (r: String)
    ensures
        r@ == spec_semantic_context(
            chunks@,
            view_pairs(keyword_hits@),
            view_pairs(keyword_hits@).map_values(|p: (i64, Seq<char>)| p.0),
            semantic_ids@,
            view_pairs(docs@),
            max_context_chars as int,
        ),
        r@.len() <= max_context_chars,
{
    // keyword ids, in hit order
    let mut kw_ids: Vec<i64> = Vec::new();
    let mut i: usize = 0;
    while i < keyword_hits.len()
        invariant
            i <= keyword_hits@.len(),
            kw_ids@ =~= view_pairs(keyword_hits@).map_values(|p: (i64, Seq<char>)| p.0).take(
                i as int,
            ),
        decreases keyword_hits@.len() - i,
    {
        kw_ids.push(keyword_hits[i].0);
        i += 1;
        proof {
            assert(kw_ids@ =~= view_pairs(keyword_hits@).map_values(
                |p: (i64, Seq<char>)| p.0,
            ).take(i as int));
        }
    }
    proof {
        assert(kw_ids@ =~= view_pairs(keyword_hits@).map_values(|p: (i64, Seq<char>)| p.0));
    }

    let merged = merge_ranked_ids(&kw_ids, semantic_ids);
    let resolved = resolve_ids(&merged, chunks, keyword_hits);
    let deduped = deduplicate_chunks(resolved);
    let blocks = make_context_blocks(&deduped, chunks, docs);
    assemble_context(&blocks, max_context_chars, 2000)
}

/// The document blocks of the full-text fallback: the first `take` search
/// results (or documents), labeled by file name without a chunk ordinal.
pub open spec fn spec_doc_blocks(docs: Seq<Document>, take: int, i: int) -> Seq<
    (Seq<char>, Option<int>, Seq<char>),
>
    decreases docs.len() - i,
    when 0 <= i
{
    if i >= docs.len() || i >= take {
        Seq::empty()
    } else {
        seq![(docs[i].filename@, None::<int>, docs[i].content@)] + spec_doc_blocks(
            docs,
            take,
            i + 1,
        )
    }
}

fn make_doc_blocks(docs: &Vec<Document>, take: usize) -> (r: Vec<ContextBlock>)
    ensures
        block_views(r@) == spec_doc_blocks(docs@, take as int, 0),
{
    let mut r: Vec<ContextBlock> = Vec::new();
    let n = if docs.len() < take {
        docs.len()
    } else {
        take
    };
    let mut i: usize = 0;
    proof {
        assert(block_views(r@) =~= Seq::<(Seq<char>, Option<int>, Seq<char>)>::empty());
    }
    while i < n
        invariant
            i <= n,
            n == if docs@.len() < take { docs@.len() as int } else { take as int },
            spec_doc_blocks(docs@, take as int, 0) == block_views(r@) + spec_doc_blocks(
                docs@,
                take as int,
                i as int,
            ),
        decreases n - i,
    {
        let ghost pre = r@;
        let block = ContextBlock {
            doc_name: docs[i].filename.clone(),
            chunk_index: None,
            content: docs[i].content.clone(),
        };
        r.push(block);
        proof {
            assert(block_views(r@) =~= block_views(pre) + seq![
                (docs@[i as int].filename@, None::<int>, docs@[i as int].content@),
            ]);
        }
        i += 1;
    }
    proof {
        assert(spec_doc_blocks(docs@, take as int, i as int) =~= Seq::<
            (Seq<char>, Option<int>, Seq<char>),
        >::empty());
        assert(block_views(r@) + Seq::<(Seq<char>, Option<int>, Seq<char>)>::empty()
            =~= block_views(r@));
    }
    r
}

/// The full-text fallback context: the first five search results, or — when
/// the search found nothing — a preview of the first three documents.
pub open spec fn spec_fts_context(
    results: Seq<Document>,
    all_docs: Seq<Document>,
    max: int,
) -> Seq<char> {
    if results.len() == 0 {
        spec_assemble_from(spec_doc_blocks(all_docs, 3, 0), 0, 0, max, 1500)
    } else {
        spec_assemble_from(spec_doc_blocks(results, 5, 0), 0, 0, max, 2000)
    }
}

/// Build context from full-text document search results, falling back to
/// the first few documents of the bucket.  The result never exceeds
/// `max_context_chars` characters.
pub fn build_fts_context(
    results: &Vec<Document>,
    all_docs: &Vec<Document>,
    max_context_chars: usize,
) -> (r: String)
    ensures
        r@ == spec_fts_context(results@, all_docs@, max_context_chars as int),
        r@.len() <= max_context_chars,
{
    if results.len() == 0 {
        let blocks = make_doc_blocks(all_docs, 3);
        assemble_context(&blocks, max_context_chars, 1500)
    } else {
        let blocks = make_doc_blocks(results, 5);
        assemble_context(&blocks, max_context_chars, 2000)
    }
}

/// The generation context: a non-empty semantic context wins; otherwise
/// the first ten documents (search results when the topic matched any) are
/// packed under the budget.
pub open spec fn spec_document_context(
    semantic: Seq<char>,
    documents: Seq<Document>,
    search_results: Seq<Document>,
    max: int,
) -> Seq<char> {
    if semantic.len() > 0 {
        semantic
    } else {
        let docs = if search_results.len() > 0 { search_results } else { documents };
        spec_assemble_from(spec_doc_blocks(docs, 10, 0), 0, 0, max, 10000)
    }
}

/// Gather document context for content generation: a non-empty semantic
/// context is used as is; otherwise up to ten documents (preferring search
/// results) are packed into `max_context_chars` characters.
pub fn get_document_context(
    semantic: &String,
    documents: &Vec<Document>,
    search_results: &Vec<Document>,
    max_context_chars: usize,
) -> (r: String)
    ensures
        r@ == spec_document_context(
            semantic@,
            documents@,
            search_results@,
            max_context_chars as int,
        ),
        semantic@.len() == 0 ==> r@.len() <= max_context_chars,
{
    if semantic.as_str().unicode_len() > 0 {
        return semantic.clone();
    }
    let blocks = if search_results.len() > 0 {
        make_doc_blocks(search_results, 10)
    } else {
        make_doc_blocks(documents, 10)
    };
    assemble_context(&blocks, max_context_chars, 10000)
}

} // verus!
