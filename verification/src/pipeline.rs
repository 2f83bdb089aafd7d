//! The ingestion orchestrator.
//!
//! Phase one, per file: existence check, raw-bytes persist, extract,
//! chunk, persist fragments.  A failure skips only the offending file; the
//! document record written before extraction stays.  Phase two, globally:
//! fetch unembedded fragments in batches, embed each batch with one
//! backend call, persist the non-empty vectors, and pause between batches.

use vstd::prelude::*;
use crate::errors::PortableBrainsError;
use crate::format::spec_extension_of;
use crate::format::spec_from_extension;
use crate::format::extension_of;
use crate::format::DocumentFormat;
use crate::processor::DocumentProcessor;
use crate::processor::spec_extracted_text;
use crate::chunk::chunks_spec;
use crate::sentences::sentences_spec;
use crate::storage::Storage;
use crate::storage::MetaInfo;
use crate::storage::has_path;
use crate::storage::store_inv;
use crate::storage::has_doc_id;
use crate::storage::frag_count;
use crate::storage::pending;
use crate::storage::DocModel;
use crate::storage::FragModel;
use crate::embed::Embedder;

verus! {

/// Whether a path names a file the pipeline accepts.
pub open spec fn spec_is_supported(p: Seq<char>) -> bool {
    match spec_extension_of(p) {
        Some(e) => spec_from_extension(e) is Some,
        None => false,
    }
}

/// Whether the directory scan keeps this path.
pub fn is_supported_file(path: &str) -> (r: bool)
    ensures
        r == spec_is_supported(path@),
{
    match extension_of(path) {
        Some(e) => DocumentFormat::from_extension(e.as_str()).is_some(),
        None => false,
    }
}

/// The paths of a scan that the pipeline keeps, in order.
pub open spec fn spec_supported_of(ps: Seq<Seq<char>>) -> Seq<Seq<char>>
    decreases ps.len(),
{
    if ps.len() == 0 {
        Seq::empty()
    } else if spec_is_supported(ps.last()) {
        spec_supported_of(ps.drop_last()).push(ps.last())
    } else {
        spec_supported_of(ps.drop_last())
    }
}

/// Keep only the supported paths of a directory listing.
pub fn filter_supported(paths: &Vec<String>) -> (out: Vec<String>)
    ensures
        out.deep_view() == spec_supported_of(paths.deep_view()),
{
    let mut out: Vec<String> = Vec::new();
    let mut i: usize = 0;
    while i < paths.len()
        invariant
            i <= paths@.len(),
            out.deep_view() == spec_supported_of(paths.deep_view().take(i as int)),
        decreases paths@.len() - i,
    {
        proof {
            assert(paths.deep_view().take(i + 1).drop_last() =~= paths.deep_view().take(
                i as int,
            ));
            assert(paths.deep_view().take(i + 1).last() == paths.deep_view()[i as int]);
            assert(paths.deep_view()[i as int] == paths@[i as int]@);
        }
        if is_supported_file(paths[i].as_str()) {
            let ghost out_pre = out;
            out.push(paths[i].clone());
            proof {
                crate::chars::lemma_deep_push_str(out_pre, out, out@.last());
            }
        }
        i = i + 1;
    }
    proof {
        assert(paths.deep_view().take(paths@.len() as int) =~= paths.deep_view());
    }
    out
}

/// No fragment can belong to a document identifier that no stored
/// document carries.
proof fn lemma_fresh_doc_has_no_frags(docs: Seq<DocModel>, frags: Seq<FragModel>, id: Seq<char>)
    requires
        forall|i: int| 0 <= i < frags.len() ==> has_doc_id(docs, (#[trigger] frags[i]).document_id),
        !has_doc_id(docs, id),
    ensures
        frag_count(frags, id) == 0,
    decreases frags.len(),
{
    if frags.len() > 0 {
        assert(forall|i: int|
            0 <= i < frags.drop_last().len() ==> has_doc_id(
                docs,
                (#[trigger] frags.drop_last()[i]).document_id,
            )) by {
            assert(forall|i: int|
                0 <= i < frags.drop_last().len() ==> #[trigger] frags.drop_last()[i] == frags[i]);
        }
        lemma_fresh_doc_has_no_frags(docs, frags.drop_last(), id);
        assert(has_doc_id(docs, frags[frags.len() - 1].document_id));
        if frags.last().document_id == id {
            assert(has_doc_id(docs, id));
        }
    }
}

/// Ingest one file (phase one): skip it when its path is already stored
/// or its payload exceeds the size ceiling; otherwise persist the raw
/// bytes, extract and chunk the text, and persist the fragments in order
/// starting at zero.  On success the result is the fragment count.  A
/// failure after the document record was written (extraction that finds
/// nothing, a parser failure, a fragment that could not be stored) keeps
/// that record; the run continues with the next file.
pub fn process_document<S: Storage>(
    storage: &mut S,
    processor: &DocumentProcessor,
    file_path: &str,
    file_data: &[u8],
) -> (r: Result<usize, PortableBrainsError>)
    requires
        store_inv(old(storage).sdocs(), old(storage).sfrags()),
    ensures
        store_inv(final(storage).sdocs(), final(storage).sfrags()),
        final(storage).sversion() == old(storage).sversion(),
        final(storage).smodel() == old(storage).smodel(),
        file_data@.len() > processor.max_file_size ==> r == Err::<usize, PortableBrainsError>(
            PortableBrainsError::SizeLimitExceeded {
                size: file_data@.len() as usize,
                limit: processor.max_file_size,
            },
        ) && final(storage).sdocs() == old(storage).sdocs() && final(storage).sfrags() == old(
            storage,
        ).sfrags(),
        file_data@.len() <= processor.max_file_size && has_path(old(storage).sdocs(), file_path@)
            ==> r is Err && final(storage).sdocs() == old(storage).sdocs() && final(storage).sfrags() == old(storage).sfrags(),
        // a document whose text extraction fails is still recorded
        (r == Err::<usize, PortableBrainsError>(PortableBrainsError::EmptyResult) || (
        r matches Err(e) && e matches PortableBrainsError::ExtractionFailed { .. })) ==> final(storage).sdocs().len() == old(storage).sdocs().len() + 1 && final(storage).sdocs().drop_last()
            == old(storage).sdocs() && final(storage).sdocs().last().path == file_path@ && final(storage).sdocs().last().data == file_data@ && final(storage).sfrags() == old(storage).sfrags(),
        r matches Ok(n) ==> final(storage).sdocs().len() == old(storage).sdocs().len() + 1
            && final(storage).sdocs().drop_last() == old(storage).sdocs() && final(storage).sdocs().last().path == file_path@ && final(storage).sdocs().last().data == file_data@
            && final(storage).sfrags().len() == old(storage).sfrags().len() + n && n as int
            == chunks_spec(
            sentences_spec(spec_extracted_text(*processor, file_path@, file_data@)),
            processor.chunk_size as int,
            processor.overlap as int,
        ).len() && forall|k: int|
            0 <= k < n ==> (#[trigger] final(storage).sfrags()[old(storage).sfrags().len() + k]).document_id
                == final(storage).sdocs().last().id && final(storage).sfrags()[old(storage).sfrags().len() + k].order == k && final(storage).sfrags()[old(storage).sfrags().len() + k].embedding is None
                && final(storage).sfrags()[old(storage).sfrags().len() + k].content
                == chunks_spec(
                sentences_spec(spec_extracted_text(*processor, file_path@, file_data@)),
                processor.chunk_size as int,
                processor.overlap as int,
            )[k],
{
    // skip a payload over the size ceiling before touching anything
    if file_data.len() > processor.max_file_size {
        return Err(
            PortableBrainsError::SizeLimitExceeded {
                size: file_data.len(),
                limit: processor.max_file_size,
            },
        );
    }
    // skip a path that is already stored
    let exists_r = storage.document_exists(file_path);
    match exists_r {
        Ok(true) => {
            return Err(
                PortableBrainsError::StorageError {
                    cause: String::from_str("document already exists"),
                },
            );
        },
        Ok(false) => (),
        Err(e) => {
            return Err(PortableBrainsError::StorageError { cause: e.message() });
        },
    }
    // persist the raw bytes first
    let document_id = match storage.store_document(file_path, file_data) {
        Ok(id) => id,
        Err(e) => {
            return Err(PortableBrainsError::StorageError { cause: e.message() });
        },
    };
    let ghost docs_after = storage.sdocs();
    let ghost frags_before = storage.sfrags();
    // extract, releasing nothing else on failure: the record stays
    let text = match processor.extract_text_from_document(file_path, file_data) {
        Ok(t) => t,
        Err(e) => {
            return Err(e);
        },
    };
    // chunk; chunking itself never fails
    let fragments = match processor.chunk_text(text.as_str()) {
        Ok(f) => f,
        Err(e) => {
            return Err(e);
        },
    };
    let ghost chunks = chunks_spec(
        sentences_spec(spec_extracted_text(*processor, file_path@, file_data@)),
        processor.chunk_size as int,
        processor.overlap as int,
    );
    proof {
        assert(fragments.deep_view() == chunks);
    }
    proof {
        lemma_fresh_doc_has_no_frags(
            old(storage).sdocs(),
            old(storage).sfrags(),
            docs_after.last().id,
        );
    }
    // persist the fragments in order
    let n = fragments.len();
    let mut k: usize = 0;
    while k < n
        invariant
            k <= n,
            n == fragments@.len(),
            !has_path(old(storage).sdocs(), file_path@),
            file_data@.len() <= processor.max_file_size,
            store_inv(storage.sdocs(), storage.sfrags()),
            storage.sversion() == old(storage).sversion(),
            storage.smodel() == old(storage).smodel(),
            storage.sdocs() == docs_after,
            docs_after.len() == old(storage).sdocs().len() + 1,
            docs_after.drop_last() == old(storage).sdocs(),
            docs_after.last().path == file_path@,
            docs_after.last().data == file_data@,
            document_id@ == docs_after.last().id,
            frags_before == old(storage).sfrags(),
            storage.sfrags().len() == frags_before.len() + k,
            frag_count(storage.sfrags(), document_id@) == k,
            fragments.deep_view() == chunks,
            chunks.len() == n,
            forall|t: int|
                0 <= t < frags_before.len() ==> #[trigger] storage.sfrags()[t] == frags_before[t],
            forall|t: int|
                0 <= t < k ==> (#[trigger] storage.sfrags()[frags_before.len() + t]).document_id
                    == document_id@ && storage.sfrags()[frags_before.len() + t].order == t
                    && storage.sfrags()[frags_before.len() + t].embedding is None
                    && storage.sfrags()[frags_before.len() + t].content == chunks[t],
        decreases n - k,
    {
        let ghost pre = storage.sfrags();
        match storage.store_text_fragment(document_id.as_str(), k, fragments[k].as_str()) {
            Ok(_) => (),
            Err(e) => {
                return Err(PortableBrainsError::StorageError { cause: e.message() });
            },
        }
        proof {
            assert(fragments.deep_view()[k as int] == fragments@[k as int]@);
            assert(storage.sfrags().drop_last() == pre);
            assert(forall|t: int|
                0 <= t < pre.len() ==> #[trigger] storage.sfrags()[t] == pre[t]);
            assert(storage.sfrags().take(storage.sfrags().len() - 1) =~= pre);
            assert(frag_count(storage.sfrags(), document_id@) == k + 1) by {
                assert(storage.sfrags().drop_last() == pre);
                assert(storage.sfrags().last().document_id == document_id@);
            }
        }
        k = k + 1;
    }
    proof {
        assert(has_path(final(storage).sdocs(), file_path@)) by {
            assert(final(storage).sdocs()[docs_after.len() - 1].path == file_path@);
        }
    }
    Ok(n)
}

/// The identifiers of the first `n` unembedded fragments, in batch
/// order (by document identifier, then order).
pub open spec fn pending_ids(frags: Seq<FragModel>, n: int) -> Seq<Seq<char>> {
    crate::storage::sort_frags(pending(frags)).take(n).map_values(|f: FragModel| f.id)
}

/// The identifiers of fetched (identifier, content) pairs, in order.
pub open spec fn pair_ids(pairs: Seq<(String, String)>) -> Seq<Seq<char>> {
    pairs.map_values(|p: (String, String)| p.0@)
}

/// How many returned vectors are non-empty.
pub open spec fn count_nonempty(embs: Seq<Seq<u64>>) -> int
    decreases embs.len(),
{
    if embs.len() == 0 {
        0
    } else {
        count_nonempty(embs.drop_last()) + if embs.last().len() > 0 {
            1int
        } else {
            0int
        }
    }
}

/// The fragment list after persisting a batch answer: each non-empty
/// returned vector is attached to its fragment, in order; an empty
/// vector skips its fragment.
pub open spec fn apply_embeds(
    frags: Seq<FragModel>,
    ids: Seq<Seq<char>>,
    embs: Seq<Seq<u64>>,
) -> Seq<FragModel>
    decreases ids.len(),
{
    if ids.len() == 0 || embs.len() == 0 {
        frags
    } else {
        let prev = apply_embeds(frags, ids.drop_last(), embs.drop_last());
        if embs.last().len() > 0 {
            crate::storage::set_embedding(prev, ids.last(), embs.last())
        } else {
            prev
        }
    }
}

/// Attaching an embedding never grows the set of unembedded fragments.
proof fn lemma_pending_set_le(frags: Seq<FragModel>, id: Seq<char>, emb: Seq<u64>)
    ensures
        pending(crate::storage::set_embedding(frags, id, emb)).len() <= pending(frags).len(),
    decreases frags.len(),
{
    let upd = crate::storage::set_embedding(frags, id, emb);
    if frags.len() > 0 {
        lemma_pending_set_le(frags.drop_last(), id, emb);
        assert(upd.drop_last() =~= crate::storage::set_embedding(frags.drop_last(), id, emb));
        assert(upd.last() == (if frags.last().id == id {
            FragModel { embedding: Some(emb), ..frags.last() }
        } else {
            frags.last()
        }));
    } else {
        assert(upd =~= frags);
    }
}

/// Persisting a batch answer never grows the set of unembedded
/// fragments.
proof fn lemma_apply_pending_le(frags: Seq<FragModel>, ids: Seq<Seq<char>>, embs: Seq<Seq<u64>>)
    ensures
        pending(apply_embeds(frags, ids, embs)).len() <= pending(frags).len(),
    decreases ids.len(),
{
    if ids.len() > 0 && embs.len() > 0 {
        lemma_apply_pending_le(frags, ids.drop_last(), embs.drop_last());
        if embs.last().len() > 0 {
            lemma_pending_set_le(
                apply_embeds(frags, ids.drop_last(), embs.drop_last()),
                ids.last(),
                embs.last(),
            );
        }
    }
}

/// The count check on a batch answer: accepted exactly when the backend
/// returned one vector per text.
pub fn check_embedding_count(expected: usize, got: usize) -> (r: Result<
    (),
    PortableBrainsError,
>)
    ensures
        r is Ok <==> got == expected,
        r matches Err(e) ==> e == (PortableBrainsError::CountMismatch { expected, got }),
{
    if got != expected {
        Err(PortableBrainsError::CountMismatch { expected, got })
    } else {
        Ok(())
    }
}

/// Persist one batch answer: attach each non-empty vector to its
/// fragment, in order, skipping fragments whose vector came back empty.
/// On a storage failure some prefix of the answer is persisted and the
/// rest is not.
pub fn apply_batch_embeddings<S: Storage>(
    storage: &mut S,
    fetched: &Vec<(String, String)>,
    embeddings: &Vec<Vec<u64>>,
) -> (r: Result<usize, PortableBrainsError>)
    requires
        store_inv(old(storage).sdocs(), old(storage).sfrags()),
        embeddings@.len() == fetched@.len(),
    ensures
        store_inv(final(storage).sdocs(), final(storage).sfrags()),
        final(storage).sdocs() == old(storage).sdocs(),
        final(storage).sversion() == old(storage).sversion(),
        final(storage).smodel() == old(storage).smodel(),
        r matches Ok(c) ==> final(storage).sfrags() == apply_embeds(
            old(storage).sfrags(),
            pair_ids(fetched@),
            embeddings.deep_view(),
        ) && c as int == count_nonempty(embeddings.deep_view()),
        r is Err ==> exists|j: int|
            0 <= j <= fetched@.len() && final(storage).sfrags() == apply_embeds(
                old(storage).sfrags(),
                #[trigger] pair_ids(fetched@).take(j),
                embeddings.deep_view().take(j),
            ),
        pending(final(storage).sfrags()).len() <= pending(old(storage).sfrags()).len(),
{
    let ghost ids = pair_ids(fetched@);
    let ghost embs = embeddings.deep_view();
    let mut updated: usize = 0;
    let mut j: usize = 0;
    while j < fetched.len()
        invariant
            j <= fetched@.len(),
            embeddings@.len() == fetched@.len(),
            ids == pair_ids(fetched@),
            embs == embeddings.deep_view(),
            store_inv(storage.sdocs(), storage.sfrags()),
            storage.sdocs() == old(storage).sdocs(),
            storage.sversion() == old(storage).sversion(),
            storage.smodel() == old(storage).smodel(),
            storage.sfrags() == apply_embeds(old(storage).sfrags(), ids.take(j as int), embs.take(j as int)),
            updated as int == count_nonempty(embs.take(j as int)),
            updated <= j,
        decreases fetched@.len() - j,
    {
        proof {
            assert(ids.take(j + 1).drop_last() =~= ids.take(j as int));
            assert(embs.take(j + 1).drop_last() =~= embs.take(j as int));
            assert(ids.take(j + 1).last() == ids[j as int]);
            assert(embs.take(j + 1).last() == embs[j as int]);
            assert(ids[j as int] == fetched@[j as int].0@);
            assert(embs[j as int] == embeddings@[j as int]@);
        }
        if embeddings[j].len() > 0 {
            let pair = &fetched[j];
            match storage.update_fragment_embedding(pair.0.as_str(), &embeddings[j]) {
                Ok(_) => (),
                Err(e) => {
                    proof {
                        lemma_apply_pending_le(
                            old(storage).sfrags(),
                            ids.take(j as int),
                            embs.take(j as int),
                        );
                        assert(storage.sfrags() == apply_embeds(
                            old(storage).sfrags(),
                            ids.take(j as int),
                            embs.take(j as int),
                        ));
                    }
                    return Err(e);
                },
            }
            updated = updated + 1;
        }
        j = j + 1;
    }
    proof {
        assert(ids.take(fetched@.len() as int) =~= ids);
        assert(embs.take(fetched@.len() as int) =~= embs);
        lemma_apply_pending_le(old(storage).sfrags(), ids, embs);
    }
    Ok(updated)
}

/// One embedding batch (phase two): fetch up to `batch_size` unembedded
/// fragments, call the backend once with exactly their texts, reject an
/// answer whose vector count differs from the request, and persist every
/// non-empty vector through `apply_batch_embeddings`.  The result is how
/// many fragments were fetched; zero means nothing is left and the
/// backend was not consulted.  What the backend answers is outside any
/// contract, so the persisted state is stated for every possible answer.
pub fn process_embedding_batch<S: Storage, E: Embedder>(
    storage: &mut S,
    embedder: &mut E,
    batch_size: usize,
) -> (r: Result<usize, PortableBrainsError>)
    requires
        store_inv(old(storage).sdocs(), old(storage).sfrags()),
    ensures
        store_inv(final(storage).sdocs(), final(storage).sfrags()),
        final(storage).sdocs() == old(storage).sdocs(),
        final(storage).sversion() == old(storage).sversion(),
        final(storage).smodel() == old(storage).smodel(),
        pending(final(storage).sfrags()).len() <= pending(old(storage).sfrags()).len(),
        r matches Ok(n) ==> n as int == vstd::math::min(
            batch_size as int,
            pending(old(storage).sfrags()).len() as int,
        ),
        r matches Ok(n) ==> (n == 0 ==> final(storage).sfrags() == old(storage).sfrags()) && (
        // whatever vectors came back, the new state is their fold over
        // the fetched pending fragments
        n > 0 ==> exists|embs: Seq<Seq<u64>>|
            final(storage).sfrags() == #[trigger] apply_embeds(
                old(storage).sfrags(),
                pending_ids(old(storage).sfrags(), n as int),
                embs,
            )),
{
    let fetched = match storage.get_fragments_without_embeddings(batch_size) {
        Ok(v) => v,
        Err(e) => {
            return Err(e);
        },
    };
    if fetched.len() == 0 {
        return Ok(0);
    }
    // one backend call for the whole batch, with the fetched texts
    let mut texts: Vec<String> = Vec::new();
    let mut i: usize = 0;
    while i < fetched.len()
        invariant
            i <= fetched@.len(),
            texts@.len() == i,
            forall|t: int| 0 <= t < i ==> (#[trigger] texts@[t])@ == fetched@[t].1@,
        decreases fetched@.len() - i,
    {
        texts.push(fetched[i].1.clone());
        i = i + 1;
    }
    let embeddings = match embedder.generate_embeddings_batch(&texts) {
        Ok(v) => v,
        Err(e) => {
            return Err(e);
        },
    };
    match check_embedding_count(fetched.len(), embeddings.len()) {
        Ok(_) => (),
        Err(e) => {
            return Err(e);
        },
    }
    // persist the non-empty vectors; an empty vector skips its fragment
    let ghost frags0 = storage.sfrags();
    match apply_batch_embeddings(storage, &fetched, &embeddings) {
        Ok(_) => (),
        Err(e) => {
            return Err(e);
        },
    }
    proof {
        let n = fetched@.len() as int;
        crate::storage::lemma_sort_frags_len(pending(old(storage).sfrags()));
        let want = pending_ids(old(storage).sfrags(), n);
        assert(pair_ids(fetched@) =~= want) by {
            assert forall|t: int| 0 <= t < n implies pair_ids(fetched@)[t] == want[t] by {
                assert(fetched@[t].0@ == crate::storage::sort_frags(
                    pending(old(storage).sfrags()),
                )[t].id);
            }
        }
        assert(final(storage).sfrags() == apply_embeds(
            old(storage).sfrags(),
            want,
            embeddings.deep_view(),
        ));
    }
    Ok(fetched.len())
}

/// Run phase two to completion: batches are processed one at a time with
/// a backpressure pause between them, until a fetch returns nothing.  If
/// a full batch makes no progress (the backend answered only empty
/// vectors), the loop stops rather than spin; the leftover count is the
/// difference between the result and the total.  The result is the
/// number of fragment fetches processed.
pub fn run_embedding_phase<S: Storage, E: Embedder>(
    storage: &mut S,
    embedder: &mut E,
    batch_size: usize,
) -> (r: Result<usize, PortableBrainsError>)
    requires
        store_inv(old(storage).sdocs(), old(storage).sfrags()),
        batch_size > 0,
    ensures
        store_inv(final(storage).sdocs(), final(storage).sfrags()),
        final(storage).sdocs() == old(storage).sdocs(),
        final(storage).sversion() == old(storage).sversion(),
        final(storage).smodel() == old(storage).smodel(),
        pending(final(storage).sfrags()).len() <= pending(old(storage).sfrags()).len(),
        r matches Ok(p) ==> (pending(old(storage).sfrags()).len() == 0 ==> p == 0 && final(storage).sfrags() == old(storage).sfrags()),
{
    let mut processed: usize = 0;
    let mut remaining = match storage.count_fragments_without_embeddings() {
        Ok(n) => n,
        Err(e) => {
            return Err(e);
        },
    };
    loop
        invariant
            store_inv(storage.sdocs(), storage.sfrags()),
            storage.sdocs() == old(storage).sdocs(),
            storage.sversion() == old(storage).sversion(),
            storage.smodel() == old(storage).smodel(),
            remaining as int <= pending(storage.sfrags()).len(),
            pending(storage.sfrags()).len() <= pending(old(storage).sfrags()).len(),
            pending(old(storage).sfrags()).len() == 0 ==> processed == 0 && storage.sfrags()
                == old(storage).sfrags(),
        ensures
            store_inv(storage.sdocs(), storage.sfrags()),
            storage.sdocs() == old(storage).sdocs(),
            storage.sversion() == old(storage).sversion(),
            storage.smodel() == old(storage).smodel(),
            pending(storage.sfrags()).len() <= pending(old(storage).sfrags()).len(),
            pending(old(storage).sfrags()).len() == 0 ==> processed == 0 && storage.sfrags()
                == old(storage).sfrags(),
        decreases remaining,
    {
        let n = match process_embedding_batch(storage, embedder, batch_size) {
            Ok(n) => n,
            Err(e) => {
                return Err(e);
            },
        };
        if n == 0 {
            break;
        }
        if processed <= usize::MAX - n {
            processed = processed + n;
        }
        let now_remaining = match storage.count_fragments_without_embeddings() {
            Ok(c) => c,
            Err(e) => {
                return Err(e);
            },
        };
        if now_remaining >= remaining {
            // the backend made no progress on this pass; stop instead of
            // spinning on fragments it cannot embed
            break;
        }
        remaining = now_remaining;
        embedder.pause_between_batches();
    }
    Ok(processed)
}

/// Fold key/value meta rows into the meta record; a missing key reads as
/// "unknown", a repeated key keeps its last value.
pub open spec fn spec_fold_meta(rows: Seq<(Seq<char>, Seq<char>)>) -> (
    Option<Seq<char>>,
    Option<Seq<char>>,
)
    decreases rows.len(),
{
    if rows.len() == 0 {
        (None, None)
    } else {
        let r = spec_fold_meta(rows.drop_last());
        if rows.last().0 == "version"@ {
            (Some(rows.last().1), r.1)
        } else if rows.last().0 == "embedding_model"@ {
            (r.0, Some(rows.last().1))
        } else {
            r
        }
    }
}

/// Build the meta record from key/value rows, as a durable backend reads
/// them back.
pub fn fold_meta_rows(rows: &Vec<(String, String)>) -> (r: MetaInfo)
    ensures
        r.version@ == (match spec_fold_meta(rows.deep_view()).0 {
            Some(v) => v,
            None => "unknown"@,
        }),
        r.embedding_model@ == (match spec_fold_meta(rows.deep_view()).1 {
            Some(m) => m,
            None => "unknown"@,
        }),
{
    let version_key = String::from_str("version");
    let model_key = String::from_str("embedding_model");
    proof {
        reveal_strlit("version");
        reveal_strlit("embedding_model");
    }
    let mut version: Option<String> = None;
    let mut model: Option<String> = None;
    let mut i: usize = 0;
    while i < rows.len()
        invariant
            i <= rows@.len(),
            version_key@ == "version"@,
            model_key@ == "embedding_model"@,
            spec_fold_meta(rows.deep_view().take(i as int)) == (
                match version {
                    Some(v) => Some(v@),
                    None => None::<Seq<char>>,
                },
                match model {
                    Some(m) => Some(m@),
                    None => None::<Seq<char>>,
                },
            ),
        decreases rows@.len() - i,
    {
        proof {
            assert(rows.deep_view().take(i + 1).drop_last() =~= rows.deep_view().take(i as int));
            assert(rows.deep_view().take(i + 1).last() == rows.deep_view()[i as int]);
        }
        let row = &rows[i];
        if row.0 == version_key {
            version = Some(row.1.clone());
        } else if row.0 == model_key {
            model = Some(row.1.clone());
        }
        i = i + 1;
    }
    proof {
        assert(rows.deep_view().take(rows@.len() as int) =~= rows.deep_view());
    }
    let v = match version {
        Some(v) => v,
        None => String::from_str("unknown"),
    };
    let m = match model {
        Some(m) => m,
        None => String::from_str("unknown"),
    };
    MetaInfo { version: v, embedding_model: m }
}

/// What a meta check of one stored value against the expected one
/// decides.
#[derive(Debug, Clone, Copy, PartialEq, Eq, Structural)]
pub enum MetaCheck {
    /// The stored value matches.
    Matches,
    /// Nothing is stored yet: the caller should write the expected value.
    Absent,
    /// A different value is stored: the run must abort.
    Mismatch,
}

/// Decide what a backend must do about one stored meta value.
pub fn meta_decision(existing: &Option<String>, expected: &str) -> (r: MetaCheck)
    ensures
        r == (match *existing {
            Some(v) => if v@ == expected@ {
                MetaCheck::Matches
            } else {
                MetaCheck::Mismatch
            },
            None => MetaCheck::Absent,
        }),
{
    match existing {
        Some(v) => {
            let e = String::from_str(expected);
            if *v == e {
                MetaCheck::Matches
            } else {
                MetaCheck::Mismatch
            }
        },
        None => MetaCheck::Absent,
    }
}

} // verus!
