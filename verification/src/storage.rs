//! The storage abstraction: record types, their mathematical models, and
//! the contract every storage backend must honor.

use vstd::prelude::*;
use crate::errors::PortableBrainsError;

verus! {

/// One ingested source file, as stored.
#[derive(Debug, Clone)]
pub struct DocumentInfo {
    pub id: String,
    pub filename: String,
    pub file_path: String,
    pub file_type: String,
    pub file_data: Vec<u8>,
    pub created_at: Option<String>,
}

/// One text fragment of a document.  The embedding, absent until the
/// embedding phase reaches the fragment, is carried as the raw bit pattern
/// of each vector component.
#[derive(Debug, Clone)]
pub struct FragmentInfo {
    pub id: String,
    pub document_id: String,
    pub fragment_order: usize,
    pub content: String,
    pub embedding: Option<Vec<u64>>,
    pub created_at: Option<String>,
}

/// The two singleton meta values of a store.
#[derive(Debug, Clone)]
pub struct MetaInfo {
    pub version: String,
    pub embedding_model: String,
}

/// The mathematical model of a stored document.
pub struct DocModel {
    pub id: Seq<char>,
    pub filename: Seq<char>,
    pub path: Seq<char>,
    pub file_type: Seq<char>,
    pub data: Seq<u8>,
    pub created_at: Option<Seq<char>>,
}

/// The mathematical model of a stored fragment.
pub struct FragModel {
    pub id: Seq<char>,
    pub document_id: Seq<char>,
    pub order: int,
    pub content: Seq<char>,
    pub embedding: Option<Seq<u64>>,
    pub created_at: Option<Seq<char>>,
}

impl View for DocumentInfo {
    type V = DocModel;

    open spec fn view(&self) -> DocModel {
        DocModel {
            id: self.id@,
            filename: self.filename@,
            path: self.file_path@,
            file_type: self.file_type@,
            data: self.file_data@,
            created_at: match self.created_at {
                Some(t) => Some(t@),
                None => None,
            },
        }
    }
}

impl View for FragmentInfo {
    type V = FragModel;

    open spec fn view(&self) -> FragModel {
        FragModel {
            id: self.id@,
            document_id: self.document_id@,
            order: self.fragment_order as int,
            content: self.content@,
            embedding: match self.embedding {
                Some(e) => Some(e@),
                None => None,
            },
            created_at: match self.created_at {
                Some(t) => Some(t@),
                None => None,
            },
        }
    }
}

/// The schema version every store of this library carries.
pub open spec fn db_version() -> Seq<char> {
    "1.0.0"@
}

/// Whether some stored document has the given path.
pub open spec fn has_path(docs: Seq<DocModel>, path: Seq<char>) -> bool {
    exists|i: int| 0 <= i < docs.len() && (#[trigger] docs[i]).path == path
}

/// Whether some stored document has the given identifier.
pub open spec fn has_doc_id(docs: Seq<DocModel>, id: Seq<char>) -> bool {
    exists|i: int| 0 <= i < docs.len() && (#[trigger] docs[i]).id == id
}

/// Whether some stored fragment has the given identifier.
pub open spec fn has_frag_id(frags: Seq<FragModel>, id: Seq<char>) -> bool {
    exists|i: int| 0 <= i < frags.len() && (#[trigger] frags[i]).id == id
}

/// How many stored fragments belong to the given document.
pub open spec fn frag_count(frags: Seq<FragModel>, doc_id: Seq<char>) -> int
    decreases frags.len(),
{
    if frags.len() == 0 {
        0
    } else {
        frag_count(frags.drop_last(), doc_id) + if frags.last().document_id == doc_id {
            1int
        } else {
            0int
        }
    }
}

/// The fragments that still lack an embedding, in storage order.
pub open spec fn pending(frags: Seq<FragModel>) -> Seq<FragModel>
    decreases frags.len(),
{
    if frags.len() == 0 {
        Seq::empty()
    } else if frags.last().embedding is None {
        pending(frags.drop_last()).push(frags.last())
    } else {
        pending(frags.drop_last())
    }
}

/// Strict lexicographic order on character sequences, by code point,
/// compared from position `i` on.
pub open spec fn lex_lt_from(a: Seq<char>, b: Seq<char>, i: int) -> bool
    decreases a.len() - i,
{
    if i >= a.len() {
        i < b.len()
    } else if i >= b.len() {
        false
    } else if a[i] != b[i] {
        (a[i] as int) < (b[i] as int)
    } else {
        lex_lt_from(a, b, i + 1)
    }
}

/// Strict lexicographic order on character sequences, by code point.
pub open spec fn lex_lt(a: Seq<char>, b: Seq<char>) -> bool {
    lex_lt_from(a, b, 0)
}

/// The batch order of fragments: by document identifier, then by order
/// within the document.
pub open spec fn frag_before(f: FragModel, g: FragModel) -> bool {
    lex_lt(f.document_id, g.document_id) || (f.document_id == g.document_id && f.order
        < g.order)
}

/// The index of the first minimal fragment under the batch order among
/// `s[i..]` and the candidate at `best`.
pub open spec fn min_from(s: Seq<FragModel>, i: int, best: int) -> int
    decreases s.len() - i,
{
    if i >= s.len() {
        best
    } else if frag_before(s[i], s[best]) {
        min_from(s, i + 1, i)
    } else {
        min_from(s, i + 1, best)
    }
}

/// The fragments sorted by (document identifier, order): repeatedly the
/// first minimal element, then the rest sorted.
pub open spec fn sort_frags(s: Seq<FragModel>) -> Seq<FragModel>
    decreases s.len(),
{
    if s.len() == 0 {
        Seq::empty()
    } else {
        let m0 = min_from(s, 1, 0);
        let m = if 0 <= m0 < s.len() {
            m0
        } else {
            0
        };
        seq![s[m]] + sort_frags(s.remove(m))
    }
}

/// Sorting keeps the count.
pub proof fn lemma_sort_frags_len(s: Seq<FragModel>)
    ensures
        sort_frags(s).len() == s.len(),
    decreases s.len(),
{
    if s.len() > 0 {
        let m0 = min_from(s, 1, 0);
        let m = if 0 <= m0 < s.len() {
            m0
        } else {
            0
        };
        lemma_sort_frags_len(s.remove(m));
    }
}

/// The fragment list with the embedding of the fragment named `id` set.
pub open spec fn set_embedding(
    frags: Seq<FragModel>,
    id: Seq<char>,
    emb: Seq<u64>,
) -> Seq<FragModel> {
    frags.map_values(
        |f: FragModel|
            if f.id == id {
                FragModel { embedding: Some(emb), ..f }
            } else {
                f
            },
    )
}

/// Well-formedness of a store: unique document identifiers and paths,
/// unique fragment identifiers, every fragment owned by a stored
/// document, and each document's fragment orders contiguous from zero in
/// storage order.
pub open spec fn store_inv(docs: Seq<DocModel>, frags: Seq<FragModel>) -> bool {
    &&& forall|i: int, j: int|
        0 <= i < j < docs.len() ==> (#[trigger] docs[i]).id != (#[trigger] docs[j]).id
    &&& forall|i: int, j: int|
        0 <= i < j < docs.len() ==> (#[trigger] docs[i]).path != (#[trigger] docs[j]).path
    &&& forall|i: int, j: int|
        0 <= i < j < frags.len() ==> (#[trigger] frags[i]).id != (#[trigger] frags[j]).id
    &&& forall|i: int|
        0 <= i < frags.len() ==> has_doc_id(docs, (#[trigger] frags[i]).document_id)
    &&& forall|i: int|
        0 <= i < frags.len() ==> (#[trigger] frags[i]).order == frag_count(
            frags.take(i),
            frags[i].document_id,
        )
}

/// The contract of a storage backend.  A backend persists documents,
/// fragments and the two singleton meta values; reads report exactly the
/// modelled state, and writes evolve it as stated.
pub trait Storage: Sized {
    /// The stored schema version, if set.  Backends whose state the
    /// verifier can see refine this; the default models an empty store.
    open spec fn sversion(&self) -> Option<Seq<char>> {
        None
    }

    /// The stored embedding-model name, if set.
    open spec fn smodel(&self) -> Option<Seq<char>> {
        None
    }

    /// The stored documents, in insertion order.
    open spec fn sdocs(&self) -> Seq<DocModel> {
        Seq::empty()
    }

    /// The stored fragments, in insertion order.
    open spec fn sfrags(&self) -> Seq<FragModel> {
        Seq::empty()
    }

    /// Prepare the backend for use.
    fn initialize(&mut self) -> (r: Result<(), PortableBrainsError>)
        requires
            store_inv(old(self).sdocs(), old(self).sfrags()),
        ensures
            store_inv(final(self).sdocs(), final(self).sfrags()),
            final(self).sdocs() == old(self).sdocs(),
            final(self).sfrags() == old(self).sfrags(),
            final(self).smodel() == old(self).smodel(),
    ;

    /// Check the schema version and embedding model, setting whichever is
    /// absent; a store created for a different version or model is
    /// rejected, never overwritten.
    fn verify_or_set_model(&mut self, model_name: &str) -> (r: Result<(), PortableBrainsError>)
        requires
            store_inv(old(self).sdocs(), old(self).sfrags()),
        ensures
            store_inv(final(self).sdocs(), final(self).sfrags()),
            final(self).sdocs() == old(self).sdocs(),
            final(self).sfrags() == old(self).sfrags(),
            r is Ok ==> final(self).sversion() == Some(db_version()) && final(self).smodel()
                == Some(model_name@),
            r is Ok && old(self).smodel() is Some ==> old(self).smodel() == Some(model_name@),
            r is Ok && old(self).sversion() is Some ==> old(self).sversion() == Some(
                db_version(),
            ),
            old(self).sversion() matches Some(v) ==> (v != db_version() ==> (r matches Err(e)
                && (e matches PortableBrainsError::ModelMismatch { expected, found }
                && expected@ == db_version() && found@ == v)) && final(self).smodel() == old(self).smodel() && final(self).sversion() == old(self).sversion()),
            old(self).sversion() == Some(db_version()) ==> (old(self).smodel() matches Some(m)
                ==> (m != model_name@ ==> (r matches Err(e)
                && (e matches PortableBrainsError::ModelMismatch { expected, found }
                && expected@ == model_name@ && found@ == m)) && final(self).smodel() == old(self).smodel() && final(self).sversion() == old(self).sversion())),
    ;

    /// Whether a document with this path is already stored.
    fn document_exists(&mut self, file_path: &str) -> (r: Result<bool, PortableBrainsError>)
        requires
            store_inv(old(self).sdocs(), old(self).sfrags()),
        ensures
            store_inv(final(self).sdocs(), final(self).sfrags()),
            final(self).sdocs() == old(self).sdocs(),
            final(self).sfrags() == old(self).sfrags(),
            final(self).sversion() == old(self).sversion(),
            final(self).smodel() == old(self).smodel(),
            r matches Ok(b) ==> b == has_path(old(self).sdocs(), file_path@),
    ;

    /// Store a document under a fresh identifier; a path already stored
    /// is rejected.
    fn store_document(&mut self, file_path: &str, file_data: &[u8]) -> (r: Result<
        String,
        PortableBrainsError,
    >)
        requires
            store_inv(old(self).sdocs(), old(self).sfrags()),
        ensures
            store_inv(final(self).sdocs(), final(self).sfrags()),
            final(self).sfrags() == old(self).sfrags(),
            final(self).sversion() == old(self).sversion(),
            final(self).smodel() == old(self).smodel(),
            has_path(old(self).sdocs(), file_path@) ==> r is Err,
            r is Err ==> final(self).sdocs() == old(self).sdocs(),
            r matches Ok(id) ==> !has_path(old(self).sdocs(), file_path@) && !has_doc_id(
                old(self).sdocs(),
                id@,
            ) && final(self).sdocs().len() == old(self).sdocs().len() + 1
                && final(self).sdocs().drop_last() == old(self).sdocs() && final(self).sdocs().last().id == id@ && final(self).sdocs().last().path == file_path@
                && final(self).sdocs().last().data == file_data@,
    ;

    /// Store a text fragment of a document, without an embedding.  The
    /// order must be the next free order of that document.
    fn store_text_fragment(&mut self, document_id: &str, order: usize, content: &str) -> (r:
        Result<String, PortableBrainsError>)
        requires
            store_inv(old(self).sdocs(), old(self).sfrags()),
        ensures
            store_inv(final(self).sdocs(), final(self).sfrags()),
            final(self).sdocs() == old(self).sdocs(),
            final(self).sversion() == old(self).sversion(),
            final(self).smodel() == old(self).smodel(),
            !has_doc_id(old(self).sdocs(), document_id@) ==> r is Err,
            order as int != frag_count(old(self).sfrags(), document_id@) ==> r is Err,
            r is Err ==> final(self).sfrags() == old(self).sfrags(),
            r matches Ok(id) ==> has_doc_id(old(self).sdocs(), document_id@) && order as int
                == frag_count(old(self).sfrags(), document_id@) && !has_frag_id(
                old(self).sfrags(),
                id@,
            ) && final(self).sfrags().len() == old(self).sfrags().len() + 1 && final(self).sfrags().drop_last() == old(self).sfrags() && final(self).sfrags().last().id == id@
                && final(self).sfrags().last().document_id == document_id@ && final(self).sfrags().last().order == order as int && final(self).sfrags().last().content
                == content@ && final(self).sfrags().last().embedding is None,
    ;

    /// Attach an embedding to a stored fragment.
    fn update_fragment_embedding(&mut self, fragment_id: &str, embedding: &Vec<u64>) -> (r:
        Result<(), PortableBrainsError>)
        requires
            store_inv(old(self).sdocs(), old(self).sfrags()),
        ensures
            store_inv(final(self).sdocs(), final(self).sfrags()),
            final(self).sdocs() == old(self).sdocs(),
            final(self).sversion() == old(self).sversion(),
            final(self).smodel() == old(self).smodel(),
            !has_frag_id(old(self).sfrags(), fragment_id@) ==> r is Err,
            r is Err ==> final(self).sfrags() == old(self).sfrags(),
            r is Ok ==> has_frag_id(old(self).sfrags(), fragment_id@) && final(self).sfrags()
                == set_embedding(old(self).sfrags(), fragment_id@, embedding@),
    ;

    /// Up to `limit` fragments still lacking an embedding, as
    /// (identifier, content) pairs, ordered by (document identifier,
    /// fragment order).
    fn get_fragments_without_embeddings(&mut self, limit: usize) -> (r: Result<
        Vec<(String, String)>,
        PortableBrainsError,
    >)
        requires
            store_inv(old(self).sdocs(), old(self).sfrags()),
        ensures
            store_inv(final(self).sdocs(), final(self).sfrags()),
            final(self).sdocs() == old(self).sdocs(),
            final(self).sfrags() == old(self).sfrags(),
            final(self).sversion() == old(self).sversion(),
            final(self).smodel() == old(self).smodel(),
            r matches Ok(v) ==> v@.len() == vstd::math::min(
                limit as int,
                pending(old(self).sfrags()).len() as int,
            ) && forall|k: int|
                0 <= k < v@.len() ==> (#[trigger] v@[k]).0@ == sort_frags(
                    pending(old(self).sfrags()),
                )[k].id && v@[k].1@ == sort_frags(pending(old(self).sfrags()))[k].content,
    ;

    /// How many fragments still lack an embedding.
    fn count_fragments_without_embeddings(&mut self) -> (r: Result<usize, PortableBrainsError>)
        requires
            store_inv(old(self).sdocs(), old(self).sfrags()),
        ensures
            store_inv(final(self).sdocs(), final(self).sfrags()),
            final(self).sdocs() == old(self).sdocs(),
            final(self).sfrags() == old(self).sfrags(),
            final(self).sversion() == old(self).sversion(),
            final(self).smodel() == old(self).smodel(),
            r matches Ok(n) ==> n as int == pending(old(self).sfrags()).len(),
    ;

    /// The stored meta values; absent values read as "unknown".
    fn get_meta_info(&mut self) -> (r: Result<MetaInfo, PortableBrainsError>)
        requires
            store_inv(old(self).sdocs(), old(self).sfrags()),
        ensures
            store_inv(final(self).sdocs(), final(self).sfrags()),
            final(self).sdocs() == old(self).sdocs(),
            final(self).sfrags() == old(self).sfrags(),
            final(self).sversion() == old(self).sversion(),
            final(self).smodel() == old(self).smodel(),
            r matches Ok(m) ==> m.version@ == (match old(self).sversion() {
                Some(v) => v,
                None => "unknown"@,
            }) && m.embedding_model@ == (match old(self).smodel() {
                Some(mo) => mo,
                None => "unknown"@,
            }),
    ;

    /// The fragments most similar to a query embedding, best first: at
    /// most `limit` results, scores (scaled by a thousand) non-increasing.
    fn search_similar(&mut self, query_embedding: &Vec<u64>, limit: usize) -> (r: Result<
        Vec<(String, String, u64)>,
        PortableBrainsError,
    >)
        requires
            store_inv(old(self).sdocs(), old(self).sfrags()),
        ensures
            store_inv(final(self).sdocs(), final(self).sfrags()),
            final(self).sdocs() == old(self).sdocs(),
            final(self).sfrags() == old(self).sfrags(),
            final(self).sversion() == old(self).sversion(),
            final(self).smodel() == old(self).smodel(),
            r matches Ok(v) ==> v@.len() <= limit && forall|a: int, b: int|
                0 <= a < b < v@.len() ==> (#[trigger] v@[a]).2 >= (#[trigger] v@[b]).2,
    ;
}

/// A document stored under a path is found by a later existence check:
/// appending a record makes its path present.
pub proof fn lemma_stored_path_is_found(docs: Seq<DocModel>, doc: DocModel)
    ensures
        has_path(docs.push(doc), doc.path),
{
    assert(docs.push(doc)[docs.len() as int].path == doc.path);
}

/// The selectable storage backends.
#[derive(Debug, Clone, Copy, PartialEq, Eq, Structural)]
pub enum StorageBackend {
    DuckDB,
    LanceDB,
}

impl StorageBackend {
    /// Parse a backend name, ignoring ASCII case.
    pub fn from_str(s: &str) -> (r: Option<StorageBackend>)
        ensures
            r == spec_backend_from_str(s@),
    {
        if crate::format::ascii_ieq(s, "duckdb") {
            Some(StorageBackend::DuckDB)
        } else if crate::format::ascii_ieq(s, "lancedb") {
            Some(StorageBackend::LanceDB)
        } else {
            None
        }
    }

    /// The canonical name of the backend.
    pub fn as_str(&self) -> (r: &'static str)
        ensures
            match *self {
                StorageBackend::DuckDB => r@ == "duckdb"@,
                StorageBackend::LanceDB => r@ == "lancedb"@,
            },
    {
        match self {
            StorageBackend::DuckDB => "duckdb",
            StorageBackend::LanceDB => "lancedb",
        }
    }
}

/// Which backend a (possibly mixed-case) name denotes, if any.
pub open spec fn spec_backend_from_str(s: Seq<char>) -> Option<StorageBackend> {
    if crate::format::str_ieq(s, "duckdb"@) {
        Some(StorageBackend::DuckDB)
    } else if crate::format::str_ieq(s, "lancedb"@) {
        Some(StorageBackend::LanceDB)
    } else {
        None
    }
}

} // verus!
