//! The in-memory storage backend.
//!
//! It keeps documents, fragments and the two meta values in plain vectors
//! and honors the full `Storage` contract; data does not survive the
//! process.  Identifiers come from random UUIDs; the deterministic
//! `..._with_id` operations carry the exact acceptance conditions.

use vstd::prelude::*;
use crate::chars::chars_of;
use crate::chars::string_of;
use crate::errors::PortableBrainsError;
use crate::format::file_name_of;
use crate::format::extension_of;
use crate::storage::DocumentInfo;
use crate::storage::FragmentInfo;
use crate::storage::MetaInfo;
use crate::storage::DocModel;
use crate::storage::FragModel;
use crate::storage::Storage;
use crate::storage::db_version;
use crate::storage::has_path;
use crate::storage::has_doc_id;
use crate::storage::has_frag_id;
use crate::storage::frag_count;
use crate::storage::pending;
use crate::storage::set_embedding;
use crate::storage::store_inv;

verus! {

/// Relies on uuid's Uuid::new_v4 and its hyphenated rendering: a random
/// version-4 UUID as a 36-character string.  Nothing else is assumed of
/// the value.
#[verifier::external_body]
fn new_uuid_string() -> (r: String)
    ensures
        r@.len() == 36,
{
    uuid::Uuid::new_v4().to_string()
}

/// Relies on chrono's Utc::now and to_rfc3339: the current time rendered
/// as text.  Nothing is assumed of the value.
#[verifier::external_body]
fn current_timestamp() -> (r: String)
{
    chrono::Utc::now().to_rfc3339()
}

/// The store path with the canonical suffix appended when missing.
pub open spec fn with_store_suffix(p: Seq<char>) -> Seq<char> {
    if p.len() >= 8 && p.skip(p.len() - 8) == ".lancedb"@ {
        p
    } else {
        p + ".lancedb"@
    }
}

/// ASCII-lowercase every character.
pub open spec fn spec_ascii_lower(s: Seq<char>) -> Seq<char> {
    s.map_values(
        |c: char|
            if 65 <= c as u32 <= 90 {
                (((c as u32) + 32) as u8) as char
            } else {
                c
            },
    )
}

fn ascii_lower_str(s: &str) -> (r: String)
    ensures
        r@ == spec_ascii_lower(s@),
{
    let v = chars_of(s);
    let mut out: Vec<char> = Vec::new();
    let mut i: usize = 0;
    while i < v.len()
        invariant
            i <= v@.len(),
            v@ == s@,
            out@ == spec_ascii_lower(s@).take(i as int),
        decreases v@.len() - i,
    {
        let u = v[i] as u32;
        if 65 <= u && u <= 90 {
            out.push(((u + 32) as u8) as char);
        } else {
            out.push(v[i]);
        }
        i = i + 1;
        proof {
            assert(out@ =~= spec_ascii_lower(s@).take(i as int));
        }
    }
    proof {
        assert(spec_ascii_lower(s@).take(s@.len() as int) =~= spec_ascii_lower(s@));
    }
    string_of(&out)
}

/// The in-memory backend.
pub struct LanceDBStorage {
    pub db_path: String,
    pub version: Option<String>,
    pub model: Option<String>,
    pub docs: Vec<DocumentInfo>,
    pub frags: Vec<FragmentInfo>,
}

impl LanceDBStorage {
    /// The modelled documents.
    pub open spec fn docs_view(&self) -> Seq<DocModel> {
        self.docs@.map_values(|d: DocumentInfo| d@)
    }

    /// The modelled fragments.
    pub open spec fn frags_view(&self) -> Seq<FragModel> {
        self.frags@.map_values(|f: FragmentInfo| f@)
    }

    /// The backend's well-formedness.
    pub open spec fn sinv(&self) -> bool {
        store_inv(self.docs_view(), self.frags_view())
    }

    /// Open a fresh in-memory store; the path only names it (with the
    /// canonical suffix appended when missing), nothing is read from
    /// disk.
    pub fn new(db_path: &str) -> (r: Result<LanceDBStorage, PortableBrainsError>)
        ensures
            r matches Ok(st) && st.sinv() && st.db_path@ == with_store_suffix(db_path@)
                && st.sversion() == Some(db_version()) && st.smodel() is None && st.sdocs().len()
                == 0 && st.sfrags().len() == 0,
    {
        let v = chars_of(db_path);
        let n = v.len();
        let mut has_suffix = false;
        if n >= 8 {
            proof {
                reveal_strlit(".lancedb");
            }
            let sfx = chars_of(".lancedb");
            let mut k: usize = 0;
            let mut all_eq = true;
            while k < 8
                invariant
                    k <= 8,
                    n == v@.len(),
                    n >= 8,
                    v@ == db_path@,
                    sfx@ == ".lancedb"@,
                    sfx@.len() == 8,
                    all_eq == (forall|t: int|
                        0 <= t < k ==> v@[n - 8 + t] == #[trigger] sfx@[t]),
                decreases 8 - k,
            {
                if v[n - 8 + k] != sfx[k] {
                    all_eq = false;
                }
                k = k + 1;
            }
            has_suffix = all_eq;
            proof {
                if all_eq {
                    assert(v@.skip(n - 8) =~= ".lancedb"@);
                } else {
                    if v@.skip(n - 8) == ".lancedb"@ {
                        let t = choose|t: int|
                            0 <= t < 8 && v@[n - 8 + t] != #[trigger] sfx@[t];
                        assert(v@.skip(n - 8)[t] == v@[n - 8 + t]);
                    }
                }
            }
        }
        let path = if has_suffix {
            String::from_str(db_path)
        } else {
            let mut p = String::from_str(db_path);
            p.append(".lancedb");
            proof {
                reveal_strlit(".lancedb");
            }
            p
        };
        let mut st = LanceDBStorage {
            db_path: path,
            version: None,
            model: None,
            docs: Vec::new(),
            frags: Vec::new(),
        };
        proof {
            assert(st.docs_view() =~= Seq::<DocModel>::empty());
            assert(st.frags_view() =~= Seq::<FragModel>::empty());
        }
        let ir = st.initialize();
        match ir {
            Ok(_) => Ok(st),
            Err(e) => Err(e),
        }
    }
}

/// The stored file-type tag of a path: its extension, ASCII-lowercased,
/// or "unknown" when it has none.
pub open spec fn spec_doc_file_type(p: Seq<char>) -> Seq<char> {
    match crate::format::spec_extension_of(p) {
        Some(e) => spec_ascii_lower(e),
        None => "unknown"@,
    }
}

pub(crate) fn copy_bytes(v: &[u8]) -> (out: Vec<u8>)
    ensures
        out@ == v@,
{
    let mut out: Vec<u8> = Vec::new();
    let mut i: usize = 0;
    while i < v.len()
        invariant
            i <= v@.len(),
            out@ == v@.take(i as int),
        decreases v@.len() - i,
    {
        out.push(v[i]);
        i = i + 1;
        proof {
            assert(out@ =~= v@.take(i as int));
        }
    }
    proof {
        assert(out@ =~= v@);
    }
    out
}

impl LanceDBStorage {
    /// Store a document under the given identifier.  Succeeds exactly
    /// when neither the path nor the identifier is taken.
    #[verifier::rlimit(80)]
    pub fn store_document_with_id(&mut self, file_path: &str, file_data: &[u8], id: String) -> (
        r: Result<String, PortableBrainsError>)
        requires
            old(self).sinv(),
        ensures
            final(self).sinv(),
            final(self).sfrags() == old(self).sfrags(),
            final(self).sversion() == old(self).sversion(),
            final(self).smodel() == old(self).smodel(),
            final(self).db_path == old(self).db_path,
            r is Ok <==> !has_path(old(self).sdocs(), file_path@) && !has_doc_id(
                old(self).sdocs(),
                id@,
            ),
            r is Err ==> *final(self) == *old(self),
            r matches Ok(rid) ==> rid@ == id@ && final(self).sdocs().len() == old(self).sdocs().len() + 1 && final(self).sdocs().drop_last() == old(self).sdocs() && final(self).sdocs().last() == (DocModel {
                id: id@,
                filename: crate::format::spec_file_name_of(file_path@),
                path: file_path@,
                file_type: spec_doc_file_type(file_path@),
                data: file_data@,
                created_at: final(self).sdocs().last().created_at,
            }) && final(self).sdocs().last().created_at is Some,
    {
        let path = String::from_str(file_path);
        let mut i: usize = 0;
        while i < self.docs.len()
            invariant
                i <= self.docs@.len(),
                self == old(self),
                old(self).sinv(),
                path@ == file_path@,
                forall|k: int| 0 <= k < i ==> (#[trigger] self.docs_view()[k]).path != file_path@,
            decreases self.docs@.len() - i,
        {
            if self.docs[i].file_path == path {
                proof {
                    assert((self.docs_view()[i as int]).path == file_path@);
                }
                return Err(
                    PortableBrainsError::StorageError {
                        cause: String::from_str("a document with this path is already stored"),
                    },
                );
            }
            proof {
                assert((self.docs_view()[i as int]).path != file_path@);
            }
            i = i + 1;
        }
        proof {
            if has_path(self.docs_view(), file_path@) {
                let k = choose|k: int|
                    0 <= k < self.docs_view().len() && (#[trigger] self.docs_view()[k]).path
                        == file_path@;
            }
        }
        let mut j: usize = 0;
        while j < self.docs.len()
            invariant
                j <= self.docs@.len(),
                self == old(self),
                old(self).sinv(),
                forall|k: int| 0 <= k < j ==> (#[trigger] self.docs_view()[k]).id != id@,
            decreases self.docs@.len() - j,
        {
            proof {
                assert(self.docs_view()[j as int] == self.docs@[j as int]@);
            }
            if self.docs[j].id == id {
                proof {
                    assert((self.docs_view()[j as int]).id == id@);
                }
                return Err(
                    PortableBrainsError::StorageError {
                        cause: String::from_str("identifier collision"),
                    },
                );
            }
            proof {
                assert((self.docs_view()[j as int]).id != id@);
            }
            j = j + 1;
        }
        proof {
            if has_doc_id(self.docs_view(), id@) {
                let k = choose|k: int|
                    0 <= k < self.docs_view().len() && (#[trigger] self.docs_view()[k]).id == id@;
            }
        }
        let filename = file_name_of(file_path);
        let file_type = match extension_of(file_path) {
            Some(e) => ascii_lower_str(e.as_str()),
            None => String::from_str("unknown"),
        };
        let rec = DocumentInfo {
            id: id.clone(),
            filename,
            file_path: path,
            file_type,
            file_data: copy_bytes(file_data),
            created_at: Some(current_timestamp()),
        };
        let ghost old_view = self.docs_view();
        let ghost recv = rec@;
        self.docs.push(rec);
        proof {
            assert forall|k: int| 0 <= k < self.docs_view().len() implies self.docs_view()[k]
                == old_view.push(recv)[k] by {
                if k < old_view.len() {
                    assert(self.docs@[k] == old(self).docs@[k]);
                } else {
                    assert(self.docs@[k] == self.docs@.last());
                }
            }
            assert(self.docs_view() =~= old_view.push(recv));
            assert(self.docs_view().drop_last() =~= old_view);
            // uniqueness survives: the new identifier and path are fresh
            assert forall|a: int, b: int| 0 <= a < b < self.docs_view().len() implies (
            #[trigger] self.docs_view()[a]).id != (#[trigger] self.docs_view()[b]).id by {
                if b == old_view.len() {
                    assert(self.docs_view()[a] == old_view[a]);
                }
            }
            assert forall|a: int, b: int| 0 <= a < b < self.docs_view().len() implies (
            #[trigger] self.docs_view()[a]).path != (#[trigger] self.docs_view()[b]).path by {
                if b == old_view.len() {
                    assert(self.docs_view()[a] == old_view[a]);
                }
            }
            // fragment ownership still points at stored documents
            assert forall|k: int| 0 <= k < self.frags_view().len() implies has_doc_id(
                self.docs_view(),
                (#[trigger] self.frags_view()[k]).document_id,
            ) by {
                assert(has_doc_id(old_view, self.frags_view()[k].document_id));
                let m = choose|m: int|
                    0 <= m < old_view.len() && (#[trigger] old_view[m]).id == self.frags_view()[
                        k].document_id;
                assert((self.docs_view()[m]).id == self.frags_view()[k].document_id);
            }
        }
        Ok(id)
    }

    /// Store a fragment under the given identifier.  Succeeds exactly
    /// when the document exists, the order is the document's next free
    /// order, and the identifier is fresh.
    #[verifier::rlimit(80)]
    pub fn store_text_fragment_with_id(
        &mut self,
        document_id: &str,
        order: usize,
        content: &str,
        id: String,
    ) -> (r: Result<String, PortableBrainsError>)
        requires
            old(self).sinv(),
        ensures
            final(self).sinv(),
            final(self).sdocs() == old(self).sdocs(),
            final(self).sversion() == old(self).sversion(),
            final(self).smodel() == old(self).smodel(),
            final(self).db_path == old(self).db_path,
            r is Ok <==> has_doc_id(old(self).sdocs(), document_id@) && order as int
                == frag_count(old(self).sfrags(), document_id@) && !has_frag_id(
                old(self).sfrags(),
                id@,
            ),
            r is Err ==> *final(self) == *old(self),
            r matches Ok(rid) ==> rid@ == id@ && final(self).sfrags().len() == old(self).sfrags().len() + 1 && final(self).sfrags().drop_last() == old(self).sfrags()
                && final(self).sfrags().last() == (FragModel {
                id: id@,
                document_id: document_id@,
                order: order as int,
                content: content@,
                embedding: None,
                created_at: final(self).sfrags().last().created_at,
            }) && final(self).sfrags().last().created_at is Some,
    {
        // the owning document must exist
        let did = String::from_str(document_id);
        let mut i: usize = 0;
        let mut found = false;
        while i < self.docs.len() && !found
            invariant
                i <= self.docs@.len(),
                self == old(self),
                old(self).sinv(),
                did@ == document_id@,
                found ==> has_doc_id(self.docs_view(), document_id@),
                !found ==> forall|k: int|
                    0 <= k < i ==> (#[trigger] self.docs_view()[k]).id != document_id@,
            decreases self.docs@.len() - i,
        {
            proof {
                assert(self.docs_view()[i as int] == self.docs@[i as int]@);
            }
            if self.docs[i].id == did {
                proof {
                    assert((self.docs_view()[i as int]).id == document_id@);
                }
                found = true;
            } else {
                proof {
                    assert((self.docs_view()[i as int]).id != document_id@);
                }
            }
            i = i + 1;
        }
        if !found {
            proof {
                if has_doc_id(self.docs_view(), document_id@) {
                    let k = choose|k: int|
                        0 <= k < self.docs_view().len() && (#[trigger] self.docs_view()[k]).id
                            == document_id@;
                }
            }
            return Err(
                PortableBrainsError::StorageError {
                    cause: String::from_str("no document with this identifier"),
                },
            );
        }
        // the order must be the next free one
        let mut cnt: usize = 0;
        let mut t: usize = 0;
        while t < self.frags.len()
            invariant
                t <= self.frags@.len(),
                self == old(self),
                old(self).sinv(),
                did@ == document_id@,
                cnt <= t,
                cnt as int == frag_count(self.frags_view().take(t as int), document_id@),
            decreases self.frags@.len() - t,
        {
            proof {
                assert(self.frags_view().take(t + 1).drop_last() =~= self.frags_view().take(
                    t as int,
                ));
                assert(self.frags_view().take(t + 1).last() == self.frags_view()[t as int]);
            }
            if self.frags[t].document_id == did {
                cnt = cnt + 1;
            }
            t = t + 1;
        }
        proof {
            assert(self.frags_view().take(self.frags@.len() as int) =~= self.frags_view());
        }
        if order != cnt {
            return Err(
                PortableBrainsError::StorageError {
                    cause: String::from_str("fragment order out of sequence"),
                },
            );
        }
        // the identifier must be fresh
        let mut j: usize = 0;
        while j < self.frags.len()
            invariant
                j <= self.frags@.len(),
                self == old(self),
                old(self).sinv(),
                forall|k: int| 0 <= k < j ==> (#[trigger] self.frags_view()[k]).id != id@,
            decreases self.frags@.len() - j,
        {
            if self.frags[j].id == id {
                proof {
                    assert((self.frags_view()[j as int]).id == id@);
                }
                return Err(
                    PortableBrainsError::StorageError {
                        cause: String::from_str("identifier collision"),
                    },
                );
            }
            proof {
                assert((self.frags_view()[j as int]).id != id@);
            }
            j = j + 1;
        }
        proof {
            if has_frag_id(self.frags_view(), id@) {
                let k = choose|k: int|
                    0 <= k < self.frags_view().len() && (#[trigger] self.frags_view()[k]).id
                        == id@;
            }
        }
        let rec = FragmentInfo {
            id: id.clone(),
            document_id: did,
            fragment_order: order,
            content: String::from_str(content),
            embedding: None,
            created_at: Some(current_timestamp()),
        };
        let ghost old_view = self.frags_view();
        let ghost recv = rec@;
        self.frags.push(rec);
        proof {
            assert forall|k: int| 0 <= k < self.frags_view().len() implies self.frags_view()[k]
                == old_view.push(recv)[k] by {
                if k < old_view.len() {
                    assert(self.frags@[k] == old(self).frags@[k]);
                } else {
                    assert(self.frags@[k] == self.frags@.last());
                }
            }
            assert(self.frags_view() =~= old_view.push(recv));
            assert(self.frags_view().drop_last() =~= old_view);
            assert forall|a: int, b: int| 0 <= a < b < self.frags_view().len() implies (
            #[trigger] self.frags_view()[a]).id != (#[trigger] self.frags_view()[b]).id by {
                if b == old_view.len() {
                    assert(self.frags_view()[a] == old_view[a]);
                }
            }
            assert forall|k: int| 0 <= k < self.frags_view().len() implies has_doc_id(
                self.docs_view(),
                (#[trigger] self.frags_view()[k]).document_id,
            ) by {
                if k < old_view.len() {
                    assert(self.frags_view()[k] == old_view[k]);
                    assert(has_doc_id(self.docs_view(), old_view[k].document_id));
                }
            }
            // order contiguity: old prefixes are untouched, and the new
            // fragment's order is its document's previous count
            assert forall|k: int| 0 <= k < self.frags_view().len() implies (
            #[trigger] self.frags_view()[k]).order == frag_count(
                self.frags_view().take(k),
                self.frags_view()[k].document_id,
            ) by {
                assert(self.frags_view().take(k) =~= old_view.take(k));
                if k < old_view.len() {
                    assert(self.frags_view()[k] == old_view[k]);
                    assert(old_view[k].order == frag_count(
                        old_view.take(k),
                        old_view[k].document_id,
                    ));
                } else {
                    assert(old_view.take(k) =~= old_view);
                }
            }
        }
        Ok(id)
    }
}

/// The models of a record sequence.
pub open spec fn recs_view(v: Seq<FragmentInfo>) -> Seq<FragModel> {
    v.map_values(|f: FragmentInfo| f@)
}

/// Compare two strings lexicographically by code point.
fn lex_lt_str(a: &str, b: &str) -> (r: bool)
    ensures
        r == crate::storage::lex_lt(a@, b@),
{
    let an: usize = a.unicode_len();
    let bn: usize = b.unicode_len();
    let mut i: usize = 0;
    while i < an && i < bn
        invariant
            i <= an,
            i <= bn,
            an == a@.len(),
            bn == b@.len(),
            crate::storage::lex_lt_from(a@, b@, 0) == crate::storage::lex_lt_from(
                a@,
                b@,
                i as int,
            ),
        decreases an - i,
    {
        let ca = a.get_char(i);
        let cb = b.get_char(i);
        if ca != cb {
            return (ca as u32) < (cb as u32);
        }
        i = i + 1;
    }
    proof {
        assert(crate::storage::lex_lt_from(a@, b@, i as int) == (an < bn));
    }
    an < bn
}

/// Whether one fragment comes before another in batch order.
fn frag_before_rec(a: &FragmentInfo, b: &FragmentInfo) -> (r: bool)
    ensures
        r == crate::storage::frag_before(a@, b@),
{
    if lex_lt_str(a.document_id.as_str(), b.document_id.as_str()) {
        true
    } else if a.document_id == b.document_id {
        a.fragment_order < b.fragment_order
    } else {
        false
    }
}

/// A field-for-field copy of a fragment record.
fn copy_frag(f: &FragmentInfo) -> (r: FragmentInfo)
    ensures
        r@ == f@,
{
    FragmentInfo {
        id: f.id.clone(),
        document_id: f.document_id.clone(),
        fragment_order: f.fragment_order,
        content: f.content.clone(),
        embedding: match &f.embedding {
            Some(e) => Some(copy_u64s(e)),
            None => None,
        },
        created_at: match &f.created_at {
            Some(t) => Some(t.clone()),
            None => None,
        },
    }
}

/// Sort fragment records into batch order (by document identifier, then
/// order) by repeatedly extracting the first minimal record.
fn sort_recs(input: Vec<FragmentInfo>) -> (out: Vec<FragmentInfo>)
    ensures
        recs_view(out@) == crate::storage::sort_frags(recs_view(input@)),
        out@.len() == input@.len(),
{
    let ghost p = recs_view(input@);
    let total: usize = input.len();
    let mut work = input;
    let mut out: Vec<FragmentInfo> = Vec::new();
    while work.len() > 0
        invariant
            out@.len() + work@.len() == total,
            crate::storage::sort_frags(p) == recs_view(out@) + crate::storage::sort_frags(
                recs_view(work@),
            ),
        decreases work@.len(),
    {
        let ghost w = recs_view(work@);
        // find the first minimal record
        let mut m: usize = 0;
        let mut t: usize = 1;
        while t < work.len()
            invariant
                work@.len() >= 1,
                w == recs_view(work@),
                1 <= t <= work@.len(),
                m < t,
                crate::storage::min_from(w, 1, 0) == crate::storage::min_from(
                    w,
                    t as int,
                    m as int,
                ),
            decreases work@.len() - t,
        {
            proof {
                assert(w[t as int] == work@[t as int]@);
                assert(w[m as int] == work@[m as int]@);
            }
            if frag_before_rec(&work[t], &work[m]) {
                m = t;
            }
            t = t + 1;
        }
        proof {
            assert(crate::storage::min_from(w, t as int, m as int) == m as int);
            assert(crate::storage::sort_frags(w) == seq![w[m as int]]
                + crate::storage::sort_frags(w.remove(m as int)));
        }
        let picked = copy_frag(&work[m]);
        let ghost out_pre = recs_view(out@);
        out.push(picked);
        work.remove(m);
        proof {
            assert(recs_view(out@) =~= out_pre.push(w[m as int])) by {
                assert forall|k: int| 0 <= k < recs_view(out@).len() implies recs_view(out@)[k]
                    == out_pre.push(w[m as int])[k] by {
                    if k < out_pre.len() {
                    } else {
                        assert(out@[k]@ == w[m as int]);
                    }
                }
            }
            assert(recs_view(work@) =~= w.remove(m as int)) by {
                assert forall|k: int| 0 <= k < recs_view(work@).len() implies recs_view(
                    work@,
                )[k] == w.remove(m as int)[k] by {
                    if k < m as int {
                    } else {
                    }
                }
            }
            assert(recs_view(out@) + crate::storage::sort_frags(recs_view(work@))
                =~= (out_pre + crate::storage::sort_frags(w)));
        }
    }
    proof {
        assert(recs_view(work@) =~= Seq::<FragModel>::empty());
        assert(recs_view(out@) + Seq::<FragModel>::empty() =~= recs_view(out@));
    }
    out
}

impl Storage for LanceDBStorage {
    open spec fn sversion(&self) -> Option<Seq<char>> {
        match self.version {
            Some(v) => Some(v@),
            None => None,
        }
    }

    open spec fn smodel(&self) -> Option<Seq<char>> {
        match self.model {
            Some(m) => Some(m@),
            None => None,
        }
    }

    open spec fn sdocs(&self) -> Seq<DocModel> {
        self.docs_view()
    }

    open spec fn sfrags(&self) -> Seq<FragModel> {
        self.frags_view()
    }

    /// Record the schema version.
    fn initialize(&mut self) -> (r: Result<(), PortableBrainsError>)
        ensures
            r is Ok,
            final(self).sversion() == Some(db_version()),
            final(self).db_path == old(self).db_path,
    {
        self.version = Some(String::from_str("1.0.0"));
        Ok(())
    }

    fn verify_or_set_model(&mut self, model_name: &str) -> (r: Result<(), PortableBrainsError>)
        ensures
            final(self).db_path == old(self).db_path,
            r is Err ==> final(self).smodel() == old(self).smodel(),
            // this backend accepts exactly the stores whose meta values are
            // absent or already equal
            r is Ok <==> (old(self).sversion() is None || old(self).sversion() == Some(
                db_version(),
            )) && (old(self).smodel() is None || old(self).smodel() == Some(model_name@)),
    {
        let expected_version = String::from_str("1.0.0");
        match &self.version {
            Some(v) => {
                if !(*v == expected_version) {
                    return Err(
                        PortableBrainsError::ModelMismatch {
                            expected: expected_version,
                            found: v.clone(),
                        },
                    );
                }
            },
            None => {},
        }
        if self.version.is_none() {
            self.version = Some(expected_version);
        }
        let name = String::from_str(model_name);
        match &self.model {
            Some(m) => {
                if !(*m == name) {
                    return Err(
                        PortableBrainsError::ModelMismatch { expected: name, found: m.clone() },
                    );
                }
            },
            None => {},
        }
        if self.model.is_none() {
            self.model = Some(name);
        }
        Ok(())
    }

    fn document_exists(&mut self, file_path: &str) -> (r: Result<bool, PortableBrainsError>)
        ensures
            r is Ok,
            *final(self) == *old(self),
    {
        let path = String::from_str(file_path);
        let mut i: usize = 0;
        while i < self.docs.len()
            invariant
                i <= self.docs@.len(),
                self == old(self),
                old(self).sinv(),
                path@ == file_path@,
                forall|k: int| 0 <= k < i ==> (#[trigger] self.docs_view()[k]).path != file_path@,
            decreases self.docs@.len() - i,
        {
            if self.docs[i].file_path == path {
                proof {
                    assert((self.docs_view()[i as int]).path == file_path@);
                }
                return Ok(true);
            }
            proof {
                assert((self.docs_view()[i as int]).path != file_path@);
            }
            i = i + 1;
        }
        proof {
            if has_path(self.docs_view(), file_path@) {
                let k = choose|k: int|
                    0 <= k < self.docs_view().len() && (#[trigger] self.docs_view()[k]).path
                        == file_path@;
            }
        }
        Ok(false)
    }

    fn store_document(&mut self, file_path: &str, file_data: &[u8]) -> (r: Result<
        String,
        PortableBrainsError,
    >)
        ensures
            final(self).db_path == old(self).db_path,
    {
        let id = new_uuid_string();
        self.store_document_with_id(file_path, file_data, id)
    }

    fn store_text_fragment(&mut self, document_id: &str, order: usize, content: &str) -> (r:
        Result<String, PortableBrainsError>)
        ensures
            final(self).db_path == old(self).db_path,
    {
        let id = new_uuid_string();
        self.store_text_fragment_with_id(document_id, order, content, id)
    }

    fn update_fragment_embedding(&mut self, fragment_id: &str, embedding: &Vec<u64>) -> (r:
        Result<(), PortableBrainsError>)
        ensures
            final(self).db_path == old(self).db_path,
            has_frag_id(old(self).sfrags(), fragment_id@) ==> r is Ok,
    {
        let mut i: usize = 0;
        while i < self.frags.len()
            invariant
                i <= self.frags@.len(),
                self == old(self),
                old(self).sinv(),
                forall|k: int|
                    0 <= k < i ==> (#[trigger] old(self).sfrags()[k]).id != fragment_id@,
            decreases self.frags@.len() - i,
        {
            proof {
                assert(self.frags_view()[i as int] == self.frags@[i as int]@);
            }
            let matches_id = {
                let f = &self.frags[i];
                let fid = String::from_str(fragment_id);
                f.id == fid
            };
            if matches_id {
                let newrec = {
                    let f = &self.frags[i];
                    FragmentInfo {
                        id: f.id.clone(),
                        document_id: f.document_id.clone(),
                        fragment_order: f.fragment_order,
                        content: f.content.clone(),
                        embedding: Some(copy_u64s(embedding)),
                        created_at: match &f.created_at {
                            Some(t) => Some(t.clone()),
                            None => None,
                        },
                    }
                };
                let ghost recv = newrec@;
                proof {
                    assert((old(self).sfrags()[i as int]).id == fragment_id@);
                    assert(has_frag_id(old(self).sfrags(), fragment_id@));
                    assert(recv == (FragModel {
                        embedding: Some(embedding@),
                        ..old(self).sfrags()[i as int]
                    }));
                }
                self.frags.set(i, newrec);
                proof {
                    let upd = set_embedding(old(self).sfrags(), fragment_id@, embedding@);
                    assert forall|k: int| 0 <= k < self.frags_view().len() implies
                        self.frags_view()[k] == upd[k] by {
                        assert(self.frags_view()[k] == self.frags@[k]@);
                        if k == i as int {
                            assert(self.frags@[k]@ == recv);
                            assert(old(self).sfrags()[k].id == fragment_id@);
                        } else {
                            assert(self.frags@[k] == old(self).frags@[k]);
                            assert(self.frags@[k]@ == old(self).sfrags()[k]);
                            if old(self).sfrags()[k].id == fragment_id@ {
                                if k < i as int {
                                    assert((old(self).sfrags()[k]).id != fragment_id@);
                                } else {
                                    assert(old(self).sfrags()[i as int].id == old(self).sfrags()[k].id);
                                    assert(false);
                                }
                            }
                        }
                    }
                    assert(self.frags_view() =~= upd);
                    lemma_set_embedding_inv(old(self).sdocs(), old(self).sfrags(), fragment_id@, embedding@);
                }
                return Ok(());
            }
            proof {
                assert((old(self).sfrags()[i as int]).id != fragment_id@);
            }
            i = i + 1;
        }
        proof {
            if has_frag_id(self.frags_view(), fragment_id@) {
                let k = choose|k: int|
                    0 <= k < self.frags_view().len() && (#[trigger] self.frags_view()[k]).id
                        == fragment_id@;
            }
        }
        Err(
            PortableBrainsError::StorageError {
                cause: String::from_str("no fragment with this identifier"),
            },
        )
    }

    fn get_fragments_without_embeddings(&mut self, limit: usize) -> (r: Result<
        Vec<(String, String)>,
        PortableBrainsError,
    >)
        ensures
            r is Ok,
            *final(self) == *old(self),
    {
        // gather the unembedded fragments in storage order
        let mut all: Vec<FragmentInfo> = Vec::new();
        let mut i: usize = 0;
        while i < self.frags.len()
            invariant
                i <= self.frags@.len(),
                self == old(self),
                recs_view(all@) == pending(self.frags_view().take(i as int)),
            decreases self.frags@.len() - i,
        {
            proof {
                assert(self.frags_view().take(i + 1).drop_last() =~= self.frags_view().take(
                    i as int,
                ));
                assert(self.frags_view().take(i + 1).last() == self.frags_view()[i as int]);
                assert(self.frags_view()[i as int] == self.frags@[i as int]@);
            }
            let is_pending = {
                let f = &self.frags[i];
                f.embedding.is_none()
            };
            if is_pending {
                let ghost pre = recs_view(all@);
                let rec = copy_frag(&self.frags[i]);
                let ghost recv = rec@;
                all.push(rec);
                proof {
                    assert(recs_view(all@) =~= pre.push(recv)) by {
                        assert forall|k: int| 0 <= k < recs_view(all@).len() implies recs_view(
                            all@,
                        )[k] == pre.push(recv)[k] by {
                            if k < pre.len() {
                            } else {
                                assert(all@[k]@ == recv);
                            }
                        }
                    }
                }
            }
            i = i + 1;
        }
        proof {
            assert(self.frags_view().take(self.frags@.len() as int) =~= self.frags_view());
        }
        let ghost p = pending(self.frags_view());
        // batch order: by document identifier, then order
        let sorted = sort_recs(all);
        // keep at most `limit` of them, as (identifier, content) pairs
        let keep: usize = if limit < sorted.len() {
            limit
        } else {
            sorted.len()
        };
        let mut out: Vec<(String, String)> = Vec::new();
        let mut j: usize = 0;
        while j < keep
            invariant
                j <= keep,
                keep <= sorted@.len(),
                self == old(self),
                p == pending(self.frags_view()),
                recs_view(sorted@) == crate::storage::sort_frags(p),
                out@.len() == j,
                forall|k: int|
                    0 <= k < j ==> (#[trigger] out@[k]).0@ == crate::storage::sort_frags(p)[
                        k].id && out@[k].1@ == crate::storage::sort_frags(p)[k].content,
            decreases keep - j,
        {
            proof {
                assert(recs_view(sorted@)[j as int] == sorted@[j as int]@);
            }
            let rec = &sorted[j];
            out.push((rec.id.clone(), rec.content.clone()));
            j = j + 1;
        }
        Ok(out)
    }

    fn count_fragments_without_embeddings(&mut self) -> (r: Result<usize, PortableBrainsError>)
        ensures
            r is Ok,
            *final(self) == *old(self),
    {
        let mut n: usize = 0;
        let mut i: usize = 0;
        while i < self.frags.len()
            invariant
                i <= self.frags@.len(),
                self == old(self),
                old(self).sinv(),
                n as int == pending(self.frags_view().take(i as int)).len(),
                n <= i,
            decreases self.frags@.len() - i,
        {
            proof {
                assert(self.frags_view().take(i + 1).drop_last() =~= self.frags_view().take(
                    i as int,
                ));
                assert(self.frags_view().take(i + 1).last() == self.frags_view()[i as int]);
            }
            let is_pending = {
                let f = &self.frags[i];
                f.embedding.is_none()
            };
            if is_pending {
                n = n + 1;
            }
            i = i + 1;
        }
        proof {
            assert(self.frags_view().take(self.frags@.len() as int) =~= self.frags_view());
        }
        Ok(n)
    }

    fn get_meta_info(&mut self) -> (r: Result<MetaInfo, PortableBrainsError>)
        ensures
            r is Ok,
            *final(self) == *old(self),
    {
        let version = match &self.version {
            Some(v) => v.clone(),
            None => String::from_str("unknown"),
        };
        let embedding_model = match &self.model {
            Some(m) => m.clone(),
            None => String::from_str("unknown"),
        };
        Ok(MetaInfo { version, embedding_model })
    }

    /// The stub similarity search of this backend: the first fragments in
    /// storage order, with a synthetic score that decreases with the
    /// position.
    fn search_similar(&mut self, query_embedding: &Vec<u64>, limit: usize) -> (r: Result<
        Vec<(String, String, u64)>,
        PortableBrainsError,
    >)
        ensures
            r is Ok,
            *final(self) == *old(self),
            r matches Ok(v) ==> v@.len() == vstd::math::min(
                limit as int,
                old(self).sfrags().len() as int,
            ) && forall|k: int|
                0 <= k < v@.len() ==> (#[trigger] v@[k]).0@ == old(self).sfrags()[k].id
                    && v@[k].1@ == old(self).sfrags()[k].content && v@[k].2 as int == sim_score(
                    k,
                ),
    {
        let mut out: Vec<(String, String, u64)> = Vec::new();
        let keep: usize = if limit < self.frags.len() {
            limit
        } else {
            self.frags.len()
        };
        let mut i: usize = 0;
        while i < keep
            invariant
                i <= keep,
                keep <= self.frags@.len(),
                self == old(self),
                old(self).sinv(),
                out@.len() == i,
                forall|k: int|
                    0 <= k < i ==> (#[trigger] out@[k]).0@ == self.frags_view()[k].id
                        && out@[k].1@ == self.frags_view()[k].content && out@[k].2 as int
                        == sim_score(k),
            decreases keep - i,
        {
            let score: u64 = if i < 10 {
                1000 - 100 * (i as u64)
            } else {
                0
            };
            let f = &self.frags[i];
            out.push((f.id.clone(), f.content.clone(), score));
            i = i + 1;
        }
        proof {
            assert forall|a: int, b: int| 0 <= a < b < out@.len() implies (#[trigger] out@[a]).2
                >= (#[trigger] out@[b]).2 by {
                assert(out@[a].2 as int == sim_score(a));
                assert(out@[b].2 as int == sim_score(b));
            }
        }
        Ok(out)
    }
}

/// The synthetic similarity score of the in-memory backend, scaled by a
/// thousand: it starts at one thousand and falls by one hundred per
/// position, never below zero.
pub open spec fn sim_score(k: int) -> int {
    if k < 10 {
        1000 - 100 * k
    } else {
        0
    }
}

fn copy_u64s(v: &Vec<u64>) -> (out: Vec<u64>)
    ensures
        out@ == v@,
{
    let mut out: Vec<u64> = Vec::new();
    let mut i: usize = 0;
    while i < v.len()
        invariant
            i <= v@.len(),
            out@ == v@.take(i as int),
        decreases v@.len() - i,
    {
        out.push(v[i]);
        i = i + 1;
        proof {
            assert(out@ =~= v@.take(i as int));
        }
    }
    proof {
        assert(out@ =~= v@);
    }
    out
}

/// Setting an embedding changes no identifier, owner or order, so the
/// store invariant survives.
proof fn lemma_set_embedding_inv(
    docs: Seq<DocModel>,
    frags: Seq<FragModel>,
    id: Seq<char>,
    emb: Seq<u64>,
)
    requires
        store_inv(docs, frags),
    ensures
        store_inv(docs, set_embedding(frags, id, emb)),
{
    let upd = set_embedding(frags, id, emb);
    assert(upd.len() == frags.len());
    assert(forall|k: int|
        0 <= k < frags.len() ==> (#[trigger] upd[k]).id == frags[k].id && upd[k].document_id
            == frags[k].document_id && upd[k].order == frags[k].order);
    assert forall|i: int| 0 <= i < upd.len() implies (#[trigger] upd[i]).order == frag_count(
        upd.take(i),
        upd[i].document_id,
    ) by {
        lemma_frag_count_same(frags.take(i), upd.take(i), upd[i].document_id);
        assert(frags[i].order == frag_count(frags.take(i), frags[i].document_id));
    }
}

/// Fragment counts depend only on the owners.
proof fn lemma_frag_count_same(a: Seq<FragModel>, b: Seq<FragModel>, d: Seq<char>)
    requires
        a.len() == b.len(),
        forall|k: int| 0 <= k < a.len() ==> (#[trigger] a[k]).document_id == b[k].document_id,
    ensures
        frag_count(a, d) == frag_count(b, d),
    decreases a.len(),
{
    if a.len() > 0 {
        assert(forall|k: int|
            0 <= k < a.drop_last().len() ==> (#[trigger] a.drop_last()[k]).document_id
                == b.drop_last()[k].document_id) by {
            assert(forall|k: int|
                0 <= k < a.drop_last().len() ==> (#[trigger] a.drop_last()[k]) == a[k]
                    && b.drop_last()[k] == b[k]);
        }
        lemma_frag_count_same(a.drop_last(), b.drop_last(), d);
        assert(a.last().document_id == b.last().document_id) by {
            assert(a[a.len() - 1].document_id == b[a.len() - 1].document_id);
        }
    }
}

} // verus!
