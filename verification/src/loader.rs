//! The catalog loader's decision logic. The surrounding application fetches
//! bytes and runs the background tasks; everything that interprets those
//! bytes or touches the in-memory store stands here: the idempotent fast
//! path, index decoding, chunk decompression, and the append-only growth
//! law that makes repeated loads monotonic.
use vstd::prelude::*;

use crate::store::CatalogStore;
use crate::text::seq_views;

verus! {

/// Why a catalog operation failed.
#[derive(Clone, Copy, PartialEq, Eq, Structural, Debug)]
pub enum CatalogError {
    /// The network fetch itself failed.
    Transport,
    /// Decompression or parsing of a fetched document failed.
    Format,
    /// The chunk index could not be fetched or decoded; no partial catalog
    /// is exposed.
    Index,
}

/// The bytes that gzip-decompressing a byte sequence yields, when it is a
/// well-formed gzip stream; decompression depends on the input alone.
pub uninterp spec fn gunzip_of(b: Seq<u8>) -> Option<Seq<u8>>;

/// The chunk-locator list a JSON document denotes, when it is a JSON array
/// of strings; parsing depends on the input alone.
pub uninterp spec fn index_doc_of(b: Seq<u8>) -> Option<Seq<Seq<char>>>;

/// Relies on `flate2::read::GzDecoder`: decompresses a gzip stream read
/// from the given bytes; the result is a function of the bytes alone.
#[verifier::external_body]
fn gunzip(b: &Vec<u8>) -> (r: Option<Vec<u8>>)
    ensures
        match r {
            Some(v) => gunzip_of(b@) == Some(v@),
            None => gunzip_of(b@) is None,
        },
{
    let mut gz = flate2::read::GzDecoder::new(b.as_slice());
    let mut out: Vec<u8> = Vec::new();
    match std::io::Read::read_to_end(&mut gz, &mut out) {
        Ok(_) => Some(out),
        Err(_) => None,
    }
}

/// Relies on `serde_json::from_slice`: parses a JSON array of strings; the
/// result is a function of the bytes alone.
#[verifier::external_body]
fn parse_index_json(b: &Vec<u8>) -> (r: Option<Vec<String>>)
    ensures
        match r {
            Some(v) => index_doc_of(b@) == Some(seq_views(v@)),
            None => index_doc_of(b@) is None,
        },
{
    serde_json::from_slice::<Vec<String>>(b.as_slice()).ok()
}

/// What a fetched catalog index decodes to: gunzip, then a JSON array of
/// chunk locators.
pub open spec fn spec_decode_index(b: Seq<u8>) -> Option<Seq<Seq<char>>> {
    match gunzip_of(b) {
        None => None,
        Some(doc) => index_doc_of(doc),
    }
}

/// Decodes a fetched catalog index into its ordered chunk locators. A
/// document that does not decompress or parse is an index error: no
/// partial catalog is exposed.
pub fn decode_index(b: &Vec<u8>) -> (r: Result<Vec<String>, CatalogError>)
    ensures
        match r {
            Ok(urls) => spec_decode_index(b@) == Some(seq_views(urls@)),
            Err(e) => spec_decode_index(b@) is None && e == CatalogError::Index,
        },
{
    let doc = match gunzip(b) {
        Some(d) => d,
        None => {
            return Err(CatalogError::Index);
        },
    };
    match parse_index_json(&doc) {
        Some(urls) => Ok(urls),
        None => Err(CatalogError::Index),
    }
}

/// Decompresses a fetched chunk document; failure is a format error, which
/// the loader absorbs for that one chunk.
pub fn decompress_chunk(b: &Vec<u8>) -> (r: Result<Vec<u8>, CatalogError>)
    ensures
        match r {
            Ok(v) => gunzip_of(b@) == Some(v@),
            Err(e) => gunzip_of(b@) is None && e == CatalogError::Format,
        },
{
    match gunzip(b) {
        Some(v) => Ok(v),
        None => Err(CatalogError::Format),
    }
}

/// The idempotent fast path of a catalog load: a catalog whose store
/// sequence is already non-empty reports its current count at once and is
/// not fetched again.
pub fn load_fast_path(store: &CatalogStore, id: &str) -> (r: Option<usize>)
    requires
        store.wf(),
    ensures
        match r {
            Some(c) => store.spec_entries_of(id@).len() == c && c > 0,
            None => store.spec_entries_of(id@).len() == 0,
        },
{
    let c = store.count(id);
    if c > 0 {
        Some(c)
    } else {
        None
    }
}

/// `after` extends `before` append-only: every catalog sequence of
/// `before` is a prefix of the one `after` holds.
pub open spec fn store_extends(after: CatalogStore, before: CatalogStore) -> bool {
    forall|k: Seq<char>|
        #[trigger] before@.contains_key(k) ==> after@.contains_key(k) && after@[k].len()
            >= before@[k].len() && after@[k].subrange(0, before@[k].len() as int) == before@[k]
}

/// Appending a chunk's entries extends the store.
pub proof fn lemma_append_extends(
    before: CatalogStore,
    after: CatalogStore,
    id: Seq<char>,
    added: Seq<crate::entry::CatalogEntry>,
)
    requires
        after@ == before@.insert(id, before.spec_entries_of(id) + added),
    ensures
        store_extends(after, before),
{
    assert forall|k: Seq<char>| #[trigger] before@.contains_key(k) implies after@.contains_key(k)
        && after@[k].len() >= before@[k].len() && after@[k].subrange(
        0,
        before@[k].len() as int,
    ) == before@[k] by {
        if k == id {
            assert(after@[k] == before@[k] + added);
            assert(after@[k].subrange(0, before@[k].len() as int) =~= before@[k]);
        } else {
            assert(after@[k] == before@[k]);
            assert(after@[k].subrange(0, before@[k].len() as int) =~= before@[k]);
        }
    }
}

/// Extension is transitive: a run of appends extends the starting store.
pub proof fn lemma_extends_transitive(c: CatalogStore, b: CatalogStore, a: CatalogStore)
    requires
        store_extends(b, a),
        store_extends(c, b),
    ensures
        store_extends(c, a),
{
    assert forall|k: Seq<char>| #[trigger] a@.contains_key(k) implies c@.contains_key(k)
        && c@[k].len() >= a@[k].len() && c@[k].subrange(0, a@[k].len() as int) == a@[k] by {
        assert(b@.contains_key(k) && b@[k].len() >= a@[k].len() && b@[k].subrange(
            0,
            a@[k].len() as int,
        ) == a@[k]);
        assert(c@[k].subrange(0, b@[k].len() as int) == b@[k]);
        assert(c@[k].subrange(0, a@[k].len() as int) =~= c@[k].subrange(
            0,
            b@[k].len() as int,
        ).subrange(0, a@[k].len() as int));
    }
}

/// Two loads in immediate succession return non-decreasing counts: between
/// the calls the store can only have grown by appended chunks, so the count
/// the second load observes for any catalog id is at least the first's.
pub proof fn lemma_load_counts_monotonic(before: CatalogStore, after: CatalogStore, id: Seq<char>)
    requires
        store_extends(after, before),
    ensures
        after.spec_entries_of(id).len() >= before.spec_entries_of(id).len(),
{
    if before@.contains_key(id) {
        assert(after@[id].len() >= before@[id].len());
    }
}

} // verus!
