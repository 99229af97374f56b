//! The chunk store: persistence of decompressed catalog chunks under their
//! content-addressed key. A chunk's entries are framed into a length-prefixed
//! byte form whose decoder inverts the encoder exactly; absence or corruption
//! of a blob reads back as a cache miss, never as an error.
use vstd::prelude::*;

use vstd::bytes::{
    lemma_auto_spec_u64_to_from_le_bytes, spec_u64_from_le_bytes, spec_u64_to_le_bytes,
    u64_from_le_bytes, u64_to_le_bytes,
};
use vstd::slice::slice_subrange;
use vstd::string::StrSliceExecFns;
use vstd::utf8::{decode_utf8, encode_utf8, valid_utf8};

use crate::assoc::AssocList;
use crate::entry::CatalogEntry;

verus! {

/// The fields of a catalog entry as plain values.
pub open spec fn entry_view(e: CatalogEntry) -> (Seq<char>, Seq<char>, u64, i64, Seq<char>) {
    (e.name@, e.full_name@, e.downloads, e.rating, e.date_updated@)
}

/// The views of a sequence of entries.
pub open spec fn entry_views(es: Seq<CatalogEntry>) -> Seq<(Seq<char>, Seq<char>, u64, i64, Seq<char>)> {
    es.map_values(|e: CatalogEntry| entry_view(e))
}

/// A `u64` in little-endian bytes.
pub open spec fn enc_u64(x: u64) -> Seq<u8> {
    spec_u64_to_le_bytes(x)
}

/// A string: its UTF-8 byte length as a `u64`, then its UTF-8 bytes.
pub open spec fn enc_str(s: Seq<char>) -> Seq<u8> {
    enc_u64(encode_utf8(s).len() as u64) + encode_utf8(s)
}

/// One entry: name, qualified name, downloads, rating, update timestamp.
pub open spec fn enc_entry(e: CatalogEntry) -> Seq<u8> {
    enc_str(e.name@) + enc_str(e.full_name@) + enc_u64(e.downloads) + enc_u64(e.rating as u64)
        + enc_str(e.date_updated@)
}

/// A list of entries, first entry first.
pub open spec fn enc_list(es: Seq<CatalogEntry>) -> Seq<u8>
    decreases es.len(),
{
    if es.len() == 0 {
        Seq::empty()
    } else {
        enc_entry(es[0]) + enc_list(es.skip(1))
    }
}

/// A chunk blob: the entry count, then the entries.
pub open spec fn spec_encode(es: Seq<CatalogEntry>) -> Seq<u8> {
    enc_u64(es.len() as u64) + enc_list(es)
}

/// Reads a `u64` off the front.
pub open spec fn dec_u64(b: Seq<u8>) -> Option<(u64, Seq<u8>)> {
    if b.len() >= 8 {
        Some((spec_u64_from_le_bytes(b.subrange(0, 8)), b.skip(8)))
    } else {
        None
    }
}

/// Reads a length-prefixed UTF-8 string off the front.
pub open spec fn dec_str(b: Seq<u8>) -> Option<(Seq<char>, Seq<u8>)> {
    match dec_u64(b) {
        None => None,
        Some((n, rest)) => if rest.len() >= n {
            let bs = rest.subrange(0, n as int);
            if valid_utf8(bs) {
                Some((decode_utf8(bs), rest.skip(n as int)))
            } else {
                None
            }
        } else {
            None
        },
    }
}

/// Reads one entry's fields off the front.
pub open spec fn dec_entry(b: Seq<u8>) -> Option<
    ((Seq<char>, Seq<char>, u64, i64, Seq<char>), Seq<u8>),
> {
    match dec_str(b) {
        None => None,
        Some((name, b1)) => match dec_str(b1) {
            None => None,
            Some((full, b2)) => match dec_u64(b2) {
                None => None,
                Some((downloads, b3)) => match dec_u64(b3) {
                    None => None,
                    Some((rating, b4)) => match dec_str(b4) {
                        None => None,
                        Some((date, b5)) => Some(
                            ((name, full, downloads, rating as i64, date), b5),
                        ),
                    },
                },
            },
        },
    }
}

/// Reads `n` entries off the front.
pub open spec fn dec_n(b: Seq<u8>, n: nat) -> Option<
    (Seq<(Seq<char>, Seq<char>, u64, i64, Seq<char>)>, Seq<u8>),
>
    decreases n,
{
    if n == 0 {
        Some((Seq::empty(), b))
    } else {
        match dec_entry(b) {
            None => None,
            Some((ev, rest)) => match dec_n(rest, (n - 1) as nat) {
                None => None,
                Some((evs, rest2)) => Some((seq![ev] + evs, rest2)),
            },
        }
    }
}

/// What a chunk blob decodes to: the advertised number of entries, with
/// nothing left over; anything else is corruption.
pub open spec fn spec_decode(b: Seq<u8>) -> Option<
    Seq<(Seq<char>, Seq<char>, u64, i64, Seq<char>)>,
> {
    match dec_u64(b) {
        None => None,
        Some((n, rest)) => match dec_n(rest, n as nat) {
            None => None,
            Some((evs, rest2)) => if rest2.len() == 0 {
                Some(evs)
            } else {
                None
            },
        },
    }
}

/// Appends the little-endian bytes of `x`.
fn put_u64(out: &mut Vec<u8>, x: u64)
    ensures
        final(out)@ == old(out)@ + enc_u64(x),
{
    let mut b = u64_to_le_bytes(x);
    out.append(&mut b);
}

/// Appends the length-prefixed UTF-8 bytes of `s`.
fn put_str(out: &mut Vec<u8>, s: &String)
    ensures
        final(out)@ == old(out)@ + enc_str(s@),
        encode_utf8(s@).len() <= usize::MAX,
{
    let bytes = s.as_str().as_bytes_vec();
    put_u64(out, bytes.len() as u64);
    let mut bytes = bytes;
    let ghost mid = out@;
    out.append(&mut bytes);
    proof {
        assert(out@ =~= old(out)@ + enc_str(s@));
    }
}

/// Encodes a chunk's entries into the framed byte form.
pub fn encode_entries(es: &Vec<CatalogEntry>) -> (r: Vec<u8>)
    ensures
        r@ == spec_encode(es@),
        spec_decode(r@) == Some(entry_views(es@)),
{
    let mut out: Vec<u8> = Vec::new();
    put_u64(&mut out, es.len() as u64);
    let mut i: usize = 0;
    while i < es.len()
        invariant
            0 <= i <= es@.len(),
            out@ == enc_u64(es@.len() as u64) + enc_list(es@.subrange(0, i as int)),
            forall|t: int| 0 <= t < i ==> entry_enc_ok(#[trigger] es@[t]),
        decreases es@.len() - i,
    {
        let e = &es[i];
        put_str(&mut out, &e.name);
        put_str(&mut out, &e.full_name);
        put_u64(&mut out, e.downloads);
        put_u64(&mut out, e.rating as u64);
        put_str(&mut out, &e.date_updated);
        proof {
            lemma_enc_list_push(es@.subrange(0, i as int), es@[i as int]);
            assert(es@.subrange(0, i as int).push(es@[i as int]) =~= es@.subrange(0, i + 1));
            assert(out@ =~= enc_u64(es@.len() as u64) + enc_list(es@.subrange(0, i + 1)));
            assert(entry_enc_ok(es@[i as int]));
        }
        i += 1;
    }
    proof {
        assert(es@.subrange(0, es@.len() as int) =~= es@);
        lemma_encode_decode(es@);
    }
    out
}

/// The string fields of `e` encode within the length prefix's range; every
/// entry held in memory does.
pub open spec fn entry_enc_ok(e: CatalogEntry) -> bool {
    encode_utf8(e.name@).len() <= u64::MAX && encode_utf8(e.full_name@).len() <= u64::MAX
        && encode_utf8(e.date_updated@).len() <= u64::MAX
}

/// Appending one entry to a list appends its encoding to the list's.
proof fn lemma_enc_list_push(es: Seq<CatalogEntry>, e: CatalogEntry)
    ensures
        enc_list(es.push(e)) == enc_list(es) + enc_entry(e),
    decreases es.len(),
{
    if es.len() == 0 {
        assert(es.push(e)[0] == e);
        assert(es.push(e).skip(1) =~= es);
        assert(enc_list(es.push(e)) == enc_entry(e) + enc_list(es));
        assert(enc_list(es.push(e)) =~= enc_list(es) + enc_entry(e));
    } else {
        assert(es.push(e)[0] == es[0]);
        assert(es.push(e).skip(1) =~= es.skip(1).push(e));
        lemma_enc_list_push(es.skip(1), e);
        assert(enc_list(es.push(e)) == enc_entry(es[0]) + (enc_list(es.skip(1)) + enc_entry(e)));
        assert(enc_entry(es[0]) + (enc_list(es.skip(1)) + enc_entry(e)) =~= (enc_entry(es[0])
            + enc_list(es.skip(1))) + enc_entry(e));
    }
}

/// Relies on `String::from_utf8`: succeeds exactly on valid UTF-8, giving
/// the decoded characters.
#[verifier::external_body]
fn string_from_utf8(b: Vec<u8>) -> (r: Option<String>)
    ensures
        match r {
            Some(s) => valid_utf8(b@) && s@ == decode_utf8(b@),
            None => !valid_utf8(b@),
        },
{
    String::from_utf8(b).ok()
}

/// Reads a `u64` at `off`.
fn read_u64(b: &Vec<u8>, off: usize) -> (r: Option<(u64, usize)>)
    requires
        off <= b@.len(),
    ensures
        match r {
            Some((x, no)) => off <= no <= b@.len() && dec_u64(b@.skip(off as int)) == Some(
                (x, b@.skip(no as int)),
            ),
            None => dec_u64(b@.skip(off as int)) is None,
        },
{
    if b.len() - off >= 8 {
        let s = slice_subrange(b.as_slice(), off, off + 8);
        let x = u64_from_le_bytes(s);
        proof {
            assert(b@.skip(off as int).subrange(0, 8) =~= b@.subrange(off as int, off + 8));
            assert(b@.skip(off as int).skip(8) =~= b@.skip(off + 8));
        }
        Some((x, off + 8))
    } else {
        None
    }
}

/// Reads a length-prefixed string at `off`.
fn read_str(b: &Vec<u8>, off: usize) -> (r: Option<(String, usize)>)
    requires
        off <= b@.len(),
    ensures
        match r {
            Some((s, no)) => off <= no <= b@.len() && dec_str(b@.skip(off as int)) == Some(
                (s@, b@.skip(no as int)),
            ),
            None => dec_str(b@.skip(off as int)) is None,
        },
{
    let (n, off1) = match read_u64(b, off) {
        Some(p) => p,
        None => {
            return None;
        },
    };
    if n > (b.len() - off1) as u64 {
        proof {
            assert(b@.skip(off1 as int).len() < n);
        }
        return None;
    }
    let end = off1 + (n as usize);
    let bytes = vstd::slice::slice_to_vec(slice_subrange(b.as_slice(), off1, end));
    proof {
        assert(bytes@ =~= b@.skip(off1 as int).subrange(0, n as int));
    }
    match string_from_utf8(bytes) {
        Some(s) => {
            proof {
                assert(b@.skip(off1 as int).skip(n as int) =~= b@.skip(end as int));
            }
            Some((s, end))
        },
        None => None,
    }
}

/// Reads one entry at `off`.
fn read_entry(b: &Vec<u8>, off: usize) -> (r: Option<(CatalogEntry, usize)>)
    requires
        off <= b@.len(),
    ensures
        match r {
            Some((e, no)) => off <= no <= b@.len() && dec_entry(b@.skip(off as int)) == Some(
                (entry_view(e), b@.skip(no as int)),
            ),
            None => dec_entry(b@.skip(off as int)) is None,
        },
{
    let (name, o1) = match read_str(b, off) {
        Some(p) => p,
        None => {
            return None;
        },
    };
    let (full_name, o2) = match read_str(b, o1) {
        Some(p) => p,
        None => {
            return None;
        },
    };
    let (downloads, o3) = match read_u64(b, o2) {
        Some(p) => p,
        None => {
            return None;
        },
    };
    let (rating_bits, o4) = match read_u64(b, o3) {
        Some(p) => p,
        None => {
            return None;
        },
    };
    let (date_updated, o5) = match read_str(b, o4) {
        Some(p) => p,
        None => {
            return None;
        },
    };
    let e = CatalogEntry { name, full_name, downloads, rating: rating_bits as i64, date_updated };
    Some((e, o5))
}

/// Reads `n` entries at `off`.
fn read_n(b: &Vec<u8>, off: usize, n: u64) -> (r: Option<(Vec<CatalogEntry>, usize)>)
    requires
        off <= b@.len(),
    ensures
        match r {
            Some((v, no)) => off <= no <= b@.len() && dec_n(b@.skip(off as int), n as nat) == Some(
                (entry_views(v@), b@.skip(no as int)),
            ),
            None => dec_n(b@.skip(off as int), n as nat) is None,
        },
    decreases n,
{
    if n == 0 {
        let v: Vec<CatalogEntry> = Vec::new();
        proof {
            assert(entry_views(v@) =~= Seq::<(Seq<char>, Seq<char>, u64, i64, Seq<char>)>::empty());
        }
        Some((v, off))
    } else {
        let (e, o1) = match read_entry(b, off) {
            Some(p) => p,
            None => {
                return None;
            },
        };
        let (v, o2) = match read_n(b, o1, n - 1) {
            Some(p) => p,
            None => {
                return None;
            },
        };
        let mut v = v;
        let ghost tail_views = entry_views(v@);
        v.insert(0, e);
        proof {
            assert(entry_views(v@) =~= seq![entry_view(e)] + tail_views);
        }
        Some((v, o2))
    }
}

/// Decodes a chunk blob; `None` on any corruption.
pub fn decode_entries(b: &Vec<u8>) -> (r: Option<Vec<CatalogEntry>>)
    ensures
        match r {
            Some(v) => spec_decode(b@) == Some(entry_views(v@)),
            None => spec_decode(b@) is None,
        },
{
    proof {
        assert(b@.skip(0) =~= b@);
    }
    let (n, o1) = match read_u64(b, 0) {
        Some(p) => p,
        None => {
            return None;
        },
    };
    let (v, o2) = match read_n(b, o1, n) {
        Some(p) => p,
        None => {
            return None;
        },
    };
    if o2 == b.len() {
        proof {
            assert(b@.skip(o2 as int).len() == 0);
        }
        Some(v)
    } else {
        proof {
            assert(b@.skip(o2 as int).len() != 0);
        }
        None
    }
}

/// Reading a `u64` off its own encoding returns it and the rest.
proof fn lemma_dec_enc_u64(x: u64, rest: Seq<u8>)
    ensures
        dec_u64(enc_u64(x) + rest) == Some((x, rest)),
{
    lemma_auto_spec_u64_to_from_le_bytes();
    let b = enc_u64(x) + rest;
    assert(b.subrange(0, 8) =~= enc_u64(x));
    assert(b.skip(8) =~= rest);
}

/// Reading a string off its own encoding returns it and the rest.
proof fn lemma_dec_enc_str(sv: Seq<char>, rest: Seq<u8>)
    requires
        encode_utf8(sv).len() <= u64::MAX,
    ensures
        dec_str(enc_str(sv) + rest) == Some((sv, rest)),
{
    broadcast use vstd::utf8::encode_utf8_valid_utf8;
    broadcast use vstd::utf8::encode_utf8_decode_utf8;

    let bytes = encode_utf8(sv);
    let n = bytes.len() as u64;
    let b = enc_str(sv) + rest;
    assert(b =~= enc_u64(n) + (bytes + rest));
    lemma_dec_enc_u64(n, bytes + rest);
    assert((bytes + rest).subrange(0, n as int) =~= bytes);
    assert((bytes + rest).skip(n as int) =~= rest);
    assert(valid_utf8(bytes));
    assert(decode_utf8(encode_utf8(sv)) =~= sv);
}

/// Reading an entry off its own encoding returns its fields and the rest.
proof fn lemma_dec_enc_entry(e: CatalogEntry, rest: Seq<u8>)
    requires
        entry_enc_ok(e),
    ensures
        dec_entry(enc_entry(e) + rest) == Some((entry_view(e), rest)),
{
    let b1 = enc_str(e.full_name@) + (enc_u64(e.downloads) + (enc_u64(e.rating as u64) + (enc_str(
        e.date_updated@,
    ) + rest)));
    assert(enc_entry(e) + rest =~= enc_str(e.name@) + b1);
    lemma_dec_enc_str(e.name@, b1);
    let b2 = enc_u64(e.downloads) + (enc_u64(e.rating as u64) + (enc_str(e.date_updated@) + rest));
    lemma_dec_enc_str(e.full_name@, b2);
    let b3 = enc_u64(e.rating as u64) + (enc_str(e.date_updated@) + rest);
    lemma_dec_enc_u64(e.downloads, b3);
    let b4 = enc_str(e.date_updated@) + rest;
    lemma_dec_enc_u64(e.rating as u64, b4);
    lemma_dec_enc_str(e.date_updated@, rest);
    let rt = e.rating;
    assert((rt as u64) as i64 == rt) by (bit_vector);
}

/// Reading `n` entries off the encoding of an `n`-entry list returns their
/// fields and the rest.
proof fn lemma_dec_enc_list(es: Seq<CatalogEntry>, rest: Seq<u8>)
    requires
        forall|i: int| 0 <= i < es.len() ==> entry_enc_ok(#[trigger] es[i]),
    ensures
        dec_n(enc_list(es) + rest, es.len() as nat) == Some((entry_views(es), rest)),
    decreases es.len(),
{
    if es.len() == 0 {
        assert(enc_list(es) + rest =~= rest);
        assert(entry_views(es) =~= Seq::<(Seq<char>, Seq<char>, u64, i64, Seq<char>)>::empty());
    } else {
        let tail = es.skip(1);
        assert(enc_list(es) + rest =~= enc_entry(es[0]) + (enc_list(tail) + rest));
        lemma_dec_enc_entry(es[0], enc_list(tail) + rest);
        assert(forall|i: int| 0 <= i < tail.len() ==> entry_enc_ok(#[trigger] tail[i])) by {
            assert(forall|i: int| 0 <= i < tail.len() ==> tail[i] == es[i + 1]);
        }
        lemma_dec_enc_list(tail, rest);
        assert(entry_views(es) =~= seq![entry_view(es[0])] + entry_views(tail));
    }
}

/// The framed byte form decodes to exactly the entries it was built from:
/// a saved chunk reads back byte for byte.
pub proof fn lemma_encode_decode(es: Seq<CatalogEntry>)
    requires
        es.len() <= u64::MAX,
        forall|i: int| 0 <= i < es.len() ==> entry_enc_ok(#[trigger] es[i]),
    ensures
        spec_decode(spec_encode(es)) == Some(entry_views(es)),
{
    let n = es.len() as u64;
    lemma_dec_enc_u64(n, enc_list(es) + Seq::empty());
    assert(spec_encode(es) =~= enc_u64(n) + (enc_list(es) + Seq::<u8>::empty()));
    lemma_dec_enc_list(es, Seq::empty());
}

/// A separator `/sha256/` begins at position `i` of `s`.
pub open spec fn sep_at(s: Seq<char>, i: int) -> bool {
    0 <= i && i + 8 <= s.len() && s.subrange(i, i + 8) == "/sha256/"@
}

/// The first separator position at or after `i`.
pub open spec fn find_sep(s: Seq<char>, i: int) -> Option<int>
    decreases s.len() - i,
{
    if i < 0 || i + 8 > s.len() {
        None
    } else if sep_at(s, i) {
        Some(i)
    } else {
        find_sep(s, i + 1)
    }
}

/// The first `.` of `s` at or after `i`, or the end.
pub open spec fn dot_or_end(s: Seq<char>, i: int) -> int
    decreases s.len() - i,
{
    if i < 0 || i >= s.len() {
        s.len() as int
    } else if s[i] == '.' {
        i
    } else {
        dot_or_end(s, i + 1)
    }
}

/// The content-hash key a chunk locator embeds: the segment between the
/// first `/sha256/` and the next one (or the end), cut at its first `.`.
/// A locator without the separator has no key.
pub open spec fn spec_chunk_key(url: Seq<char>) -> Option<Seq<char>> {
    match find_sep(url, 0) {
        None => None,
        Some(i) => {
            let start = i + 8;
            let end = match find_sep(url, start) {
                Some(j) => j,
                None => url.len() as int,
            };
            let cut = dot_or_end(url, start);
            Some(url.subrange(start, if cut < end { cut } else { end }))
        },
    }
}

/// Finds the first `/sha256/` at or after `from`.
fn find_sep_from(url: &str, from: usize) -> (r: Option<usize>)
    requires
        from <= url@.len(),
        url@.len() <= usize::MAX,
    ensures
        match r {
            Some(i) => find_sep(url@, from as int) == Some(i as int) && from <= i && i + 8
                <= url@.len(),
            None => find_sep(url@, from as int) is None,
        },
{
    let n = url.unicode_len();
    let mut i: usize = from;
    if n < 8 {
        proof {
            assert(find_sep(url@, from as int) is None);
        }
        return None;
    }
    while i <= n - 8
        invariant
            n == url@.len(),
            n <= usize::MAX,
            8 <= n,
            from <= i,
            i <= n,
            find_sep(url@, from as int) == find_sep(url@, i as int),
        decreases n - i,
    {
        let hit = crate::text::str_matches_at(url, "/sha256/", i);
        proof {
            reveal_strlit("/sha256/");
            assert("/sha256/"@.len() == 8);
            assert(hit == sep_at(url@, i as int));
        }
        if hit {
            return Some(i);
        }
        i += 1;
    }
    None
}

/// Finds the first `.` at or after `from`, or the length.
fn dot_or_end_from(url: &str, from: usize) -> (r: usize)
    requires
        from <= url@.len(),
        url@.len() <= usize::MAX,
    ensures
        r == dot_or_end(url@, from as int),
        from <= r <= url@.len(),
{
    let n = url.unicode_len();
    let mut i: usize = from;
    while i < n
        invariant
            n == url@.len(),
            from <= i <= n,
            dot_or_end(url@, from as int) == dot_or_end(url@, i as int),
        decreases n - i,
    {
        if url.get_char(i) == '.' {
            return i;
        }
        i += 1;
    }
    n
}

/// Extracts the content-hash cache key from a chunk locator.
pub fn chunk_key(url: &str) -> (r: Option<String>)
    ensures
        match r {
            Some(k) => spec_chunk_key(url@) == Some(k@),
            None => spec_chunk_key(url@) is None,
        },
{
    let n = url.unicode_len();
    let i = match find_sep_from(url, 0) {
        Some(i) => i,
        None => {
            return None;
        },
    };
    let start = i + 8;
    let end = match find_sep_from(url, start) {
        Some(j) => j,
        None => n,
    };
    let cut = dot_or_end_from(url, start);
    let stop = if cut < end {
        cut
    } else {
        end
    };
    Some(url.substring_char(start, stop).to_owned())
}

/// The on-disk chunk cache, modeled: one blob per content-hash key, holding
/// a chunk's entries in the framed byte form. Saving is keyed by the hash a
/// locator embeds; loading anything absent or corrupt is a miss.
pub struct ChunkStore {
    blobs: AssocList<Vec<u8>>,
}

impl ChunkStore {
    /// The mapping from content-hash key to stored blob.
    pub closed spec fn view(&self) -> Map<Seq<char>, Seq<u8>> {
        self.blobs@
    }

    /// The well-formedness the store maintains.
    pub closed spec fn wf(&self) -> bool {
        self.blobs.wf()
    }

    /// An empty chunk store.
    pub fn new() -> (r: Self)
        ensures
            r@ == Map::<Seq<char>, Seq<u8>>::empty(),
            r.wf(),
    {
        ChunkStore { blobs: AssocList::new() }
    }

    /// Persists a chunk's entries under its locator's embedded hash; a
    /// locator without a hash is ignored (saving is best effort).
    pub fn save(&mut self, url: &str, entries: &Vec<CatalogEntry>)
        requires
            old(self).wf(),
        ensures
            final(self).wf(),
            match spec_chunk_key(url@) {
                Some(k) => final(self)@ == old(self)@.insert(k, spec_encode(entries@))
                    && spec_decode(final(self)@[k]) == Some(entry_views(entries@)),
                None => final(self)@ == old(self)@,
            },
    {
        let key = match chunk_key(url) {
            Some(k) => k,
            None => {
                return ;
            },
        };
        let blob = encode_entries(entries);
        let _ = self.blobs.take(key.as_str());
        self.blobs.put(key, blob);
        proof {
            assert(self@ =~= old(self)@.insert(key@, spec_encode(entries@)));
        }
    }

    /// Reads the chunk stored under a locator's embedded hash; `None` (a
    /// cache miss, never an error) when the locator has no hash, nothing is
    /// stored, or the blob does not decode.
    pub fn load(&self, url: &str) -> (r: Option<Vec<CatalogEntry>>)
        requires
            self.wf(),
        ensures
            match spec_chunk_key(url@) {
                Some(k) => (match r {
                    Some(v) => self@.contains_key(k) && spec_decode(self@[k]) == Some(
                        entry_views(v@),
                    ),
                    None => !self@.contains_key(k) || spec_decode(self@[k]) is None,
                }),
                None => r is None,
            },
    {
        let key = match chunk_key(url) {
            Some(k) => k,
            None => {
                return None;
            },
        };
        match self.blobs.borrow_value(key.as_str()) {
            Some(blob) => decode_entries(blob),
            None => None,
        }
    }
}

/// A saved chunk loads back as exactly the entry sequence that was saved:
/// the framed form's decoder inverts its encoder on every entry list.
pub proof fn lemma_save_load_round_trip(
    store: Map<Seq<char>, Seq<u8>>,
    k: Seq<char>,
    es: Seq<CatalogEntry>,
)
    requires
        es.len() <= u64::MAX,
        forall|i: int| 0 <= i < es.len() ==> entry_enc_ok(#[trigger] es[i]),
    ensures
        store.insert(k, spec_encode(es)).contains_key(k),
        spec_decode(store.insert(k, spec_encode(es))[k]) == Some(entry_views(es)),
{
    lemma_encode_decode(es);
}

} // verus!
