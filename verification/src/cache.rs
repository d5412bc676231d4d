//! Content-hash cache keyed by path, invalidated by size and modification time.

use vstd::prelude::*;
use crate::assoc::{pairs_map, distinct_keys, lemma_pairs_lookup, pairs_position, pairs_insert};

verus! {

/// What is remembered about one file.
#[derive(Debug)]
pub struct CacheEntry {
    pub size: u64,
    pub mtime_secs: u64,
    pub blake3: String,
    pub phash: Option<u64>,
    pub preview_w: Option<u32>,
    pub preview_h: Option<u32>,
}

impl Clone for CacheEntry {
    fn clone(&self) -> (c: Self)
        ensures
            c == *self,
    {
        CacheEntry {
            size: self.size,
            mtime_secs: self.mtime_secs,
            blake3: self.blake3.clone(),
            phash: self.phash,
            preview_w: self.preview_w,
            preview_h: self.preview_h,
        }
    }
}

/// Cached hashes by path.
///
/// The entries are kept as `(path, entry)` pairs with no path twice, read as
/// a map through `pairs_map`. vstd specifies `HashMap` and `BTreeMap` only for
/// key types whose hashing or ordering it models (integers, `bool` and the
/// like); with a `String` key neither map's lookups or inserts come with a
/// usable contract, so a lookup after an insert could not be proved.
pub struct HashCache {
    entries: Vec<(String, CacheEntry)>,
}

impl View for HashCache {
    type V = Map<Seq<char>, CacheEntry>;

    closed spec fn view(&self) -> Map<Seq<char>, CacheEntry> {
        pairs_map(self.entries@)
    }
}

impl HashCache {
    #[verifier::type_invariant]
    closed spec fn inv(&self) -> bool {
        distinct_keys(self.entries@)
    }

    /// An empty cache.
    pub fn new() -> (c: Self)
        ensures
            c@ == Map::<Seq<char>, CacheEntry>::empty(),
    {
        HashCache { entries: Vec::new() }
    }

    /// The cached entry for `path` when it is still valid for a file of
    /// `size` bytes modified `mtime_secs` seconds after the epoch; a file
    /// whose time lies before the epoch (`None`) is never a hit.
    pub fn get_valid(&self, path: &str, size: u64, mtime_secs: Option<u64>) -> (r: Option<&CacheEntry>)
        ensures
            r is Some <==> valid_hit(self@, path@, size, mtime_secs),
            r matches Some(e) ==> *e == self@[path@],
    {
        proof {
            use_type_invariant(self);
            lemma_pairs_lookup(self.entries@, path@);
        }
        let m = match mtime_secs {
            Some(m) => m,
            None => {
                return None;
            },
        };
        let i = match pairs_position(&self.entries, path) {
            Some(i) => i,
            None => {
                return None;
            },
        };
        let entry = &self.entries[i].1;
        if entry.size == size && entry.mtime_secs == m {
            Some(entry)
        } else {
            None
        }
    }

    /// Remember `entry` for `path`, replacing any previous entry.
    pub fn insert(&mut self, path: &str, entry: CacheEntry)
        ensures
            final(self)@ == old(self)@.insert(path@, entry),
    {
        proof {
            use_type_invariant(&*self);
        }
        let mut es: Vec<(String, CacheEntry)> = Vec::new();
        std::mem::swap(&mut es, &mut self.entries);
        pairs_insert(&mut es, path, entry);
        self.entries = es;
    }

    /// The cached `(path, entry)` pairs, each path once.
    pub fn entries(&self) -> (v: &Vec<(String, CacheEntry)>)
        ensures
            distinct_keys(v@),
            pairs_map(v@) == self@,
    {
        proof {
            use_type_invariant(self);
        }
        &self.entries
    }
}


/// The 32-byte BLAKE3 digest of `data`.
pub uninterp spec fn blake3_digest(data: Seq<u8>) -> Seq<u8>;

/// `blake3::hash`: the BLAKE3 digest of `data` as its 32 bytes. The contract
/// names the digest and states its length; the hash function itself is not
/// described.
#[verifier::external_body]
fn blake3_hash(data: &[u8]) -> (d: Vec<u8>)
    ensures
        d@ == blake3_digest(data@),
        d@.len() == 32,
{
    blake3::hash(data).as_bytes().to_vec()
}

/// The lower-case hexadecimal digit for `n < 16`.
pub open spec fn hex_digit(n: u8) -> char {
    if n < 10 {
        ((n + 48) as u8) as char
    } else {
        ((n + 87) as u8) as char
    }
}

/// Lower-case hexadecimal encoding, two digits per byte, high nibble first.
pub open spec fn hex_lower(data: Seq<u8>) -> Seq<char>
    decreases data.len(),
{
    if data.len() == 0 {
        Seq::empty()
    } else {
        hex_lower(data.drop_last()) + seq![hex_digit(data.last() / 16), hex_digit(data.last() % 16)]
    }
}

fn hex_digit_char(n: u8) -> (c: char)
    requires
        n < 16,
    ensures
        c == hex_digit(n),
{
    if n < 10 {
        (n + 48) as char
    } else {
        (n + 87) as char
    }
}

/// Encode `data` as lower-case hexadecimal (`blake3::Hash::to_hex`).
pub fn to_hex_lower(data: &[u8]) -> (s: String)
    ensures
        s@ == hex_lower(data@),
        s@.len() == 2 * data@.len(),
{
    let mut s = String::new();
    let mut i: usize = 0;
    while i < data.len()
        invariant
            i <= data@.len(),
            s@ == hex_lower(data@.take(i as int)),
            s@.len() == 2 * i,
        decreases data.len() - i,
    {
        let b = data[i];
        s.push(hex_digit_char(b / 16));
        s.push(hex_digit_char(b % 16));
        proof {
            assert(data@.take(i + 1).drop_last() == data@.take(i as int));
        }
        i = i + 1;
    }
    proof {
        assert(data@.take(data@.len() as int) == data@);
    }
    s
}

/// The BLAKE3 digest of `data` in lower-case hexadecimal: 64 characters.
pub fn blake3_hex(data: &[u8]) -> (h: String)
    ensures
        h@ == hex_lower(blake3_digest(data@)),
        h@.len() == 64,
{
    let d = blake3_hash(data);
    to_hex_lower(d.as_slice())
}

/// What happens to the cache when a file is hashed afresh.
pub open spec fn fresh_entry(size: u64, mtime_secs: Option<u64>, hash: Seq<char>, e: CacheEntry) -> bool {
    &&& e.size == size
    &&& e.mtime_secs == match mtime_secs {
        Some(m) => m,
        None => 0,
    }
    &&& e.blake3@ == hash
    &&& e.phash is None
    &&& e.preview_w is None
    &&& e.preview_h is None
}

/// `m` holds an entry for `path` that is valid for a file of `size` bytes
/// modified `mtime` seconds after the epoch.
pub open spec fn valid_hit(m: Map<Seq<char>, CacheEntry>, path: Seq<char>, size: u64, mtime: Option<u64>) -> bool {
    mtime is Some && m.contains_key(path) && m[path].size == size && m[path].mtime_secs == mtime.unwrap()
}

/// How resolving `path` to `hash` takes the cache from `before` to `after`:
/// a valid entry answers and nothing changes; otherwise a fresh entry for
/// the new hash replaces whatever was there.
pub open spec fn resolved(
    before: Map<Seq<char>, CacheEntry>,
    after: Map<Seq<char>, CacheEntry>,
    path: Seq<char>,
    size: u64,
    mtime: Option<u64>,
    hash: Seq<char>,
) -> bool {
    if valid_hit(before, path, size, mtime) {
        hash == before[path].blake3@ && after == before
    } else {
        after.contains_key(path) && fresh_entry(size, mtime, hash, after[path]) && after == before.insert(
            path,
            after[path],
        )
    }
}

/// A resolved hash is remembered: once a path of known modification time
/// has been resolved, looking it up again with the same size and time hits
/// and gives back the same hash, and no other path's entry has changed.
pub proof fn law_resolved_hash_is_remembered(
    before: Map<Seq<char>, CacheEntry>,
    after: Map<Seq<char>, CacheEntry>,
    path: Seq<char>,
    size: u64,
    mtime: Option<u64>,
    hash: Seq<char>,
    other: Seq<char>,
)
    requires
        resolved(before, after, path, size, mtime, hash),
        mtime is Some,
        other != path,
    ensures
        valid_hit(after, path, size, mtime),
        after[path].blake3@ == hash,
        after.contains_key(other) == before.contains_key(other),
        after.contains_key(other) ==> after[other] == before[other],
{
}

/// What is written is read back: after an entry is recorded for `path`, a
/// lookup with the entry's size and modification time finds exactly that
/// entry, and a lookup with another size or time misses.
pub proof fn law_recorded_entry_is_found(
    m: Map<Seq<char>, CacheEntry>,
    path: Seq<char>,
    e: CacheEntry,
    size: u64,
    mtime: u64,
)
    ensures
        valid_hit(m.insert(path, e), path, e.size, Some(e.mtime_secs)),
        m.insert(path, e)[path] == e,
        (size != e.size || mtime != e.mtime_secs) ==> !valid_hit(m.insert(path, e), path, size, Some(mtime)),
        !valid_hit(m.insert(path, e), path, e.size, None),
{
}

/// The content hash of `path`. `meta` reports the file's size and its
/// modification time in seconds since the epoch (`None` before the epoch);
/// `read` returns its bytes. A valid cache entry answers without reading;
/// otherwise the bytes are hashed and the cache records the result.
pub fn resolve_blake3<M, R>(cache: &mut HashCache, path: &str, meta: M, read: R) -> (r: Result<String, String>)
    where
        M: FnOnce() -> Result<(u64, Option<u64>), String>,
        R: FnOnce() -> Result<Vec<u8>, String>,
    requires
        meta.requires(()),
        read.requires(()),
    ensures
        r is Err ==> final(cache)@ == old(cache)@,
        r matches Err(e) ==> meta.ensures((), Err(e)) || exists|size: u64, mtime: Option<u64>|
            #![trigger meta.ensures((), Ok((size, mtime)))]
            meta.ensures((), Ok((size, mtime))) && !valid_hit(old(cache)@, path@, size, mtime) && read.ensures(
                (),
                Err(e),
            ),
        r matches Ok(h) ==> exists|size: u64, mtime: Option<u64>|
            #![trigger meta.ensures((), Ok((size, mtime)))]
            meta.ensures((), Ok((size, mtime))) && resolved(old(cache)@, final(cache)@, path@, size, mtime, h@) && (
            valid_hit(old(cache)@, path@, size, mtime) || exists|bytes: Vec<u8>|
                #![trigger read.ensures((), Ok(bytes))]
                read.ensures((), Ok(bytes)) && h@ == hex_lower(blake3_digest(bytes@))),
{
    let (size, mtime) = match meta() {
        Ok(m) => m,
        Err(e) => {
            return Err(e);
        },
    };
    if let Some(hit) = cache.get_valid(path, size, mtime) {
        return Ok(hit.blake3.clone());
    }
    let bytes = match read() {
        Ok(b) => b,
        Err(e) => {
            return Err(e);
        },
    };
    let hash = blake3_hex(bytes.as_slice());
    let mtime_secs = match mtime {
        Some(m) => m,
        None => 0,
    };
    let entry = CacheEntry {
        size,
        mtime_secs,
        blake3: hash.clone(),
        phash: None,
        preview_w: None,
        preview_h: None,
    };
    cache.insert(path, entry);
    Ok(hash)
}

impl HashCache {
    /// A cache holding the given pairs; a path listed twice keeps its last entry.
    pub fn from_entries(pairs: Vec<(String, CacheEntry)>) -> (c: Self)
        ensures
            c@ == pairs_map(pairs@),
    {
        let mut c = HashCache::new();
        let mut i: usize = 0;
        while i < pairs.len()
            invariant
                i <= pairs@.len(),
                c@ == pairs_map(pairs@.take(i as int)),
            decreases pairs.len() - i,
        {
            c.insert(pairs[i].0.as_str(), pairs[i].1.clone());
            proof {
                assert(pairs@.take(i + 1).drop_last() == pairs@.take(i as int));
            }
            i = i + 1;
        }
        proof {
            assert(pairs@.take(pairs@.len() as int) == pairs@);
        }
        c
    }
}

} // verus!
