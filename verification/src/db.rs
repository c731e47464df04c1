//! The persistent store: a typed wrapper over an embedded ordered key-value
//! database. The store's abstract state is the map from byte keys to the byte
//! values held under them; every operation's contract is stated over that map.

use vstd::prelude::*;

verus! {

use crate::codec::Codec;

/// A store key: the raw bytes of the record id string.
pub open spec fn key_of(s: Seq<char>) -> Seq<u8> {
    vstd::utf8::encode_utf8(s)
}

// ---------------------------------------------------------------------------
// The trusted boundary around the embedded database (sled)
// ---------------------------------------------------------------------------

#[verifier::external_type_specification]
#[verifier::external_body]
pub struct ExSledError(sled::Error);

/// The typed persistence layer over the embedded database (sled). The handle
/// itself is opaque; its abstract value is the map of byte keys to stored
/// byte values, and typed operations encode and decode through a `Codec`.
#[verifier::external_body]
pub struct Db {
    inner: sled::Db,
}

/// The logical contents of a database handle: the byte value held under each
/// byte key.
pub uninterp spec fn db_kv(d: Db) -> Map<Seq<u8>, Seq<u8>>;

/// Relies on sled::open: opens or creates the on-disk database at `path`.
/// The contents of an opened database depend on what is on disk, so nothing
/// is stated about them.
#[verifier::external_body]
fn sled_open(path: &str) -> Result<Db, sled::Error> {
    Ok(Db { inner: sled::open(path)? })
}

/// Relies on sled::Tree::insert (via the handle's default tree): on success
/// the tree maps `key` to `value` and no other key changes. A failed insert
/// errs either before any change (while still reading) or after the write
/// has fully applied, so the tree is then unchanged or holds exactly the new
/// entry: one key write is atomic, never partial.
#[verifier::external_body]
fn sled_insert(d: &mut Db, key: &[u8], value: Vec<u8>) -> (r: Result<(), sled::Error>)
    ensures
        r is Ok ==> db_kv(*final(d)) == db_kv(*old(d)).insert(key@, value@),
        r is Err ==> db_kv(*final(d)) == db_kv(*old(d)) || db_kv(*final(d)) == db_kv(
            *old(d),
        ).insert(key@, value@),
{
    match d.inner.insert(key, value) {
        Ok(_) => Ok(()),
        Err(e) => Err(e),
    }
}

/// Relies on sled::Tree::get: returns the value held under `key`, or `None`
/// exactly when the key is absent.
#[verifier::external_body]
fn sled_get(d: &Db, key: &[u8]) -> (r: Result<Option<Vec<u8>>, sled::Error>)
    ensures
        r matches Ok(Some(v)) ==> db_kv(*d).contains_key(key@) && v@ == db_kv(*d)[key@],
        r matches Ok(None) ==> !db_kv(*d).contains_key(key@),
{
    match d.inner.get(key) {
        Ok(Some(v)) => Ok(Some(v.to_vec())),
        Ok(None) => Ok(None),
        Err(e) => Err(e),
    }
}

/// Strict lexicographic order on byte sequences: the order of `Ord` on byte
/// slices and vectors, and the database's native key order.
pub open spec fn bytes_lt(a: Seq<u8>, b: Seq<u8>) -> bool
    decreases a.len(),
{
    if b.len() == 0 {
        false
    } else if a.len() == 0 {
        true
    } else if a[0] < b[0] {
        true
    } else if a[0] > b[0] {
        false
    } else {
        bytes_lt(a.drop_first(), b.drop_first())
    }
}

/// The keys stand in strictly ascending native (byte-lexicographic) order.
pub open spec fn keys_ascending(ks: Seq<Seq<u8>>) -> bool {
    forall|i: int, j: int| 0 <= i < j < ks.len() ==> bytes_lt(#[trigger] ks[i], #[trigger] ks[j])
}

/// What a full scan returns: the value under each key, each key once, keys in
/// strictly ascending native order.
pub open spec fn scan_ok(m: Map<Seq<u8>, Seq<u8>>, ks: Seq<Seq<u8>>, vs: Seq<Seq<u8>>) -> bool {
    &&& ks.no_duplicates()
    &&& keys_ascending(ks)
    &&& ks.len() == vs.len()
    &&& (forall|i: int| 0 <= i < ks.len() ==> m.contains_key(#[trigger] ks[i]) && vs[i] == m[ks[i]])
    &&& (forall|k: Seq<u8>| m.contains_key(k) ==> #[trigger] ks.contains(k))
}

/// Relies on sled::Tree::iter: yields every entry exactly once, keys in the
/// database's native order, which is ascending byte-lexicographic order (the
/// `Ord` of byte vectors); only the values are kept here.
#[verifier::external_body]
fn sled_values(d: &Db) -> (r: Result<Vec<Vec<u8>>, sled::Error>)
    ensures
        r matches Ok(vs) ==> exists|ks: Seq<Seq<u8>>| scan_ok(d@, ks, vs.deep_view()),
{
    let out: Result<Vec<Vec<u8>>, sled::Error> =
        d.inner.iter().map(|e| e.map(|(_, v)| v.to_vec())).collect();
    out
}

/// Relies on sled::Error's Display implementation for the human-readable
/// message carried in the store's own error.
#[verifier::external_body]
fn sled_error_message(e: &sled::Error) -> String {
    e.to_string()
}

// ---------------------------------------------------------------------------
// The store's own error
// ---------------------------------------------------------------------------

/// What can go wrong in the store. A missing key is not an error: lookups
/// report it as a successful absent result. No encoding error exists: the
/// codec is total, so every in-memory record can be written.
#[derive(Clone, Debug, PartialEq)]
pub enum DbError {
    /// Device, open, read or write failure in the underlying database,
    /// carrying the database's message.
    Io(String),
    /// A stored value did not decode as the requested record shape.
    Decode,
}

impl DbError {
    /// The message to surface to the caller of a failed operation.
    pub fn message(&self) -> (r: String)
        ensures
            self is Io ==> r@ == self->Io_0@,
            self is Decode ==> r@ == "stored value is malformed"@,
    {
        match self {
            DbError::Io(m) => m.clone(),
            DbError::Decode => "stored value is malformed".to_owned(),
        }
    }
}

// ---------------------------------------------------------------------------
// The typed store
// ---------------------------------------------------------------------------

impl View for Db {
    type V = Map<Seq<u8>, Seq<u8>>;

    open spec fn view(&self) -> Map<Seq<u8>, Seq<u8>> {
        db_kv(*self)
    }
}

/// What a successful `list` returns: the decodes of the smallest stored keys
/// in ascending native order — at most `limit` of them, and all stored
/// records when no limit cut the scan short. Every stored key outside the
/// returned prefix is greater than every key in it.
pub open spec fn list_ok<T: Codec>(
    m: Map<Seq<u8>, Seq<u8>>,
    ks: Seq<Seq<u8>>,
    out: Seq<T>,
    limit: Option<usize>,
) -> bool {
    &&& ks.no_duplicates()
    &&& keys_ascending(ks)
    &&& (forall|k: Seq<u8>|
        m.contains_key(k) && !ks.contains(k) ==> (forall|i: int|
            0 <= i < ks.len() ==> bytes_lt(#[trigger] ks[i], k)))
    &&& ks.len() == out.len()
    &&& (forall|i: int|
        0 <= i < ks.len() ==> m.contains_key(#[trigger] ks[i]) && T::spec_decode(m[ks[i]])
            == Some(out[i]@))
    &&& (limit matches Some(l) ==> out.len() <= l)
    &&& ((match limit {
        Some(l) => out.len() < l,
        None => true,
    }) ==> (forall|k: Seq<u8>| m.contains_key(k) ==> #[trigger] ks.contains(k)))
}

impl Db {
    /// Opens or creates the on-disk database at `path`.
    pub fn new(path: &str) -> (r: Result<Db, DbError>)
        ensures
            r matches Err(e) ==> e is Io,
    {
        match sled_open(path) {
            Ok(d) => Ok(d),
            Err(e) => Err(DbError::Io(sled_error_message(&e))),
        }
    }

    /// Encodes `value` and writes it under `key`, fully replacing any prior
    /// value: an upsert, never a merge. Even a failed write is never partial:
    /// the store is then unchanged, or holds exactly the new entry.
    pub fn set<T: Codec>(&mut self, key: &str, value: &T) -> (r: Result<(), DbError>)
        ensures
            r is Ok ==> final(self)@ == old(self)@.insert(key_of(key@), T::spec_encode(value@))
                && T::encodable(value@),
            r matches Err(e) ==> e is Io,
            r is Err ==> final(self)@ == old(self)@ || final(self)@ == old(self)@.insert(
                key_of(key@),
                T::spec_encode(value@),
            ),
    {
        let bytes = value.encode();
        match sled_insert(self, key.as_bytes(), bytes) {
            Ok(()) => Ok(()),
            Err(e) => Err(DbError::Io(sled_error_message(&e))),
        }
    }

    /// Writes raw bytes under `key`, bypassing the typed encoding. Byte-level
    /// import glue uses this; a typed read of the key decodes whatever was
    /// put here.
    pub fn set_raw(&mut self, key: &str, value: Vec<u8>) -> (r: Result<(), DbError>)
        ensures
            r is Ok ==> final(self)@ == old(self)@.insert(key_of(key@), value@),
            r matches Err(e) ==> e is Io,
            r is Err ==> final(self)@ == old(self)@ || final(self)@ == old(self)@.insert(
                key_of(key@),
                value@,
            ),
    {
        match sled_insert(self, key.as_bytes(), value) {
            Ok(()) => Ok(()),
            Err(e) => Err(DbError::Io(sled_error_message(&e))),
        }
    }

    /// Returns the decoded value under `key`, or `None` exactly when the key
    /// is absent. A present value that does not decode is a `Decode` error.
    pub fn get<T: Codec>(&self, key: &str) -> (r: Result<Option<T>, DbError>)
        ensures
            r matches Ok(Some(v)) ==> self@.contains_key(key_of(key@)) && T::spec_decode(
                self@[key_of(key@)],
            ) == Some(v@),
            r matches Ok(None) ==> !self@.contains_key(key_of(key@)),
            r matches Err(e) && e is Decode ==> self@.contains_key(key_of(key@)) && T::spec_decode(
                self@[key_of(key@)],
            ) is None,
            self@.contains_key(key_of(key@)) && T::spec_decode(self@[key_of(key@)]) is None ==> r
                is Err,
    {
        match sled_get(self, key.as_bytes()) {
            Err(e) => Err(DbError::Io(sled_error_message(&e))),
            Ok(None) => Ok(None),
            Ok(Some(bytes)) => match T::decode(bytes.as_slice()) {
                Some(v) => Ok(Some(v)),
                None => Err(DbError::Decode),
            },
        }
    }

    /// Decodes the stored values in the database's native (ascending byte)
    /// key order, stopping after `limit` entries if one is given, so that the
    /// result holds the records under the smallest at-most-`limit` keys. The
    /// call fails as a whole, with no partial result, if a scanned entry does
    /// not decode.
    pub fn list<T: Codec>(&self, limit: Option<usize>) -> (r: Result<Vec<T>, DbError>)
        ensures
            r matches Ok(out) ==> exists|ks: Seq<Seq<u8>>| list_ok::<T>(self@, ks, out@, limit),
            r matches Err(e) ==> e is Io || (e is Decode && exists|k: Seq<u8>|
                self@.contains_key(k) && T::spec_decode(#[trigger] self@[k]) is None),
            (limit is None && (exists|k: Seq<u8>|
                self@.contains_key(k) && T::spec_decode(#[trigger] self@[k]) is None)) ==> r is Err,
    {
        match sled_values(self) {
            Err(e) => Err(DbError::Io(sled_error_message(&e))),
            Ok(vals) => {
                let ghost ks = choose|ks: Seq<Seq<u8>>| scan_ok(self@, ks, vals.deep_view());
                decode_scan(vals, limit, Ghost(self@), Ghost(ks))
            },
        }
    }
}

/// Decodes the first `limit` scanned values (all of them with no limit);
/// fails as a whole on the first value that does not decode.
fn decode_scan<T: Codec>(
    vals: Vec<Vec<u8>>,
    limit: Option<usize>,
    Ghost(m): Ghost<Map<Seq<u8>, Seq<u8>>>,
    Ghost(ks): Ghost<Seq<Seq<u8>>>,
) -> (r: Result<Vec<T>, DbError>)
    requires
        scan_ok(m, ks, vals.deep_view()),
    ensures
        r matches Ok(out) ==> list_ok::<T>(m, ks.take(out@.len() as int), out@, limit),
        r matches Err(e) ==> e is Decode && (exists|k: Seq<u8>|
            m.contains_key(k) && T::spec_decode(#[trigger] m[k]) is None),
        (limit is None && (exists|k: Seq<u8>|
            m.contains_key(k) && T::spec_decode(#[trigger] m[k]) is None)) ==> r is Err,
{
    let max: usize = match limit {
        Some(l) => if l < vals.len() {
            l
        } else {
            vals.len()
        },
        None => vals.len(),
    };
    let mut out: Vec<T> = Vec::new();
    let mut i: usize = 0;
    while i < max
        invariant
            i <= max,
            max <= vals.len(),
            max == (match limit {
                Some(l) => if l < vals@.len() {
                    l as int
                } else {
                    vals@.len() as int
                },
                None => vals@.len() as int,
            }),
            out@.len() == i,
            scan_ok(m, ks, vals.deep_view()),
            forall|j: int|
                0 <= j < i ==> T::spec_decode(m[ks[j]]) == Some(#[trigger] out@[j]@),
        decreases max - i,
    {
        match T::decode(vals[i].as_slice()) {
            Some(v) => {
                assert(vals.deep_view()[i as int] == vals@[i as int]@);
                out.push(v);
            },
            None => {
                assert(vals.deep_view()[i as int] == vals@[i as int]@);
                assert(m.contains_key(ks[i as int]) && T::spec_decode(m[ks[i as int]]) is None);
                return Err(DbError::Decode);
            },
        }
        i = i + 1;
    }
    proof {
        let kpre = ks.take(max as int);
        assert(ks.len() == vals.deep_view().len());
        assert forall|a: int, b2: int|
            0 <= a < kpre.len() && 0 <= b2 < kpre.len() && a != b2 implies kpre[a] != kpre[b2] by {
            assert(ks[a] != ks[b2]);
        }
        assert(kpre.no_duplicates());
        assert forall|j: int| 0 <= j < kpre.len() implies m.contains_key(#[trigger] kpre[j])
            && T::spec_decode(m[kpre[j]]) == Some(out@[j]@) by {
            assert(kpre[j] == ks[j]);
            assert(m.contains_key(ks[j]));
        }
        assert forall|a: int, b2: int| 0 <= a < b2 < kpre.len() implies bytes_lt(
            #[trigger] kpre[a],
            #[trigger] kpre[b2],
        ) by {
            assert(bytes_lt(ks[a], ks[b2]));
        }
        assert(keys_ascending(kpre));
        assert forall|k: Seq<u8>| m.contains_key(k) && !kpre.contains(k) implies (forall|i: int|
            0 <= i < kpre.len() ==> bytes_lt(#[trigger] kpre[i], k)) by {
            assert(ks.contains(k));
            let j = choose|j: int| 0 <= j < ks.len() && ks[j] == k;
            if j < max {
                assert(kpre[j] == k);
                assert(kpre.contains(k));
            }
            assert forall|i: int| 0 <= i < kpre.len() implies bytes_lt(#[trigger] kpre[i], k) by {
                assert(bytes_lt(ks[i], ks[j]));
            }
        }
        if max == vals.len() {
            assert(kpre =~= ks);
            assert forall|k: Seq<u8>| m.contains_key(k) implies #[trigger] kpre.contains(k) by {
                assert(ks.contains(k));
            }
            assert forall|k: Seq<u8>| m.contains_key(k) implies !(T::spec_decode(
                #[trigger] m[k],
            ) is None) by {
                assert(ks.contains(k));
                let j = choose|j: int| 0 <= j < ks.len() && ks[j] == k;
                assert(T::spec_decode(m[ks[j]]) == Some(out@[j]@));
            }
        }
        assert(list_ok::<T>(m, kpre, out@, limit));
    }
    Ok(out)
}

// ---------------------------------------------------------------------------
// Store-level laws
// ---------------------------------------------------------------------------

/// Round trip: after writing an encodable value under a key, the store holds
/// that key, and reading it back decodes to exactly the value written.
pub proof fn lemma_set_get_round_trip<T: Codec>(m: Map<Seq<u8>, Seq<u8>>, k: Seq<u8>, v: T::V)
    requires
        T::encodable(v),
    ensures
        m.insert(k, T::spec_encode(v)).contains_key(k),
        T::spec_decode(m.insert(k, T::spec_encode(v))[k]) == Some(v),
{
    T::lemma_round_trip(v);
}

/// Upsert overwrite: a second write under the same key fully replaces the
/// first; no trace of the first value survives, and a read yields the second.
pub proof fn lemma_upsert_overwrite<T: Codec>(m: Map<Seq<u8>, Seq<u8>>, k: Seq<u8>, v1: T::V, v2: T::V)
    requires
        T::encodable(v2),
    ensures
        m.insert(k, T::spec_encode(v1)).insert(k, T::spec_encode(v2)) == m.insert(
            k,
            T::spec_encode(v2),
        ),
        T::spec_decode(m.insert(k, T::spec_encode(v1)).insert(k, T::spec_encode(v2))[k]) == Some(
            v2,
        ),
{
    assert(m.insert(k, T::spec_encode(v1)).insert(k, T::spec_encode(v2)) =~= m.insert(
        k,
        T::spec_encode(v2),
    ));
    T::lemma_round_trip(v2);
}

} // verus!
