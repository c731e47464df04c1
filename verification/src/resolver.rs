//! The resolver layer: the query and mutation operations, each working
//! against a per-request context that holds the store handle.

use vstd::prelude::*;

verus! {

use crate::codec::Codec;
use crate::db::{Db, DbError, key_of, list_ok};
use crate::image::{Image, ImageView, NewImage, image_of_new, spec_decode_image};

/// The characters `from` (inclusive) to `to` (exclusive) are decimal digits.
pub open spec fn digits_at(s: Seq<char>, from: int, to: int) -> bool {
    forall|i: int| from <= i < to ==> '0' <= #[trigger] s[i] && s[i] <= '9'
}

/// The shape of an RFC 3339 UTC timestamp whose year segment is `y`
/// characters long: year, "-MM-DDTHH:MM:SS", an optional fraction of 3, 6 or
/// 9 digits, and the offset "+00:00".
pub open spec fn rfc3339_utc_shape_from(s: Seq<char>, y: int) -> bool {
    let f = s.len() - 21 - y;
    &&& (y == 4 && digits_at(s, 0, 4)) || (y >= 5 && s[0] == '+' && digits_at(s, 1, y))
    &&& s.len() >= y + 21
    &&& s[y] == '-' && digits_at(s, y + 1, y + 3)
    &&& s[y + 3] == '-' && digits_at(s, y + 4, y + 6)
    &&& s[y + 6] == 'T'
    &&& digits_at(s, y + 7, y + 9) && s[y + 9] == ':'
    &&& digits_at(s, y + 10, y + 12) && s[y + 12] == ':'
    &&& digits_at(s, y + 13, y + 15)
    &&& (f == 0 || ((f == 4 || f == 7 || f == 10) && s[y + 15] == '.' && digits_at(
        s,
        y + 16,
        s.len() - 6,
    )))
    &&& s.subrange(s.len() - 6, s.len() as int) == "+00:00"@
}

/// An RFC 3339 UTC timestamp with an optional fraction, as the access
/// mutation stamps it.
pub open spec fn rfc3339_utc_shape(s: Seq<char>) -> bool {
    exists|y: int| #[trigger] rfc3339_utc_shape_from(s, y)
}

/// Relies on chrono: Utc::now and the "%+" format item, which writes RFC 3339
/// with an automatic fraction (empty or 3, 6 or 9 digits) and the "+00:00"
/// offset; a year inside 0..=9999 prints as four digits, a later one with an
/// explicit sign. Every return is non-empty and has that shape.
#[verifier::external_body]
fn timestamp() -> (r: String)
    ensures
        r@.len() > 0,
        rfc3339_utc_shape(r@),
{
    chrono::Utc::now().format("%+").to_string()
}

/// Per-request bundle holding the store handle; resolvers run against it.
pub struct Context {
    pub db: Db,
}

impl Context {
    pub fn new(db: Db) -> (r: Context)
        ensures
            r.db == db,
    {
        Context { db }
    }
}

/// The records found for a sequence of requested ids: present ids contribute
/// their decoded record in request order, missing ids are skipped, and the
/// whole lookup is undefined (`None`) if any present record fails to decode.
pub open spec fn found_images(m: Map<Seq<u8>, Seq<u8>>, ids: Seq<Seq<char>>) -> Option<
    Seq<ImageView>,
>
    decreases ids.len(),
{
    if ids.len() == 0 {
        Some(Seq::empty())
    } else {
        match found_images(m, ids.drop_last()) {
            None => None,
            Some(front) => if !m.contains_key(key_of(ids.last())) {
                Some(front)
            } else {
                match spec_decode_image(m[key_of(ids.last())]) {
                    None => None,
                    Some(v) => Some(front.push(v)),
                }
            },
        }
    }
}

/// A single undecodable entry among the requested ids spoils the whole lookup.
proof fn lemma_found_images_bad(m: Map<Seq<u8>, Seq<u8>>, ids: Seq<Seq<char>>, i: int)
    requires
        0 <= i < ids.len(),
        m.contains_key(key_of(ids[i])),
        spec_decode_image(m[key_of(ids[i])]) is None,
    ensures
        found_images(m, ids) is None,
    decreases ids.len(),
{
    if i < ids.len() - 1 {
        lemma_found_images_bad(m, ids.drop_last(), i);
    }
}

/// The query root: read-only operations.
pub struct Query;

impl Query {
    /// Static API version identifier.
    pub fn version() -> (r: String)
        ensures
            r@ == "1.0"@,
    {
        "1.0".to_owned()
    }

    /// Looks up the records for the given ids (missing ids are silently
    /// skipped), or, when no ids are given, lists up to `limit` stored
    /// records in the store's native key order.
    pub fn images(ctx: &Context, ids: Option<Vec<String>>, limit: Option<usize>) -> (r: Result<
        Vec<Image>,
        DbError,
    >)
        ensures
            ids matches Some(l) ==> match r {
                Ok(out) => found_images(ctx.db@, l.deep_view()) == Some(out.deep_view()),
                Err(e) => e is Io || (e is Decode && found_images(ctx.db@, l.deep_view()) is None),
            },
            ids matches Some(l) && found_images(ctx.db@, l.deep_view()) is None ==> r is Err,
            ids is None ==> match r {
                Ok(out) => exists|ks: Seq<Seq<u8>>| list_ok::<Image>(ctx.db@, ks, out@, limit),
                Err(e) => e is Io || (e is Decode && exists|k: Seq<u8>|
                    ctx.db@.contains_key(k) && spec_decode_image(#[trigger] ctx.db@[k]) is None),
            },
            (ids is None && limit is None && (exists|k: Seq<u8>|
                ctx.db@.contains_key(k) && spec_decode_image(#[trigger] ctx.db@[k]) is None))
                ==> r is Err,
    {
        match ids {
            None => ctx.db.list::<Image>(limit),
            Some(list) => {
                let ghost m = ctx.db@;
                let ghost dv = list.deep_view();
                let mut out: Vec<Image> = Vec::new();
                let mut i: usize = 0;
                assert(dv.take(0) =~= Seq::<Seq<char>>::empty());
                assert(out.deep_view() =~= Seq::<ImageView>::empty());
                while i < list.len()
                    invariant
                        i <= list.len(),
                        ids == Some(list),
                        m == ctx.db@,
                        dv == list.deep_view(),
                        found_images(m, dv.take(i as int)) == Some(out.deep_view()),
                    decreases list.len() - i,
                {
                    assert(list[i as int]@ == dv[i as int]);
                    let ghost outdv = out.deep_view();
                    proof {
                        assert(dv.take(i as int + 1).drop_last() =~= dv.take(i as int));
                        assert(dv.take(i as int + 1).last() == dv[i as int]);
                    }
                    match ctx.db.get::<Image>(list[i].as_str()) {
                        Ok(Some(img)) => {
                            let ghost iv = img@;
                            out.push(img);
                            proof {
                                assert(out.deep_view() =~= outdv.push(iv));
                            }
                        },
                        Ok(None) => {
                        },
                        Err(e) => {
                            proof {
                                if e is Decode {
                                    lemma_found_images_bad(m, dv, i as int);
                                }
                            }
                            return Err(e);
                        },
                    }
                    i = i + 1;
                }
                proof {
                    assert(dv.take(list.len() as int) =~= dv);
                }
                Ok(out)
            },
        }
    }

    /// Direct lookup by id; an absent key is a successful empty result.
    pub fn image(ctx: &Context, id: String) -> (r: Result<Option<Image>, DbError>)
        ensures
            r matches Ok(Some(img)) ==> ctx.db@.contains_key(key_of(id@)) && spec_decode_image(
                ctx.db@[key_of(id@)],
            ) == Some(img@),
            r matches Ok(None) ==> !ctx.db@.contains_key(key_of(id@)),
            r matches Err(e) && e is Decode ==> ctx.db@.contains_key(key_of(id@))
                && spec_decode_image(ctx.db@[key_of(id@)]) is None,
            ctx.db@.contains_key(key_of(id@)) && spec_decode_image(ctx.db@[key_of(id@)]) is None
                ==> r is Err,
    {
        ctx.db.get::<Image>(id.as_str())
    }
}

/// How a record changes when it is accessed: the counter advances, the access
/// date takes the fresh timestamp, everything else is untouched.
pub open spec fn accessed(prev: ImageView, stamp: Seq<char>) -> ImageView {
    ImageView {
        access_count: Some(next_count(prev.access_count)),
        access_date: Some(stamp),
        ..prev
    }
}

/// The counter after one access: one more than the stored count, an absent
/// count standing for zero; it saturates at the counter type's maximum.
pub open spec fn next_count(c: Option<i32>) -> i32 {
    let cur = match c {
        None => 0,
        Some(n) => n,
    };
    if cur == i32::MAX {
        i32::MAX
    } else {
        (cur + 1) as i32
    }
}

/// Race bound for the access mutation. The mutation is a non-atomic
/// read-then-write, but each store write is a single atomic key write, so
/// when two accesses to one record run concurrently there are two possible
/// outcomes: the later writer read the earlier write, or it read the
/// original record and the earlier write is lost (last writer wins on the
/// whole record). Starting from a record whose count is absent or zero, the
/// first outcome ends with count 2 and the second with count 1 — never 0 and
/// never more than 2.
pub proof fn lemma_access_race_bound(v0: ImageView, s1: Seq<char>, s2: Seq<char>)
    requires
        v0.access_count is None || v0.access_count == Some(0i32),
    ensures
        accessed(accessed(v0, s1), s2).access_count == Some(2i32),
        accessed(v0, s2).access_count == Some(1i32),
{
}

/// The mutation root: operations that write to the store.
pub struct Mutation;

impl Mutation {
    /// Static API version identifier.
    #[allow(non_snake_case)]
    pub fn apiVersion() -> (r: String)
        ensures
            r@ == "1.0"@,
    {
        "1.0".to_owned()
    }

    /// Creates or fully replaces the record with the input's id: the fields
    /// are taken as given, tags defaulting to the empty list, and the prior
    /// value, if any, is gone entirely.
    pub fn image(ctx: &mut Context, image: NewImage) -> (r: Result<Image, DbError>)
        ensures
            r matches Ok(img) ==> img@ == image_of_new(image@) && Image::encodable(img@)
                && final(ctx).db@ == old(ctx).db@.insert(
                key_of(image@.id),
                Image::spec_encode(img@),
            ),
            r matches Err(e) ==> e is Io,
            r is Err ==> final(ctx).db@ == old(ctx).db@ || final(ctx).db@ == old(ctx).db@.insert(
                key_of(image@.id),
                Image::spec_encode(image_of_new(image@)),
            ),
    {
        let img = Image::from_new(image);
        match ctx.db.set(img.id.as_str(), &img) {
            Ok(()) => Ok(img),
            Err(e) => Err(e),
        }
    }

    /// Loads the record by id and, if present, advances its access counter,
    /// stamps the access date with the current time, and writes the whole
    /// record back. An absent id is a successful empty result with no side
    /// effect: no record is created.
    pub fn access(ctx: &mut Context, id: String) -> (r: Result<Option<Image>, DbError>)
        ensures
            r matches Ok(None) ==> !old(ctx).db@.contains_key(key_of(id@))
                && final(ctx).db@ == old(ctx).db@,
            r matches Ok(Some(img)) ==> ({
                let k = key_of(id@);
                let stored = spec_decode_image(old(ctx).db@[k]);
                &&& old(ctx).db@.contains_key(k)
                &&& stored is Some
                &&& img@.access_date is Some
                &&& img@.access_date->0.len() > 0
                &&& rfc3339_utc_shape(img@.access_date->0)
                &&& img@ == accessed(stored->0, img@.access_date->0)
                &&& Image::encodable(img@)
                &&& final(ctx).db@ == old(ctx).db@.insert(
                    key_of(img@.id),
                    Image::spec_encode(img@),
                )
            }),
            r matches Err(e) && e is Decode ==> old(ctx).db@.contains_key(key_of(id@))
                && spec_decode_image(old(ctx).db@[key_of(id@)]) is None
                && final(ctx).db@ == old(ctx).db@,
            r is Err && !old(ctx).db@.contains_key(key_of(id@)) ==> final(ctx).db@ == old(
                ctx,
            ).db@,
            (r is Err && old(ctx).db@.contains_key(key_of(id@)) && spec_decode_image(
                old(ctx).db@[key_of(id@)],
            ) is Some) ==> ({
                let stored = spec_decode_image(old(ctx).db@[key_of(id@)]);
                ||| final(ctx).db@ == old(ctx).db@
                ||| exists|s: Seq<char>|
                    s.len() > 0 && final(ctx).db@ == old(ctx).db@.insert(
                        key_of(stored->0.id),
                        Image::spec_encode(#[trigger] accessed(stored->0, s)),
                    )
            }),
    {
        match ctx.db.get::<Image>(id.as_str()) {
            Err(e) => Err(e),
            Ok(None) => Ok(None),
            Ok(Some(img)) => {
                let cur: i32 = match img.access_count {
                    Some(n) => n,
                    None => 0,
                };
                let nc: i32 = if cur == i32::MAX {
                    i32::MAX
                } else {
                    cur + 1
                };
                let stamp = timestamp();
                let img2 = Image {
                    id: img.id,
                    tags: img.tags,
                    access_count: Some(nc),
                    access_date: Some(stamp),
                    release_date: img.release_date,
                };
                let ghost stored0 = spec_decode_image(old(ctx).db@[key_of(id@)])->0;
                match ctx.db.set(img2.id.as_str(), &img2) {
                    Ok(()) => Ok(Some(img2)),
                    Err(e) => {
                        proof {
                            let s = img2@.access_date->0;
                            assert(img2@ == accessed(stored0, s));
                            assert(s.len() > 0);
                        }
                        Err(e)
                    },
                }
            },
        }
    }
}

} // verus!
