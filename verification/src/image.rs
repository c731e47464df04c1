//! The record model: the `Image` entity, its creation input, and its stored
//! byte encoding.

use vstd::prelude::*;

verus! {

use vstd::bytes::spec_u64_to_le_bytes;
use crate::codec::{
    Codec,
    enc_opt_count,
    enc_opt_str,
    enc_str,
    enc_str_list,
    lemma_enc_str_list_push,
    lemma_parse_opt_count,
    lemma_parse_opt_str,
    lemma_parse_str,
    lemma_parse_str_list,
    lemma_parse_u64,
    opt_str_fits,
    parse_opt_count,
    parse_opt_str,
    parse_str,
    parse_str_list,
    parse_u64,
    push_opt_count,
    push_opt_str,
    push_str_field,
    push_u64,
    read_opt_count,
    read_opt_str,
    read_str_list,
    read_string,
    read_u64,
    str_fits,
    str_list_fits,
};

/// The abstract value of one catalog record.
pub struct ImageView {
    pub id: Seq<char>,
    pub tags: Seq<Seq<char>>,
    pub access_count: Option<i32>,
    pub access_date: Option<Seq<char>>,
    pub release_date: Option<Seq<char>>,
}

/// One catalog record: the unit of storage and of the query and mutation
/// operations. `id` is the store key; `tags` is an ordered list of labels;
/// `access_count` and `access_date` track the access mutation; `release_date`
/// is caller-supplied and never changed by the system.
#[derive(Clone, Debug, PartialEq)]
pub struct Image {
    pub id: String,
    pub tags: Vec<String>,
    pub access_count: Option<i32>,
    pub access_date: Option<String>,
    pub release_date: Option<String>,
}

impl View for Image {
    type V = ImageView;

    open spec fn view(&self) -> ImageView {
        ImageView {
            id: self.id@,
            tags: self.tags.deep_view(),
            access_count: self.access_count,
            access_date: self.access_date.deep_view(),
            release_date: self.release_date.deep_view(),
        }
    }
}

impl DeepView for Image {
    type V = ImageView;

    open spec fn deep_view(&self) -> ImageView {
        self.view()
    }
}

/// The abstract value of a creation input.
pub struct NewImageView {
    pub id: Seq<char>,
    pub tags: Option<Seq<Seq<char>>>,
    pub access_count: Option<i32>,
    pub access_date: Option<Seq<char>>,
    pub release_date: Option<Seq<char>>,
}

/// Creation input for a record: the same fields as `Image`, with the tag list
/// still optional.
#[derive(Clone, Debug, PartialEq)]
pub struct NewImage {
    pub id: String,
    pub tags: Option<Vec<String>>,
    pub access_count: Option<i32>,
    pub access_date: Option<String>,
    pub release_date: Option<String>,
}

impl View for NewImage {
    type V = NewImageView;

    open spec fn view(&self) -> NewImageView {
        NewImageView {
            id: self.id@,
            tags: self.tags.deep_view(),
            access_count: self.access_count,
            access_date: self.access_date.deep_view(),
            release_date: self.release_date.deep_view(),
        }
    }
}

/// The record that a creation input stands for: every field as given, with an
/// absent tag list defaulting to the empty list.
pub open spec fn image_of_new(n: NewImageView) -> ImageView {
    ImageView {
        id: n.id,
        tags: match n.tags {
            Some(t) => t,
            None => Seq::empty(),
        },
        access_count: n.access_count,
        access_date: n.access_date,
        release_date: n.release_date,
    }
}

impl Image {
    /// Converts creation input into a record; tags default to the empty list.
    pub fn from_new(new: NewImage) -> (r: Image)
        ensures
            r@ == image_of_new(new@),
    {
        let r = Image {
            id: new.id,
            tags: match new.tags {
                Some(t) => t,
                None => Vec::new(),
            },
            access_count: new.access_count,
            access_date: new.access_date,
            release_date: new.release_date,
        };
        proof {
            assert(r@.tags =~= image_of_new(new@).tags);
        }
        r
    }
}

// ---------------------------------------------------------------------------
// The stored encoding of a record
// ---------------------------------------------------------------------------

/// The version of the canonical record shape; the first byte of every stored
/// record, so that a later shape can be told apart from this one.
pub const RECORD_FORMAT: u8 = 1;

/// A record's bytes: the format version, the id, the tag count, the tags,
/// then the three optional fields.
pub open spec fn spec_encode_image(v: ImageView) -> Seq<u8> {
    seq![RECORD_FORMAT] + enc_str(v.id) + spec_u64_to_le_bytes(v.tags.len() as u64)
        + enc_str_list(v.tags) + enc_opt_count(v.access_count) + enc_opt_str(v.access_date)
        + enc_opt_str(v.release_date)
}

/// The record that a byte sequence stands for: the format version and the
/// fields in order, with nothing left over. Any other byte sequence is
/// malformed.
pub open spec fn spec_decode_image(b: Seq<u8>) -> Option<ImageView> {
    if b.len() < 1 || b[0] != RECORD_FORMAT {
        None
    } else {
        match parse_str(b.skip(1)) {
            None => None,
            Some((id, r1)) => match parse_u64(r1) {
                None => None,
                Some((n, r2)) => match parse_str_list(r2, n as nat) {
                    None => None,
                    Some((tags, r3)) => match parse_opt_count(r3) {
                        None => None,
                        Some((ac, r4)) => match parse_opt_str(r4) {
                            None => None,
                            Some((ad, r5)) => match parse_opt_str(r5) {
                                None => None,
                                Some((rd, r6)) => if r6.len() == 0 {
                                    Some(
                                        ImageView {
                                            id,
                                            tags,
                                            access_count: ac,
                                            access_date: ad,
                                            release_date: rd,
                                        },
                                    )
                                } else {
                                    None
                                },
                            },
                        },
                    },
                },
            },
        }
    }
}

/// Whether a record's strings and tag list are short enough for the
/// encoding's length prefixes; every record held in memory is.
pub open spec fn image_fits(v: ImageView) -> bool {
    &&& str_fits(v.id)
    &&& str_list_fits(v.tags)
    &&& opt_str_fits(v.access_date)
    &&& opt_str_fits(v.release_date)
}

pub proof fn lemma_image_round_trip(v: ImageView)
    requires
        image_fits(v),
    ensures
        spec_decode_image(spec_encode_image(v)) == Some(v),
{
    let a = enc_str(v.id);
    let b = spec_u64_to_le_bytes(v.tags.len() as u64);
    let c = enc_str_list(v.tags);
    let d = enc_opt_count(v.access_count);
    let e = enc_opt_str(v.access_date);
    let f = enc_opt_str(v.release_date);
    let whole = spec_encode_image(v);
    assert(whole[0] == RECORD_FORMAT);
    assert(whole.skip(1) =~= a + (b + (c + (d + (e + f)))));
    lemma_parse_str(v.id, b + (c + (d + (e + f))));
    lemma_parse_u64(v.tags.len() as u64, c + (d + (e + f)));
    lemma_parse_str_list(v.tags, d + (e + f));
    lemma_parse_opt_count(v.access_count, e + f);
    lemma_parse_opt_str(v.access_date, f);
    assert(f + Seq::<u8>::empty() =~= f);
    lemma_parse_opt_str(v.release_date, Seq::<u8>::empty());
}

impl Codec for Image {
    open spec fn spec_encode(v: ImageView) -> Seq<u8> {
        spec_encode_image(v)
    }

    open spec fn spec_decode(b: Seq<u8>) -> Option<ImageView> {
        spec_decode_image(b)
    }

    open spec fn encodable(v: ImageView) -> bool {
        image_fits(v)
    }

    proof fn lemma_round_trip(v: ImageView) {
        lemma_image_round_trip(v);
    }

    fn encode(&self) -> (r: Vec<u8>) {
        let mut out: Vec<u8> = Vec::new();
        let ghost tags_dv = self.tags.deep_view();
        out.push(RECORD_FORMAT);
        push_str_field(&mut out, self.id.as_str());
        let n = self.tags.len();
        push_u64(&mut out, n as u64);
        let ghost head = out@;
        assert(tags_dv.take(0) =~= Seq::<Seq<char>>::empty());
        assert(enc_str_list(Seq::<Seq<char>>::empty()) == Seq::<u8>::empty());
        assert(head + Seq::<u8>::empty() =~= head);
        let mut i: usize = 0;
        while i < n
            invariant
                i <= n,
                n == self.tags.len(),
                tags_dv == self.tags.deep_view(),
                out@ == head + enc_str_list(tags_dv.take(i as int)),
                forall|j: int| 0 <= j < i ==> str_fits(#[trigger] tags_dv[j]),
            decreases n - i,
        {
            let t = &self.tags[i];
            assert(t@ == tags_dv[i as int]);
            push_str_field(&mut out, t.as_str());
            proof {
                lemma_enc_str_list_push(tags_dv.take(i as int), tags_dv[i as int]);
                assert(tags_dv.take(i as int + 1) =~= tags_dv.take(i as int).push(
                    tags_dv[i as int],
                ));
                assert(out@ =~= head + enc_str_list(tags_dv.take(i as int + 1)));
            }
            i = i + 1;
        }
        assert(tags_dv.take(n as int) =~= tags_dv);
        push_opt_count(&mut out, self.access_count);
        push_opt_str(&mut out, &self.access_date);
        push_opt_str(&mut out, &self.release_date);
        proof {
            assert(out@ =~= spec_encode_image(self@));
        }
        out
    }

    fn decode(b: &[u8]) -> (r: Option<Image>) {
        if b.len() < 1 {
            return None;
        }
        let tag = *vstd::slice::slice_index_get(b, 0);
        if tag != RECORD_FORMAT {
            return None;
        }
        let (id, p1) = match read_string(b, 1) {
            Some(x) => x,
            None => {
                return None;
            },
        };
        let (n, p2) = match read_u64(b, p1) {
            Some(x) => x,
            None => {
                return None;
            },
        };
        let (tags, p3) = match read_str_list(b, p2, n) {
            Some(x) => x,
            None => {
                return None;
            },
        };
        let (ac, p4) = match read_opt_count(b, p3) {
            Some(x) => x,
            None => {
                return None;
            },
        };
        let (ad, p5) = match read_opt_str(b, p4) {
            Some(x) => x,
            None => {
                return None;
            },
        };
        let (rd, p6) = match read_opt_str(b, p5) {
            Some(x) => x,
            None => {
                return None;
            },
        };
        if p6 != b.len() {
            assert(b@.skip(p6 as int).len() > 0);
            return None;
        }
        assert(b@.skip(p6 as int).len() == 0);
        let img = Image { id, tags, access_count: ac, access_date: ad, release_date: rd };
        Some(img)
    }
}

} // verus!
