use std::time::{SystemTime, UNIX_EPOCH};

use keta::codec::Codec;
use keta::db::{Db, DbError};
use keta::image::{Image, NewImage};
use keta::resolver::{Context, Mutation, Query};

fn fresh_db(name: &str) -> Db {
    let nanos = SystemTime::now()
        .duration_since(UNIX_EPOCH)
        .unwrap()
        .as_nanos();
    let path = format!("/tmp/keta_test_{}_{}", name, nanos);
    Db::new(&path).unwrap()
}

fn sample_image(id: &str) -> Image {
    Image {
        id: id.to_string(),
        tags: vec!["a".to_string(), "b".to_string()],
        access_count: None,
        access_date: None,
        release_date: Some("2023-01-01".to_string()),
    }
}

#[test]
fn version_is_static() {
    assert_eq!(Query::version(), "1.0");
}

#[test]
fn api_version_is_static() {
    assert_eq!(Mutation::apiVersion(), "1.0");
}

#[test]
fn set_get_round_trip() {
    let mut db = fresh_db("round_trip");
    let img = Image {
        id: "img1".to_string(),
        tags: vec!["portrait".to_string(), "dark".to_string()],
        access_count: Some(5),
        access_date: Some("2023-05-06T07:08:09.123456789+00:00".to_string()),
        release_date: Some("2023-01-01".to_string()),
    };
    db.set("img1", &img).unwrap();
    let back: Option<Image> = db.get("img1").unwrap();
    assert_eq!(back, Some(img));
}

#[test]
fn upsert_overwrite_keeps_nothing() {
    let mut db = fresh_db("upsert");
    let v1 = Image {
        id: "img1".to_string(),
        tags: vec!["old".to_string()],
        access_count: Some(9),
        access_date: Some("2020-01-01T00:00:00+00:00".to_string()),
        release_date: Some("2019-12-31".to_string()),
    };
    let v2 = Image {
        id: "img1".to_string(),
        tags: vec![],
        access_count: None,
        access_date: None,
        release_date: None,
    };
    db.set("img1", &v1).unwrap();
    db.set("img1", &v2).unwrap();
    let back: Option<Image> = db.get("img1").unwrap();
    assert_eq!(back, Some(v2));
}

#[test]
fn access_increments_and_stamps() {
    let db = fresh_db("access");
    let mut ctx = Context::new(db);
    let new = NewImage {
        id: "img1".to_string(),
        tags: Some(vec!["a".to_string(), "b".to_string()]),
        access_count: None,
        access_date: None,
        release_date: Some("2023-01-01".to_string()),
    };
    Mutation::image(&mut ctx, new).unwrap();

    let first = Mutation::access(&mut ctx, "img1".to_string()).unwrap().unwrap();
    assert_eq!(first.access_count, Some(1));
    assert!(first.access_date.is_some());
    let stamp = first.access_date.as_ref().unwrap();
    assert!(!stamp.is_empty());
    assert!(stamp.ends_with("+00:00"), "UTC offset: {}", stamp);
    assert_eq!(stamp.as_bytes()[10], b'T', "date-time separator: {}", stamp);
    assert!(stamp.as_bytes()[..4].iter().all(u8::is_ascii_digit));
    assert_eq!(first.id, "img1");
    assert_eq!(first.tags, vec!["a".to_string(), "b".to_string()]);
    assert_eq!(first.release_date, Some("2023-01-01".to_string()));

    let second = Mutation::access(&mut ctx, "img1".to_string()).unwrap().unwrap();
    assert_eq!(second.access_count, Some(2));

    let stored: Option<Image> = ctx.db.get("img1").unwrap();
    assert_eq!(stored.unwrap().access_count, Some(2));
}

#[test]
fn access_missing_id_has_no_side_effect() {
    let db = fresh_db("access_missing");
    let mut ctx = Context::new(db);
    let got = Mutation::access(&mut ctx, "missing".to_string()).unwrap();
    assert!(got.is_none());
    let after: Option<Image> = ctx.db.get("missing").unwrap();
    assert!(after.is_none());
    assert_eq!(ctx.db.list::<Image>(None).unwrap().len(), 0);
}

#[test]
fn race_outcomes_simulated_sequentially() {
    // The access mutation is read-then-write; each of the two interleavings
    // of two accesses is replayed here step by step. Starting from count 0,
    // the final count is 1 (lost update) or 2 (serialized), never 0 or more.
    let db = fresh_db("race");
    let mut ctx = Context::new(db);
    let mut base = sample_image("img1");
    base.access_count = Some(0);
    ctx.db.set("img1", &base).unwrap();

    // Serialized: the second access reads the first one's write.
    Mutation::access(&mut ctx, "img1".to_string()).unwrap();
    Mutation::access(&mut ctx, "img1".to_string()).unwrap();
    let serialized: Image = ctx.db.get("img1").unwrap().unwrap();
    assert_eq!(serialized.access_count, Some(2));

    // Lost update: a stale writer read the original record (count 0) and
    // writes the whole record it computed, after the other access finished.
    ctx.db.set("img1", &base).unwrap();
    let stale_read = base.clone();
    Mutation::access(&mut ctx, "img1".to_string()).unwrap();
    let mut stale_write = stale_read;
    stale_write.access_count = Some(1);
    stale_write.access_date = Some("2023-06-01T00:00:00+00:00".to_string());
    ctx.db.set("img1", &stale_write).unwrap();
    let raced: Image = ctx.db.get("img1").unwrap().unwrap();
    assert_eq!(raced.access_count, Some(1));
}

#[test]
fn list_respects_limit() {
    let mut db = fresh_db("list_limit");
    db.set("a", &sample_image("a")).unwrap();
    db.set("b", &sample_image("b")).unwrap();
    db.set("c", &sample_image("c")).unwrap();
    let first = db.list::<Image>(Some(1)).unwrap();
    assert_eq!(first.len(), 1);
    assert_eq!(first[0].id, "a", "a limited list holds the smallest keys");
    let two = db.list::<Image>(Some(2)).unwrap();
    assert_eq!(two.len(), 2);
    assert_eq!(two[0].id, "a");
    assert_eq!(two[1].id, "b");
    let all = db.list::<Image>(None).unwrap();
    assert_eq!(all.len(), 3);
    let ids: Vec<&str> = all.iter().map(|img| img.id.as_str()).collect();
    assert_eq!(ids, vec!["a", "b", "c"], "native ascending key order");
    assert_eq!(db.list::<Image>(Some(10)).unwrap().len(), 3);
}

#[test]
fn list_fails_fast_on_malformed_entry() {
    let mut db = fresh_db("fail_fast");
    db.set("a", &sample_image("a")).unwrap();
    db.set("b", &sample_image("b")).unwrap();
    db.set_raw("zz", b"not a record".to_vec()).unwrap();
    let r = db.list::<Image>(None);
    assert_eq!(r, Err(DbError::Decode));
}

#[test]
fn get_malformed_entry_is_decode_error() {
    let mut db = fresh_db("get_decode");
    db.set_raw("bad", vec![0xff, 0x00, 0x17]).unwrap();
    let r: Result<Option<Image>, DbError> = db.get("bad");
    assert_eq!(r, Err(DbError::Decode));
    assert_eq!(DbError::Decode.message(), "stored value is malformed");
}

#[test]
fn open_on_bad_path_is_io_error() {
    let r = Db::new("/dev/null");
    match r {
        Err(DbError::Io(msg)) => assert!(!msg.is_empty()),
        other => panic!("expected an Io error, got {:?}", other.is_ok()),
    }
}

#[test]
fn images_by_ids_skips_missing() {
    let db = fresh_db("images_ids");
    let mut ctx = Context::new(db);
    ctx.db.set("img1", &sample_image("img1")).unwrap();
    ctx.db.set("img2", &sample_image("img2")).unwrap();
    let ids = vec![
        "img1".to_string(),
        "missing".to_string(),
        "img2".to_string(),
    ];
    let found = Query::images(&ctx, Some(ids), None).unwrap();
    assert_eq!(found.len(), 2);
    assert_eq!(found[0].id, "img1");
    assert_eq!(found[1].id, "img2");
}

#[test]
fn images_without_ids_lists_with_limit() {
    let db = fresh_db("images_list");
    let mut ctx = Context::new(db);
    ctx.db.set("a", &sample_image("a")).unwrap();
    ctx.db.set("b", &sample_image("b")).unwrap();
    assert_eq!(Query::images(&ctx, None, Some(1)).unwrap().len(), 1);
    assert_eq!(Query::images(&ctx, None, None).unwrap().len(), 2);
}

#[test]
fn query_image_finds_stored_record() {
    let db = fresh_db("query_image");
    let mut ctx = Context::new(db);
    ctx.db.set("img1", &sample_image("img1")).unwrap();
    let got = Query::image(&ctx, "img1".to_string()).unwrap();
    assert_eq!(got, Some(sample_image("img1")));
    let missing = Query::image(&ctx, "missing".to_string()).unwrap();
    assert!(missing.is_none());
}

#[test]
fn mutation_image_defaults_tags_and_stores() {
    let db = fresh_db("mutation_image");
    let mut ctx = Context::new(db);
    let new = NewImage {
        id: "img9".to_string(),
        tags: None,
        access_count: Some(3),
        access_date: None,
        release_date: None,
    };
    let stored = Mutation::image(&mut ctx, new).unwrap();
    assert_eq!(stored.id, "img9");
    assert_eq!(stored.tags, Vec::<String>::new());
    assert_eq!(stored.access_count, Some(3));
    let back: Option<Image> = ctx.db.get("img9").unwrap();
    assert_eq!(back, Some(stored));
}

#[test]
fn from_new_copies_fields() {
    let new = NewImage {
        id: "x".to_string(),
        tags: Some(vec!["t".to_string()]),
        access_count: Some(-7),
        access_date: Some("d1".to_string()),
        release_date: Some("d2".to_string()),
    };
    let img = Image::from_new(new);
    assert_eq!(img.id, "x");
    assert_eq!(img.tags, vec!["t".to_string()]);
    assert_eq!(img.access_count, Some(-7));
    assert_eq!(img.access_date, Some("d1".to_string()));
    assert_eq!(img.release_date, Some("d2".to_string()));
}

#[test]
fn encode_minimal_record_exact_bytes() {
    let img = Image {
        id: "a".to_string(),
        tags: vec![],
        access_count: None,
        access_date: None,
        release_date: None,
    };
    let bytes = img.encode();
    let mut expected: Vec<u8> = vec![1];
    expected.extend_from_slice(&[1, 0, 0, 0, 0, 0, 0, 0, 0x61]);
    expected.extend_from_slice(&[0, 0, 0, 0, 0, 0, 0, 0]);
    expected.extend_from_slice(&[0, 0, 0]);
    assert_eq!(bytes, expected);
    assert_eq!(Image::decode(&bytes), Some(img));
}

#[test]
fn encode_counts_exact_bytes() {
    let mut img = Image {
        id: "a".to_string(),
        tags: vec![],
        access_count: Some(2),
        access_date: None,
        release_date: None,
    };
    let bytes = img.encode();
    let mut expected: Vec<u8> = vec![1];
    expected.extend_from_slice(&[1, 0, 0, 0, 0, 0, 0, 0, 0x61]);
    expected.extend_from_slice(&[0, 0, 0, 0, 0, 0, 0, 0]);
    expected.extend_from_slice(&[1, 2, 0, 0, 0, 0, 0, 0, 0]);
    expected.extend_from_slice(&[0, 0]);
    assert_eq!(bytes, expected);

    img.access_count = Some(-1);
    let bytes = img.encode();
    let mut expected: Vec<u8> = vec![1];
    expected.extend_from_slice(&[1, 0, 0, 0, 0, 0, 0, 0, 0x61]);
    expected.extend_from_slice(&[0, 0, 0, 0, 0, 0, 0, 0]);
    expected.extend_from_slice(&[2, 0, 0, 0, 0, 0, 0, 0, 0]);
    expected.extend_from_slice(&[0, 0]);
    assert_eq!(bytes, expected);
}

#[test]
fn codec_round_trips_negative_count_and_unicode() {
    let img = Image {
        id: "snowman \u{2603}".to_string(),
        tags: vec!["\u{1F600}".to_string(), "".to_string()],
        access_count: Some(-3),
        access_date: Some("".to_string()),
        release_date: None,
    };
    let bytes = img.encode();
    assert_eq!(Image::decode(&bytes), Some(img));
}

#[test]
fn decode_rejects_malformed_bytes() {
    assert_eq!(Image::decode(b""), None);
    assert_eq!(Image::decode(&[9]), None, "unknown format version");
    assert_eq!(Image::decode(b"garbage"), None);
    assert_eq!(Image::decode(&[1, 0, 0, 0, 0, 0, 0, 0]), None);
    let img = Image {
        id: "a".to_string(),
        tags: vec![],
        access_count: None,
        access_date: None,
        release_date: None,
    };
    let mut bytes = img.encode();
    bytes.push(0);
    assert_eq!(Image::decode(&bytes), None, "trailing bytes are rejected");
    let bytes = img.encode();
    assert_eq!(Image::decode(&bytes[..bytes.len() - 1]), None);
}
