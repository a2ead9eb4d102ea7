//! The filter evaluator, path lookup into metadata, and the byte codec.

use zapybase::collection::Collection;
use zapybase::config::{Config, DistanceMetric};
use zapybase::filter::{eval, Filter, RangeSpec};
use zapybase::meta::{lookup, MetaValue};
use zapybase::quant::{decode_vector, encode_vector};

fn path(segs: &[&str]) -> Vec<String> {
    segs.iter().map(|s| s.to_string()).collect()
}

fn no_bounds() -> RangeSpec {
    RangeSpec { gt: None, gte: None, lt: None, lte: None }
}

fn doc(kind: &str, score: i64) -> MetaValue {
    MetaValue::Obj(vec![
        ("type".to_string(), MetaValue::Str(kind.to_string())),
        ("score".to_string(), MetaValue::Int(score)),
    ])
}

#[test]
fn lookup_walks_objects_and_arrays() {
    let m = MetaValue::Obj(vec![(
        "tags".to_string(),
        MetaValue::Arr(vec![
            MetaValue::Str("red".to_string()),
            MetaValue::Obj(vec![("deep".to_string(), MetaValue::Int(7))]),
        ]),
    )]);
    let hit = lookup(&m, &path(&["tags", "1", "deep"])).unwrap();
    match hit {
        MetaValue::Int(v) => assert_eq!(*v, 7),
        other => panic!("unexpected value {:?}", other),
    }
    assert!(lookup(&m, &path(&["tags", "2"])).is_none());
    assert!(lookup(&m, &path(&["missing"])).is_none());
    assert!(lookup(&m, &path(&["tags", "x"])).is_none());
}

#[test]
fn leaves_never_throw_on_type_mismatch() {
    let m = doc("doc", 10);
    // a range over a string field is simply false
    let f = Filter::Range(path(&["type"]), RangeSpec { gte: Some(1), ..no_bounds() });
    assert!(!eval(&f, Some(&m)));
    // a missing path fails Eq, In, Range and Exists alike
    assert!(!eval(&Filter::Eq(path(&["nope"]), MetaValue::Null), Some(&m)));
    assert!(!eval(&Filter::In(path(&["nope"]), vec![MetaValue::Null]), Some(&m)));
    assert!(!eval(&Filter::Exists(path(&["nope"])), Some(&m)));
    // absent metadata fails every leaf but satisfies Not
    assert!(!eval(&Filter::Exists(path(&["type"])), None));
    assert!(eval(&Filter::Not(Box::new(Filter::Exists(path(&["type"])))), None));
    // an empty And holds; an empty Or fails
    assert!(eval(&Filter::And(vec![]), None));
    assert!(!eval(&Filter::Or(vec![]), None));
}

#[test]
fn compound_filters_combine() {
    let m = doc("doc", 700);
    let f = Filter::And(vec![
        Filter::Eq(path(&["type"]), MetaValue::Str("doc".to_string())),
        Filter::Range(path(&["score"]), RangeSpec { gte: Some(500), ..no_bounds() }),
    ]);
    assert!(eval(&f, Some(&m)));
    let g = Filter::Or(vec![
        Filter::Eq(path(&["type"]), MetaValue::Str("img".to_string())),
        Filter::In(
            path(&["score"]),
            vec![MetaValue::Int(699), MetaValue::Int(700)],
        ),
    ]);
    assert!(eval(&g, Some(&m)));
    let h = Filter::Range(
        path(&["score"]),
        RangeSpec { gt: Some(700), ..no_bounds() },
    );
    assert!(!eval(&h, Some(&m)));
    let lt = Filter::Range(
        path(&["score"]),
        RangeSpec { lt: Some(701), lte: Some(700), ..no_bounds() },
    );
    assert!(eval(&lt, Some(&m)));
}

#[test]
fn s6_filtered_search_returns_exactly_the_matches() {
    let mut cfgv = Config::default();
    cfgv.dimensions = 2;
    cfgv.distance_metric = DistanceMetric::Euclidean;
    let mut c = Collection::new(cfgv).unwrap();
    // twenty records; exactly seven match the filter
    for i in 0..20i64 {
        let kind = if i < 10 { "doc" } else { "img" };
        let score = if i < 7 { 600 } else { 300 };
        let md = doc(kind, score);
        c.insert(format!("r{}", i), vec![i as i32, 0], Some(md)).unwrap();
    }
    let f = Filter::And(vec![
        Filter::Eq(path(&["type"]), MetaValue::Str("doc".to_string())),
        Filter::Range(path(&["score"]), RangeSpec { gte: Some(500), ..no_bounds() }),
    ]);
    let hits = c.search(&vec![0, 0], 10, Some(&f)).unwrap();
    let mut got: Vec<String> = hits.iter().map(|h| h.0.clone()).collect();
    got.sort();
    let want: Vec<String> = (0..7).map(|i| format!("r{}", i)).collect();
    assert_eq!(got, want);
}

#[test]
fn p9_every_filtered_hit_matches() {
    let mut cfgv = Config::default();
    cfgv.dimensions = 3;
    let mut c = Collection::new(cfgv).unwrap();
    for i in 0..40i64 {
        let md = doc(if i % 2 == 0 { "doc" } else { "img" }, i * 10);
        c.insert(
            format!("n{}", i),
            vec![(i % 7) as i32, (i % 5) as i32, 1],
            Some(md),
        )
        .unwrap();
    }
    let f = Filter::Eq(path(&["type"]), MetaValue::Str("doc".to_string()));
    let hits = c.search(&vec![1, 1, 1], 15, Some(&f)).unwrap();
    assert!(!hits.is_empty());
    for (_, _, md) in &hits {
        assert!(eval(&f, md.as_ref()), "a hit failed its own filter");
    }
}

#[test]
fn codec_round_trip_stays_within_half_a_step() {
    let v: Vec<i32> = vec![-32767, -1000, -1, 0, 1, 128, 129, 1000, 32767];
    let enc = encode_vector(&v);
    assert_eq!(enc.len(), v.len());
    let dec = decode_vector(&enc);
    for (orig, back) in v.iter().zip(dec.iter()) {
        let err = (orig - back).abs();
        assert!(err <= 128, "{} decoded to {}", orig, back);
        assert!(*back >= -32767 && *back <= 32767);
    }
}

#[test]
fn metadata_equality_is_deep() {
    let a = doc("doc", 5);
    let b = doc("doc", 5);
    let c = doc("doc", 6);
    assert!(a.same_as(&b));
    assert!(!a.same_as(&c));
    let nested = MetaValue::Arr(vec![a.duplicate(), MetaValue::Null]);
    let nested2 = MetaValue::Arr(vec![b.duplicate(), MetaValue::Null]);
    assert!(nested.same_as(&nested2));
}
