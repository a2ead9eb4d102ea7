//! End-to-end behaviour of collections and the database.

use zapybase::collection::Collection;
use zapybase::config::{Config, DistanceMetric, QuantizationType};
use zapybase::database::Database;
use zapybase::errors::Error;
use zapybase::meta::MetaValue;

fn cfg(dim: usize, metric: DistanceMetric) -> Config {
    let mut c = Config::default();
    c.dimensions = dim;
    c.distance_metric = metric;
    c
}

fn ids_of(hits: &[(String, zapybase::metric::Distance, Option<MetaValue>)]) -> Vec<String> {
    hits.iter().map(|h| h.0.clone()).collect()
}

/// A deterministic vector from a seed, like a reproducible fuzz input.
fn generate_vector(seed: u32, dimensions: usize) -> Vec<i32> {
    let mut vector = Vec::with_capacity(dimensions);
    let mut state = seed;
    for _ in 0..dimensions {
        state = state.wrapping_mul(1103515245).wrapping_add(12345);
        let value = ((state >> 16) as i32 % 2000) - 1000;
        vector.push(value);
    }
    vector
}

#[test]
fn s1_euclidean_nearest_two() {
    let mut c = Collection::new(cfg(3, DistanceMetric::Euclidean)).unwrap();
    c.insert("a".to_string(), vec![0, 0, 0], None).unwrap();
    c.insert("b".to_string(), vec![1, 0, 0], None).unwrap();
    c.insert("c".to_string(), vec![0, 1, 0], None).unwrap();
    let hits = c.search(&vec![0, 0, 0], 2, None).unwrap();
    assert_eq!(ids_of(&hits), vec!["a".to_string(), "b".to_string()]);
    // squared distances, exact
    assert_eq!(hits[0].1.num, 0);
    assert_eq!(hits[0].1.den, 1);
    assert_eq!(hits[1].1.num, 1);
    assert_eq!(hits[1].1.den, 1);
}

#[test]
fn s2_cosine_order() {
    let mut c = Collection::new(cfg(2, DistanceMetric::Cosine)).unwrap();
    c.insert("x".to_string(), vec![1, 0], None).unwrap();
    c.insert("y".to_string(), vec![0, 1], None).unwrap();
    c.insert("z".to_string(), vec![1, 1], None).unwrap();
    let hits = c.search(&vec![2, 0], 3, None).unwrap();
    assert_eq!(
        ids_of(&hits),
        vec!["x".to_string(), "z".to_string(), "y".to_string()]
    );
    // the distance of x is exactly zero
    assert_eq!(hits[0].1.num, 0);
    assert!(hits[0].1.den >= 1);
}

#[test]
fn s3_duplicate_then_upsert() {
    // fixed-point components: 0.1 and 0.2 at a scale of one thousand
    let mut c = Collection::new(cfg(2, DistanceMetric::Cosine)).unwrap();
    c.insert("k".to_string(), vec![100, 200], None).unwrap();
    let again = c.insert("k".to_string(), vec![300, 400], None);
    assert_eq!(again, Err(Error::DuplicateId("k".to_string())));
    c.upsert("k".to_string(), vec![300, 400], None).unwrap();
    let got = c.get(&"k".to_string()).unwrap().unwrap();
    assert_eq!(got.0, vec![300, 400]);
}

#[test]
fn s4_delete_every_even_id() {
    let mut c = Collection::new(cfg(8, DistanceMetric::Euclidean)).unwrap();
    for i in 0..100u32 {
        let v = generate_vector(i, 8);
        c.insert(format!("vec_{}", i), v, None).unwrap();
    }
    for i in (0..100u32).step_by(2) {
        let removed = c.delete(&format!("vec_{}", i)).unwrap();
        assert!(removed);
    }
    assert_eq!(c.vector_count(), 50);
    let hits = c.search(&generate_vector(12345, 8), 20, None).unwrap();
    assert!(hits.len() <= 20);
    assert!(!hits.is_empty());
    for (id, _, _) in &hits {
        let n: u32 = id.trim_start_matches("vec_").parse().unwrap();
        assert!(n % 2 == 1, "even id {} returned", id);
    }
}

#[test]
fn s5_collections_are_independent() {
    let mut db = Database::new();
    db.create_collection(&"c1".to_string(), cfg(4, DistanceMetric::Euclidean))
        .unwrap();
    db.create_collection(&"c2".to_string(), cfg(8, DistanceMetric::Euclidean))
        .unwrap();
    db.insert_vector(&"c1".to_string(), "a".to_string(), vec![1, 2, 3, 4], None)
        .unwrap();
    let r = db.insert_vector(&"c2".to_string(), "b".to_string(), vec![1, 2, 3, 4], None);
    assert_eq!(
        r,
        Err(Error::DimensionMismatch {
            expected: 8,
            got: 4
        })
    );
    let c1 = db.get_collection(&"c1".to_string()).unwrap();
    assert_eq!(c1.vector_count(), 1);
    assert!(c1.get(&"a".to_string()).unwrap().is_some());
}

#[test]
fn p1_count_and_listing_after_churn() {
    let mut c = Collection::new(cfg(4, DistanceMetric::Dot)).unwrap();
    for i in 0..30u32 {
        c.insert(format!("v{}", i), generate_vector(i, 4), None).unwrap();
    }
    for i in 0..10u32 {
        assert!(c.delete(&format!("v{}", i * 3)).unwrap());
    }
    // re-insert a few, reusing slots
    for i in 0..4u32 {
        c.insert(format!("w{}", i), generate_vector(100 + i, 4), None)
            .unwrap();
    }
    let n = c.vector_count();
    assert_eq!(n, 30 - 10 + 4);
    let all = c.list(0, usize::MAX);
    assert_eq!(all.len(), n);
    let mut sorted = all.clone();
    sorted.sort();
    sorted.dedup();
    assert_eq!(sorted.len(), n, "listing held a repeated identifier");
    // pagination: a window of the same listing
    let page = c.list(5, 7);
    assert_eq!(page, all[5..12].to_vec());
}

#[test]
fn p5_upsert_then_get_round_trip() {
    let mut c = Collection::new(cfg(3, DistanceMetric::Cosine)).unwrap();
    let md = MetaValue::Obj(vec![(
        "kind".to_string(),
        MetaValue::Str("sample".to_string()),
    )]);
    c.upsert("r".to_string(), vec![7, 8, 9], Some(md)).unwrap();
    let (v, m) = c.get(&"r".to_string()).unwrap().unwrap();
    assert_eq!(v, vec![7, 8, 9]);
    match m {
        Some(MetaValue::Obj(fields)) => {
            assert_eq!(fields.len(), 1);
            assert_eq!(fields[0].0, "kind");
            match &fields[0].1 {
                MetaValue::Str(s) => assert_eq!(s, "sample"),
                other => panic!("unexpected metadata {:?}", other),
            }
        }
        other => panic!("unexpected metadata {:?}", other),
    }
}

#[test]
fn p6_delete_twice() {
    let mut c = Collection::new(cfg(2, DistanceMetric::Euclidean)).unwrap();
    c.insert("once".to_string(), vec![1, 1], None).unwrap();
    assert_eq!(c.delete(&"once".to_string()), Ok(true));
    assert_eq!(c.delete(&"once".to_string()), Ok(false));
    assert_eq!(c.vector_count(), 0);
}

#[test]
fn p7_dimension_guard_leaves_state_alone() {
    let mut c = Collection::new(cfg(3, DistanceMetric::Euclidean)).unwrap();
    c.insert("a".to_string(), vec![1, 2, 3], None).unwrap();
    let r = c.insert("b".to_string(), vec![1, 2], None);
    assert_eq!(
        r,
        Err(Error::DimensionMismatch {
            expected: 3,
            got: 2
        })
    );
    assert_eq!(c.vector_count(), 1);
    assert_eq!(c.list(0, 10), vec!["a".to_string()]);
}

#[test]
fn p8_recall_against_brute_force() {
    let dim = 32;
    let n = 1000u32;
    let mut c = Collection::new(cfg(dim, DistanceMetric::Euclidean)).unwrap();
    let mut vectors = Vec::new();
    for i in 0..n {
        let v = generate_vector(i, dim);
        vectors.push(v.clone());
        c.insert(format!("v{}", i), v, None).unwrap();
    }
    let query = generate_vector(999_999, dim);
    let sq = |a: &[i32], b: &[i32]| -> i64 {
        a.iter()
            .zip(b.iter())
            .map(|(x, y)| {
                let d = (*x - *y) as i64;
                d * d
            })
            .sum()
    };
    let mut brute: Vec<(i64, u32)> = (0..n).map(|i| (sq(&vectors[i as usize], &query), i)).collect();
    brute.sort();
    let want: Vec<String> = brute[..10].iter().map(|(_, i)| format!("v{}", i)).collect();
    let hits = c.search(&query, 10, None).unwrap();
    let got = ids_of(&hits);
    let overlap = got.iter().filter(|id| want.contains(id)).count();
    assert!(
        overlap >= 9,
        "recall too low: {} of 10 (got {:?}, want {:?})",
        overlap,
        got,
        want
    );
}

#[test]
fn deterministic_ops_sequence_stays_valid() {
    // a reproducible churn of inserts, upserts and deletes, as a fuzzer
    // would drive, ending in a search that must stay sound
    let mut c = Collection::new(cfg(6, DistanceMetric::Cosine)).unwrap();
    let mut state: u32 = 42;
    for step in 0..400u32 {
        state = state.wrapping_mul(1103515245).wrapping_add(12345);
        let id = format!("vec_{}", state % 60);
        match state % 4 {
            0 => {
                let _ = c.insert(id, generate_vector(state, 6), None);
            }
            1 => {
                let _ = c.upsert(id, generate_vector(state ^ step, 6), None);
            }
            2 => {
                let _ = c.delete(&id);
            }
            _ => {
                let hits = c.search(&generate_vector(state, 6), 5, None);
                if c.vector_count() > 0 {
                    assert!(hits.is_ok());
                    assert!(hits.unwrap().len() <= 5);
                } else {
                    assert!(matches!(hits, Err(Error::EmptyIndex)));
                }
            }
        }
    }
    let final_hits = c.search(&generate_vector(7, 6), 10, None);
    if c.vector_count() > 0 {
        assert!(final_hits.unwrap().len() <= 10);
    }
}

#[test]
fn database_lifecycle_and_stats() {
    let mut db = Database::new();
    assert_eq!(
        db.delete_collection(&"nope".to_string()),
        Err(Error::CollectionNotFound("nope".to_string()))
    );
    db.create_collection(&"main".to_string(), cfg(2, DistanceMetric::Euclidean))
        .unwrap();
    assert_eq!(
        db.create_collection(&"main".to_string(), cfg(2, DistanceMetric::Euclidean)),
        Err(Error::DuplicateCollection("main".to_string()))
    );
    let bad = db.create_collection(&"zero".to_string(), cfg(0, DistanceMetric::Euclidean));
    assert!(matches!(bad, Err(Error::InvalidConfig(_))));
    db.insert_vector(&"main".to_string(), "a".to_string(), vec![3, 4], None)
        .unwrap();
    db.upsert_vector(&"main".to_string(), "b".to_string(), vec![5, 6], None)
        .unwrap();
    assert_eq!(db.list_collections(), vec!["main".to_string()]);
    let stats = db.get_stats();
    assert_eq!(stats.total_vectors, 2);
    assert_eq!(stats.per_collection.len(), 1);
    assert_eq!(stats.per_collection[0].0, "main");
    assert_eq!(stats.per_collection[0].1.vector_count, 2);
    assert_eq!(db.delete_vector(&"main".to_string(), &"a".to_string()), Ok(true));
    db.delete_collection(&"main".to_string()).unwrap();
    assert_eq!(db.list_collections(), Vec::<String>::new());
}

#[test]
fn batch_upsert_applies_in_order() {
    let mut db = Database::new();
    db.create_collection(&"c".to_string(), cfg(2, DistanceMetric::Euclidean))
        .unwrap();
    let items = vec![
        ("a".to_string(), vec![1, 1], None),
        ("b".to_string(), vec![2, 2], None),
        ("a".to_string(), vec![9, 9], None),
    ];
    db.upsert_batch(&"c".to_string(), items).unwrap();
    let c = db.get_collection(&"c".to_string()).unwrap();
    assert_eq!(c.vector_count(), 2);
    let (va, _) = c.get(&"a".to_string()).unwrap().unwrap();
    assert_eq!(va, vec![9, 9]);
    // a bad item stops the batch, keeping what came before it
    let mut db2 = Database::new();
    db2.create_collection(&"c".to_string(), cfg(2, DistanceMetric::Euclidean))
        .unwrap();
    let items2 = vec![
        ("x".to_string(), vec![1, 1], None),
        ("y".to_string(), vec![1, 1, 1], None),
        ("z".to_string(), vec![2, 2], None),
    ];
    let r = db2.upsert_batch(&"c".to_string(), items2);
    assert!(matches!(r, Err(Error::DimensionMismatch { .. })));
    let c2 = db2.get_collection(&"c".to_string()).unwrap();
    assert_eq!(c2.vector_count(), 1);
    assert!(c2.get(&"x".to_string()).unwrap().is_some());
    assert!(c2.get(&"z".to_string()).unwrap().is_none());
}

#[test]
fn component_out_of_range_is_refused() {
    let mut c = Collection::new(cfg(2, DistanceMetric::Euclidean)).unwrap();
    let r = c.insert("big".to_string(), vec![40000, 0], None);
    assert!(matches!(r, Err(Error::InvalidConfig(_))));
    assert_eq!(c.vector_count(), 0);
}

#[test]
fn quantized_collection_behaves_like_raw() {
    let mut conf = cfg(3, DistanceMetric::Euclidean);
    conf.quantization = QuantizationType::U8Scalar;
    let mut c = Collection::new(conf).unwrap();
    c.insert("a".to_string(), vec![0, 0, 0], None).unwrap();
    c.insert("b".to_string(), vec![100, 0, 0], None).unwrap();
    let hits = c.search(&vec![1, 0, 0], 2, None).unwrap();
    assert_eq!(ids_of(&hits), vec!["a".to_string(), "b".to_string()]);
}

#[test]
fn error_values_carry_their_payloads() {
    let e = Error::VectorNotFound("gone".to_string());
    assert_eq!(e, Error::VectorNotFound("gone".to_string()));
    let io = Error::Io("broken pipe".to_string());
    assert_ne!(io, Error::Storage("broken pipe".to_string()));
    assert_eq!(Error::EmptyIndex, Error::EmptyIndex);
}

#[test]
fn p2_p3_p4_graph_invariants_after_churn() {
    let mut c = Collection::new(cfg(4, DistanceMetric::Euclidean)).unwrap();
    for i in 0..60u32 {
        c.insert(format!("g{}", i), generate_vector(i, 4), None).unwrap();
    }
    for i in 0..20u32 {
        assert!(c.delete(&format!("g{}", i * 2)).unwrap());
    }
    for i in 0..10u32 {
        c.upsert(format!("h{}", i), generate_vector(500 + i, 4), None)
            .unwrap();
    }
    let g = &c.graph;
    let n = g.alive.len();
    for i in 0..n {
        if !g.alive[i] {
            continue;
        }
        let top = g.tops[i];
        assert_eq!(g.nb[i].len(), top + 1);
        for l in 0..=top {
            let list = &g.nb[i][l];
            // degree caps: m_max0 at layer zero, m above
            let cap = if l == 0 { c.config.m_max0 } else { c.config.m };
            assert!(list.len() <= cap, "degree over cap at node {} layer {}", i, l);
            for &nbr in list {
                // neighbours are live, never tombstoned
                assert!(g.alive[nbr], "dead neighbour {} of {}", nbr, i);
                assert!(c.store.records[nbr].live);
                assert!(nbr != i);
                // and the edge is stored in both directions
                assert!(
                    g.nb[nbr][l].contains(&i),
                    "edge {}->{} at layer {} has no reverse",
                    i,
                    nbr,
                    l
                );
            }
        }
    }
}

#[test]
fn entry_point_promotes_to_an_ex_neighbour() {
    let mut c = Collection::new(cfg(2, DistanceMetric::Euclidean)).unwrap();
    for i in 0..12u32 {
        c.insert(format!("e{}", i), generate_vector(i, 2), None).unwrap();
    }
    let ep = c.graph.ep.expect("an occupied graph has an entry point");
    let top = c.graph.tops[ep];
    let ex_neighbours = c.graph.nb[ep][top].clone();
    let ep_id = c.store.records[ep].id.clone();
    assert!(c.delete(&ep_id).unwrap());
    let new_ep = c.graph.ep.expect("live nodes remain, so does an entry point");
    assert!(c.graph.alive[new_ep]);
    if !ex_neighbours.is_empty() {
        assert!(
            ex_neighbours.contains(&new_ep),
            "the new entry point {} is not an ex-neighbour {:?}",
            new_ep,
            ex_neighbours
        );
    }
    // the invariant the spec fixes: an entry point exists iff a live node does
    for i in 0..12u32 {
        let _ = c.delete(&format!("e{}", i));
    }
    assert_eq!(c.vector_count(), 0);
    assert!(c.graph.ep.is_none());
}
