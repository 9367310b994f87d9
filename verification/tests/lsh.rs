use geo::lsh::{
    hamming_distance, random_indices, generate_points, mutate_point, flip_positions, HashFn,
    generate_hash_fns, generate_queries, fill_table, build_tables, query_correct,
};

fn bits(s: &str) -> Vec<bool> {
    s.chars().map(|c| c == '1').collect()
}

#[test]
fn hamming_counts_differences() {
    assert_eq!(hamming_distance(&bits("10110"), &bits("00111")), 2);
    assert_eq!(hamming_distance(&bits("10110"), &bits("10110")), 0);
    assert_eq!(hamming_distance(&bits("111"), &bits("000")), 3);
    assert_eq!(hamming_distance(&bits("0001"), &bits("1000")), hamming_distance(&bits("1000"), &bits("0001")));
    assert_eq!(hamming_distance(&bits("11"), &bits("1000")), 1);
}

#[test]
fn random_indices_in_range() {
    let mut rng = rand::rng();
    let r = random_indices(&mut rng, 10, 50, true);
    assert_eq!(r.len(), 50);
    assert!(r.iter().all(|&i| i < 10));
    let s = random_indices(&mut rng, 10, 10, false);
    let mut sorted = s.clone();
    sorted.sort();
    assert_eq!(sorted, (0..10).collect::<Vec<usize>>());
    assert!(random_indices(&mut rng, 0, 0, true).is_empty());
}

#[test]
fn generated_points_have_the_dimension() {
    let mut rng = rand::rng();
    let pts = generate_points(&mut rng, 7, 64);
    assert_eq!(pts.len(), 7);
    assert!(pts.iter().all(|p| p.len() == 64));
    let ones: usize = pts.iter().map(|p| p.iter().filter(|&&b| b).count()).sum();
    assert!(ones > 0 && ones < 7 * 64);
}

#[test]
fn flipping_positions() {
    let p = bits("0000");
    assert_eq!(flip_positions(&p, &vec![1, 3]), bits("0101"));
    assert_eq!(flip_positions(&p, &vec![2, 2]), bits("0000"));
    assert_eq!(flip_positions(&p, &vec![]), p);
}

#[test]
fn mutation_without_repeats_is_at_distance_r() {
    let mut rng = rand::rng();
    let p = generate_points(&mut rng, 1, 100).pop().unwrap();
    for r in [0usize, 1, 7, 100] {
        let q = mutate_point(&mut rng, &p, r, false);
        assert_eq!(q.len(), p.len());
        assert_eq!(hamming_distance(&p, &q), r);
    }
    let q = mutate_point(&mut rng, &p, 30, true);
    assert!(hamming_distance(&p, &q) <= 30);
    assert_eq!(hamming_distance(&p, &q) % 2, 0);
}

#[test]
fn hash_reads_the_chosen_positions() {
    let mut rng = rand::rng();
    let h = HashFn::new(&mut rng, 8, 8);
    let p = bits("11111111");
    assert_eq!(h.hash(&p), bits("11111111"));
    let z = bits("00000000");
    assert_eq!(h.hash(&z), bits("00000000"));
    let h0 = HashFn::new(&mut rng, 8, 0);
    assert!(h0.hash(&p).is_empty());
}

#[test]
fn insert_then_get() {
    let mut rng = rand::rng();
    let mut h = HashFn::new(&mut rng, 6, 6);
    let p = bits("101010");
    let q = bits("010101");
    assert!(h.get(&p).is_empty());
    h.insert(p.clone());
    h.insert(p.clone());
    h.insert(q.clone());
    assert_eq!(h.get(&p), vec![p.clone(), p.clone()]);
    assert_eq!(h.get(&q), vec![q.clone()]);
    assert!(h.get(&bits("111111")).is_empty());
}

#[test]
fn coarse_hash_files_everything_together() {
    let mut rng = rand::rng();
    let mut h = HashFn::new(&mut rng, 4, 0);
    let pts = vec![bits("0000"), bits("1111"), bits("1010")];
    fill_table(&mut h, &pts);
    assert_eq!(h.get(&bits("0110")), pts);
}

#[test]
fn tables_find_their_own_points() {
    let mut rng = rand::rng();
    let pts = generate_points(&mut rng, 20, 32);
    let tables = build_tables(&mut rng, &pts, 4, 32, 6);
    assert_eq!(tables.len(), 4);
    for t in &tables {
        for p in &pts {
            assert!(t.get(p).contains(p));
            assert!(t.get(p).iter().all(|c| t.hash(c) == t.hash(p)));
        }
    }
    let fns = generate_hash_fns(&mut rng, 3, 32, 5);
    assert_eq!(fns.len(), 3);
    assert!(fns.iter().all(|f| f.get(&pts[0]).is_empty()));
}

#[test]
fn queries_come_from_points() {
    let mut rng = rand::rng();
    let pts = generate_points(&mut rng, 5, 40);
    let qs = generate_queries(&mut rng, &pts, 12, 3, false);
    assert_eq!(qs.len(), 12);
    for q in &qs {
        assert!(pts.iter().any(|p| hamming_distance(p, q) == 3));
    }
}

#[test]
fn exact_query_is_answered_correctly() {
    let pts = vec![bits("000000"), bits("111111"), bits("110000")];
    let mut rng = rand::rng();
    let tables = build_tables(&mut rng, &pts, 1, 6, 6);
    for p in &pts {
        assert_eq!(query_correct(&pts, &tables, p, 1), 1);
    }
    assert_eq!(query_correct(&pts, &tables, &bits("101010"), 1), 0);
}

#[test]
fn answer_found_in_a_coarse_table_is_the_true_one() {
    let pts = vec![bits("0000"), bits("0011"), bits("1111")];
    let mut rng = rand::rng();
    let tables = build_tables(&mut rng, &pts, 1, 4, 0);
    assert_eq!(query_correct(&pts, &tables, &bits("0111"), 1), 1);
    assert_eq!(query_correct(&pts, &tables, &bits("0111"), 0), 0);
}
