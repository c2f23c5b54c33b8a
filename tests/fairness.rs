use realm_lb::RoundRobin;

fn spread(diffs: &[f64]) -> (f64, f64, f64) {
    let mut min = f64::INFINITY;
    let mut max = f64::NEG_INFINITY;
    let mut sum = 0.0;
    for d in diffs {
        min = min.min(*d);
        max = max.max(*d);
        sum += *d;
    }
    (min, max, sum / diffs.len() as f64)
}

#[test]
fn rr_same_weight() {
    let mut rr = RoundRobin::new(&vec![1; 255], None).unwrap();
    let mut distro = [0f64; 255];

    for _ in 0..1_000_000 {
        let token = rr.next().unwrap();
        distro[token.0 as usize] += 1 as f64;
    }

    let diffs: Vec<f64> = distro
        .iter()
        .map(|x| *x / 1_000_000.0 - 1.0 / 255.0)
        .map(f64::abs)
        .inspect(|x| assert!(x < &1e-3))
        .collect();

    let (min_diff, max_diff, mean_diff) = spread(&diffs);
    println!("{:?}", distro);
    println!("min diff: {}", min_diff);
    println!("max diff: {}", max_diff);
    println!("mean diff: {}", mean_diff);
}

#[test]
fn rr_all_weights() {
    let weights: Vec<u8> = (1..=255).collect();
    let total_weight: f64 = weights.iter().map(|x| *x as f64).sum();
    let mut rr = RoundRobin::new(&weights, None).unwrap();
    let mut distro = [0f64; 255];

    for _ in 0..1_000_000 {
        let token = rr.next().unwrap();
        distro[token.0 as usize] += 1 as f64;
    }

    let diffs: Vec<f64> = distro
        .iter()
        .enumerate()
        .map(|(i, x)| *x / 1_000_000.0 - (i as f64 + 1.0) / total_weight)
        .map(f64::abs)
        .inspect(|x| assert!(x < &1e-3))
        .collect();

    let (min_diff, max_diff, mean_diff) = spread(&diffs);
    println!("{:?}", distro);
    println!("min diff: {}", min_diff);
    println!("max diff: {}", max_diff);
    println!("mean diff: {}", mean_diff);
}

#[test]
fn full_cycle_matches_weights_exactly() {
    let weights: Vec<u8> = vec![3, 1, 4, 1, 5];
    let mut rr = RoundRobin::new(&weights, None).unwrap();
    let mut counts = [0u32; 5];
    for _ in 0..14 {
        counts[rr.next().unwrap().0 as usize] += 1;
    }
    assert_eq!(counts, [3, 1, 4, 1, 5]);
}

#[test]
fn counters_account_for_every_pick() {
    let weights: [u8; 5] = [3, 1, 4, 1, 5];
    let mut rr = RoundRobin::new(&weights, None).unwrap();
    let mut counts = [0i64; 5];
    for _ in 0..100 {
        counts[rr.next_at(0).unwrap().0 as usize] += 1;
    }
    for (i, w) in weights.iter().enumerate() {
        let cw = rr.node(realm_lb::Token(i as u8)).unwrap().current_weight;
        assert_eq!(cw, 100 * *w as i64 - 14 * counts[i]);
    }
    assert_eq!(counts, [21, 7, 29, 7, 36]);
}

#[test]
fn selection_repeats_every_total_weight() {
    let weights: [u8; 3] = [2, 3, 7];
    let mut rr = RoundRobin::new(&weights, None).unwrap();
    let mut counts = [0u32; 3];
    let first: Vec<u8> = (0..12).map(|_| rr.next_at(0).unwrap().0).collect();
    for t in &first {
        counts[*t as usize] += 1;
    }
    for _ in 0..24 {
        counts[rr.next_at(0).unwrap().0 as usize] += 1;
    }
    assert_eq!(counts, [6, 9, 21]);
    for i in 0..3u8 {
        assert_eq!(rr.node(realm_lb::Token(i)).unwrap().current_weight, 0);
    }
    let again: Vec<u8> = (0..12).map(|_| rr.next_at(0).unwrap().0).collect();
    assert_eq!(again, first);
}
