use realm_lb::clock::{now_secs, secs_u32};
use realm_lb::{BuildError, HealthCheckConfig, RoundRobin, Token};

fn health(max_fails: u32, fail_timeout_secs: u32) -> Option<HealthCheckConfig> {
    Some(HealthCheckConfig { max_fails, fail_timeout_secs })
}

#[test]
fn smooth_sequence_interleaves_heavy_node() {
    let mut rr = RoundRobin::new(&[5, 1, 1], None).unwrap();
    let picks: Vec<u8> = (0..7).map(|_| rr.next().unwrap().0).collect();
    assert_eq!(picks, vec![0, 0, 1, 0, 2, 0, 0]);
    let again: Vec<u8> = (0..7).map(|_| rr.next().unwrap().0).collect();
    assert_eq!(again, picks);
}

#[test]
fn ties_go_to_the_first_node() {
    let mut rr = RoundRobin::new(&[2, 2, 2], None).unwrap();
    let picks: Vec<u8> = (0..6).map(|_| rr.next_at(0).unwrap().0).collect();
    assert_eq!(picks, vec![0, 1, 2, 0, 1, 2]);
}

#[test]
fn counters_after_one_pass() {
    let mut rr = RoundRobin::new(&[5, 1, 1], None).unwrap();
    assert_eq!(rr.next_at(0), Some(Token(0)));
    assert_eq!(rr.node(Token(0)).unwrap().current_weight, -2);
    assert_eq!(rr.node(Token(1)).unwrap().current_weight, 1);
    assert_eq!(rr.node(Token(2)).unwrap().current_weight, 1);
}

#[test]
fn zero_nodes_give_none() {
    let mut rr = RoundRobin::new(&[], None).unwrap();
    assert_eq!(rr.total(), 0);
    for _ in 0..5 {
        assert_eq!(rr.next(), None);
    }
    let mut checked = RoundRobin::new(&[], health(1, 10)).unwrap();
    checked.on_failure_at(Token(0), 0);
    assert_eq!(checked.next_at(1), None);
}

#[test]
fn one_node_always_gives_its_token() {
    let mut rr = RoundRobin::new(&[7], None).unwrap();
    assert_eq!(rr.total(), 1);
    for _ in 0..5 {
        assert_eq!(rr.next(), Some(Token(0)));
    }
    let mut checked = RoundRobin::new(&[7], health(1, 100)).unwrap();
    checked.on_failure_at(Token(0), 10);
    assert_eq!(checked.next_at(20), Some(Token(0)));
    assert_eq!(checked.node(Token(0)), None);
}

#[test]
fn too_many_nodes_are_rejected() {
    let weights = vec![1u8; 256];
    assert!(matches!(RoundRobin::new(&weights, None), Err(BuildError::TooManyNodes)));
    let most = vec![1u8; 255];
    let rr = RoundRobin::new(&most, None).unwrap();
    assert_eq!(rr.total(), 255);
}

#[test]
fn largest_weights_do_not_overflow() {
    let weights = vec![255u8; 255];
    let mut rr = RoundRobin::new(&weights, None).unwrap();
    let mut counts = vec![0u32; 255];
    for _ in 0..(255 * 4) {
        counts[rr.next_at(0).unwrap().0 as usize] += 1;
    }
    assert!(counts.iter().all(|c| *c == 4));
}

#[test]
fn new_nodes_start_fresh() {
    let rr = RoundRobin::new(&[3, 9], health(2, 5)).unwrap();
    let n = rr.node(Token(1)).unwrap();
    assert_eq!(n.current_weight, 0);
    assert_eq!(n.effective_weight, 9);
    assert_eq!(n.nominal_weight, 9);
    assert_eq!(n.fail_count, 0);
    assert_eq!(n.cooldown_until, 0);
    assert!(rr.node(Token(2)).is_none());
}

#[test]
fn cooldown_excludes_until_timeout() {
    let mut rr = RoundRobin::new(&[1, 1], health(2, 10)).unwrap();
    rr.on_failure_at(Token(1), 100);
    assert_eq!(rr.node(Token(1)).unwrap().effective_weight, 1);
    assert_eq!(rr.node(Token(1)).unwrap().cooldown_until, 0);
    rr.on_failure_at(Token(1), 100);
    let n = rr.node(Token(1)).unwrap();
    assert_eq!(n.fail_count, 2);
    assert_eq!(n.cooldown_until, 110);
    for now in 100..110 {
        assert_eq!(rr.next_at(now), Some(Token(0)));
    }
    let picks: Vec<Token> = (0..4).map(|_| rr.next_at(110).unwrap()).collect();
    assert!(picks.contains(&Token(1)));
    assert_eq!(rr.node(Token(1)).unwrap().cooldown_until, 0);
}

#[test]
fn gradual_recovery_after_cooldown() {
    let mut rr = RoundRobin::new(&[4, 4], health(1, 10)).unwrap();
    rr.on_failure_at(Token(1), 0);
    assert_eq!(rr.node(Token(1)).unwrap().effective_weight, 1);
    for now in 0..10 {
        assert_eq!(rr.next_at(now), Some(Token(0)));
    }
    assert_eq!(rr.node(Token(1)).unwrap().effective_weight, 1);
    let mut seen = vec![1u8];
    for _ in 0..40 {
        let before = rr.node(Token(1)).unwrap().effective_weight;
        let pick = rr.next_at(10).unwrap();
        let after = rr.node(Token(1)).unwrap().effective_weight;
        if pick == Token(1) {
            assert_eq!(after, (before + 1).min(4));
            seen.push(after);
        } else {
            assert_eq!(after, before);
        }
    }
    assert_eq!(&seen[..4], &[1, 2, 3, 4]);
    assert!(seen[4..].iter().all(|w| *w == 4));
}

#[test]
fn all_nodes_cooling_fail_open() {
    let mut rr = RoundRobin::new(&[2, 3, 4], health(1, 50)).unwrap();
    for t in 0..3 {
        rr.on_failure_at(Token(t), 0);
    }
    for now in 0..50 {
        assert_eq!(rr.next_at(now), Some(Token(0)));
    }
    assert_eq!(rr.node(Token(0)).unwrap().current_weight, 0);
}

#[test]
fn success_resets_failure_streak() {
    let mut rr = RoundRobin::new(&[1, 1], health(2, 10)).unwrap();
    rr.on_failure_at(Token(1), 0);
    rr.on_success(Token(1));
    assert_eq!(rr.node(Token(1)).unwrap().fail_count, 0);
    rr.on_failure_at(Token(1), 0);
    assert_eq!(rr.node(Token(1)).unwrap().fail_count, 1);
    let picks: Vec<Token> = (0..2).map(|_| rr.next_at(5).unwrap()).collect();
    assert_eq!(picks, vec![Token(0), Token(1)]);

    let mut strict = RoundRobin::new(&[1, 1], health(1, 10)).unwrap();
    strict.on_success(Token(1));
    strict.on_failure_at(Token(1), 0);
    assert_eq!(strict.node(Token(1)).unwrap().cooldown_until, 10);
    assert_eq!(strict.next_at(5), Some(Token(0)));
    assert_eq!(strict.next_at(5), Some(Token(0)));
}

#[test]
fn success_keeps_recovering_weight() {
    let mut rr = RoundRobin::new(&[5, 5], health(1, 0)).unwrap();
    rr.on_failure_at(Token(0), 0);
    rr.on_success(Token(0));
    let n = rr.node(Token(0)).unwrap();
    assert_eq!(n.effective_weight, 1);
    assert_eq!(n.fail_count, 0);
}

#[test]
fn reports_ignored_without_health_checking() {
    let mut rr = RoundRobin::new(&[1, 1], None).unwrap();
    rr.on_failure_at(Token(1), 0);
    rr.on_failure(Token(1));
    rr.on_success(Token(1));
    let n = rr.node(Token(1)).unwrap();
    assert_eq!(n.fail_count, 0);
    assert_eq!(n.effective_weight, 1);
    assert_eq!(n.cooldown_until, 0);
}

#[test]
fn unknown_token_is_ignored() {
    let mut rr = RoundRobin::new(&[1, 2], health(1, 10)).unwrap();
    rr.on_failure_at(Token(9), 0);
    rr.on_success(Token(9));
    assert_eq!(rr.node(Token(0)).unwrap().fail_count, 0);
    assert_eq!(rr.node(Token(1)).unwrap().fail_count, 0);
}

#[test]
fn cooldown_end_saturates() {
    let mut rr = RoundRobin::new(&[1, 1], health(1, u32::MAX)).unwrap();
    rr.on_failure_at(Token(0), 10);
    assert_eq!(rr.node(Token(0)).unwrap().cooldown_until, u32::MAX);
}

#[test]
fn wall_clock_reporting() {
    assert!(now_secs() > 1_600_000_000);
    let mut rr = RoundRobin::new(&[1, 1], health(1, 1000)).unwrap();
    rr.on_failure(Token(1));
    let until = rr.node(Token(1)).unwrap().cooldown_until;
    assert!(until >= now_secs() + 999);
    for _ in 0..4 {
        assert_eq!(rr.next(), Some(Token(0)));
    }
}

#[test]
fn clock_reading_cut_to_32_bits() {
    assert_eq!(secs_u32(Some(5)), 5);
    assert_eq!(secs_u32(Some(1_700_000_000)), 1_700_000_000);
    assert_eq!(secs_u32(Some((1u64 << 32) + 7)), 7);
    assert_eq!(secs_u32(Some(u64::MAX)), u32::MAX);
    assert_eq!(secs_u32(None), 0);
}

#[test]
fn failure_restarts_cooldown_window() {
    let mut rr = RoundRobin::new(&[3, 3], health(2, 10)).unwrap();
    rr.on_failure_at(Token(0), 100);
    rr.on_failure_at(Token(0), 100);
    assert_eq!(rr.node(Token(0)).unwrap().cooldown_until, 110);
    rr.on_failure_at(Token(0), 105);
    let n = rr.node(Token(0)).unwrap();
    assert_eq!(n.fail_count, 3);
    assert_eq!(n.cooldown_until, 115);
    assert_eq!(n.effective_weight, 1);
    assert_eq!(n.current_weight, 0);
}
