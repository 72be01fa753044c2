use fse::attack::{LpAttacker, MLEAttacker};
use fse::fixed::FIXED_ONE;
use fse::native::ContextNative;
use fse::pfse::{ContextPFSE, ValueType};

fn fixed(x: f64) -> u64 {
    (x * FIXED_ONE as f64).round() as u64
}

fn sample(parts: &[(&str, usize)]) -> Vec<Vec<u8>> {
    let mut v = Vec::new();
    for (m, c) in parts {
        for _ in 0..*c {
            v.push(m.as_bytes().to_vec());
        }
    }
    v
}

type Meta = (Vec<(Vec<u8>, Vec<Vec<u8>>)>, Vec<(Vec<u8>, Vec<ValueType>)>, Vec<Vec<u8>>);

fn dte_meta(data: &[Vec<u8>]) -> Meta {
    let mut ctx = ContextNative::new(false);
    ctx.key_generate();
    let mut correct: Vec<(Vec<u8>, Vec<Vec<u8>>)> = Vec::new();
    let mut table: Vec<(Vec<u8>, Vec<ValueType>)> = Vec::new();
    let mut raw = Vec::new();
    for m in data.iter() {
        let c = ctx.encrypt(m).unwrap().remove(0);
        raw.push(c.clone());
        match correct.iter().position(|e| &e.0 == m) {
            Some(i) => {
                table[i].1[0].2 += 1;
            }
            None => {
                correct.push((m.clone(), vec![c]));
                table.push((m.clone(), vec![(0, 1, 1)]));
            }
        }
    }
    (correct, table, raw)
}

fn pfse_meta(data: &[Vec<u8>], lambda: f64, advantage: f64) -> Meta {
    let mut ctx = ContextPFSE::new();
    ctx.key_generate();
    ctx.set_params(&[fixed(lambda), fixed(1.0), fixed(advantage)]);
    let law: Vec<u64> = (1..=256)
        .map(|g| fixed(lambda * (-lambda * (g as f64 - 1.0)).exp()))
        .collect();
    ctx.partition(data, &law);
    ctx.transform().unwrap();
    let mut correct = Vec::new();
    let mut raw = Vec::new();
    for (m, _) in ctx.get_local_table().iter() {
        let cts = ctx.encrypt(m).unwrap();
        correct.push((m.clone(), cts));
    }
    raw.extend(ctx.smooth());
    (correct, ctx.get_local_table().clone(), raw)
}

#[test]
fn test_mle_attack() {
    let plaintexts = sample(&[("a", 40), ("b", 25), ("c", 15), ("d", 10), ("e", 6), ("f", 4)]);
    let (correct, table, raw) = pfse_meta(&plaintexts, 0.25, 2f64.powf(-4.0));
    let mut attacker = MLEAttacker::new();
    let rate = attacker.attack(&correct, &table, &raw);
    println!("{}", rate as f64 / FIXED_ONE as f64);
    assert!(rate <= FIXED_ONE as u128);
    assert!(attacker.assignment.is_some());
}

#[test]
fn mle_attack_on_dte_recovers_all() {
    let t = sample(&[("a", 100), ("b", 1)]);
    let (correct, table, raw) = dte_meta(&t);
    let mut attacker = MLEAttacker::new();
    let rate = attacker.attack(&correct, &table, &raw);
    // 100/101 + 1/101, each rounded down in fixed point
    assert_eq!(rate, (100u128 << 32) / 101 + (1u128 << 32) / 101);
    assert!(rate as f64 / FIXED_ONE as f64 > 0.99);
}

#[test]
fn mle_attack_on_pfse_recovers_less() {
    let t = sample(&[("a", 100), ("b", 1)]);
    let (correct, table, raw) = pfse_meta(&t, 0.25, 2f64.powf(-4.0));
    let mut attacker = MLEAttacker::new();
    let rate = attacker.attack(&correct, &table, &raw);
    println!("{}", rate as f64 / FIXED_ONE as f64);
    assert!((rate as f64) < 0.9 * FIXED_ONE as f64);
}

#[test]
fn lp_attack_on_dte_recovers_all() {
    let t = sample(&[("a", 5), ("b", 3), ("c", 1)]);
    let (correct, table, raw) = dte_meta(&t);
    let mut attacker = LpAttacker::new(2);
    let rate = attacker.attack(&correct, &table, &raw);
    let expected = (5u128 << 32) / 9 + (3u128 << 32) / 9 + (1u128 << 32) / 9;
    assert_eq!(rate, expected);
    assert_eq!(attacker.assignment.unwrap().len(), 3);
}

#[test]
fn lp_attack_rate_is_at_most_one() {
    let plaintexts = sample(&[("a", 12), ("b", 7), ("c", 4), ("d", 2)]);
    let (correct, table, raw) = pfse_meta(&plaintexts, 0.5, 0.25);
    if table.iter().map(|e| e.1.len()).sum::<usize>() <= 300 {
        let mut attacker = LpAttacker::new(1);
        let rate = attacker.attack(&correct, &table, &raw);
        println!("{}", rate as f64 / FIXED_ONE as f64);
        assert!(rate <= FIXED_ONE as u128);
    }
}

#[test]
fn lp_cost_matrix_is_pth_power() {
    let attacker = LpAttacker::new(3);
    let aux = vec![(b"a".to_vec(), 1usize, 5usize), (b"b".to_vec(), 1, 2)];
    let cts = vec![(b"x".to_vec(), 4usize), (b"y".to_vec(), 1usize)];
    let m = attacker.build_cost_matrix(&aux, &cts).unwrap();
    assert_eq!(m, vec![1, 64, -8, 1]);
    assert!(attacker.build_cost_matrix(&aux, &cts[..1].to_vec()).unwrap().is_empty());
}

#[test]
fn lp_cost_matrix_is_exact_for_large_counts() {
    let attacker = LpAttacker::new(2);
    let aux = vec![(b"a".to_vec(), 1usize, 5000usize)];
    let cts = vec![(b"x".to_vec(), 0usize)];
    assert_eq!(attacker.build_cost_matrix(&aux, &cts).unwrap(), vec![25_000_000]);
    let huge = LpAttacker::new(40);
    assert_eq!(huge.build_cost_matrix(&aux, &cts), None);
}

#[test]
fn mle_attack_accepts_empty_set_sizes() {
    let correct = vec![(b"a".to_vec(), vec![b"c1".to_vec()])];
    let table = vec![(b"a".to_vec(), vec![(0usize, 0usize, 3usize), (1, 1, 2)])];
    let raw = vec![b"c1".to_vec(), b"c1".to_vec()];
    let mut attacker = MLEAttacker::new();
    let rate = attacker.attack(&correct, &table, &raw);
    assert!(rate <= FIXED_ONE as u128);
}
