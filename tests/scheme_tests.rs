use fse::attack::AttackType;
use fse::db::{chunk_tokens, MAX_DISJUNCTS};
use fse::fixed::FIXED_ONE;
use fse::ingest::{read_csv_exact, read_csv_multiple, CsvError};
use fse::lpfse::{ContextLPFSE, Encoder, EncoderBHE, EncoderIHBE};
use fse::native::ContextNative;
use fse::pfse::{ContextPFSE, FseError};
use fse::util::{build_histogram, build_histogram_vec, intersect};

fn fixed(x: f64) -> u64 {
    (x * FIXED_ONE as f64).round() as u64
}

/// Values of the law lambda * e^(-lambda (g - 1)), g = 1.., in fixed point.
fn exponential_law(lambda: f64, count: usize) -> Vec<u64> {
    (1..=count)
        .map(|g| fixed(lambda * (-lambda * (g as f64 - 1.0)).exp()))
        .collect()
}

fn sample(parts: &[(&str, usize)]) -> Vec<Vec<u8>> {
    let mut v = Vec::new();
    for (m, c) in parts {
        for _ in 0..*c {
            v.push(m.as_bytes().to_vec());
        }
    }
    v
}

fn ihbe_exponent(messages: &[Vec<u8>], advantage: f64) -> u32 {
    let hist = build_histogram(messages);
    let least = hist.iter().map(|e| e.1).min().unwrap() as f64;
    let n = messages.len() as f64;
    let inner = n.sqrt() / (2.0 * (2.0 * std::f64::consts::PI).sqrt() * advantage * (least / n));
    inner.log2().ceil() as u32
}

fn bhe_bound(n: usize, advantage: f64) -> u32 {
    (n as f64 / ((2.0 * advantage).powf(2.0) * std::f64::consts::PI))
        .log2()
        .ceil() as u32
}

fn csv_text(rows: usize) -> String {
    let mut s = String::from("id,order_number,city\n");
    for i in 0..rows {
        s.push_str(&format!("{},{},c{}\n", i, 1000 + (i % 7), i % 3));
    }
    s
}

fn pfse_context(messages: &[Vec<u8>], lambda: f64, scale: f64, advantage: f64) -> ContextPFSE {
    let mut ctx = ContextPFSE::new();
    ctx.key_generate();
    ctx.set_params(&[fixed(lambda), fixed(scale), fixed(advantage)]);
    ctx.partition(messages, &exponential_law(lambda, 256));
    ctx.transform().unwrap();
    ctx
}

#[test]
fn test_read_csv() {
    let content = csv_text(20);
    let column = "order_number";
    let strings = read_csv_exact(content.as_bytes(), column).unwrap();
    println!("{:?}", &strings[..10]);
    assert_eq!(strings.len(), 20);
    assert_eq!(strings[0], "1000");
    assert_eq!(strings[8], "1001");
}

#[test]
fn read_csv_reports_missing_column() {
    let content = csv_text(3);
    assert_eq!(read_csv_exact(content.as_bytes(), "nope"), Err(CsvError::ColumnNotFound));
}

#[test]
fn read_csv_reads_several_columns() {
    let content = csv_text(4);
    let cols = read_csv_multiple(
        content.as_bytes(),
        &["city".to_string(), "order_number".to_string()],
    )
    .unwrap();
    assert_eq!(cols[0], vec!["c0", "c1", "c2", "c0"]);
    assert_eq!(cols[1], vec!["1000", "1001", "1002", "1003"]);
}

#[test]
fn read_csv_rejects_ragged_records() {
    let content = "a,b\n1,2\n3\n";
    assert_eq!(read_csv_exact(content.as_bytes(), "b"), Err(CsvError::Parse));
}

#[test]
fn test_partition() {
    let vec = sample(&[("a", 40), ("b", 25), ("c", 15), ("d", 10), ("e", 6), ("f", 4)]);
    let ctx = pfse_context(&vec, 0.25, 1.0, 2f64.powf(-4.0));
    let documents = ctx.smooth();
    assert!(!documents.is_empty());
    for d in documents.iter() {
        assert!(String::from_utf8(d.clone()).is_ok());
    }
}

#[test]
fn pfse_partition_coverage() {
    let vec = sample(&[("a", 40), ("b", 25), ("c", 15), ("d", 10), ("e", 6), ("f", 4)]);
    let mut ctx = ContextPFSE::new();
    ctx.key_generate();
    ctx.set_params(&[fixed(0.25), fixed(1.0), fixed(0.0625)]);
    ctx.partition(&vec, &exponential_law(0.25, 256));
    let total: usize = ctx.get_partitions().iter().map(|p| p.meta.message_num).sum();
    assert_eq!(total, vec.len());
    for (g, p) in ctx.get_partitions().iter().enumerate() {
        assert_eq!(p.meta.index, g + 1);
        assert!(p.inner.iter().all(|e| e.1 >= 1));
    }
}

#[test]
fn pfse_partition_split() {
    // the partition function lambda * e^(-lambda * g): the first budget is e^-1
    let vec = sample(&[("a", 6), ("b", 2), ("c", 2)]);
    let law: Vec<u64> = (1..=64).map(|g| fixed((-(g as f64)).exp())).collect();
    let mut ctx = ContextPFSE::new();
    ctx.set_params(&[fixed(1.0), fixed(1.0), fixed(0.0625)]);
    ctx.partition(&vec, &law);
    let parts = ctx.get_partitions();
    let budget = parts[0].meta.cumulative_frequency as f64 / FIXED_ONE as f64;
    assert!((budget - 0.3679).abs() < 1e-3);
    assert_eq!(parts[0].inner, vec![(b"a".to_vec(), 5)]);
    let later: usize = parts[1..]
        .iter()
        .flat_map(|p| p.inner.iter())
        .filter(|e| e.0 == b"a".to_vec())
        .map(|e| e.1)
        .sum();
    assert_eq!(later, 1);
    let total: usize = parts.iter().map(|p| p.meta.message_num).sum();
    assert_eq!(total, 10);
}

#[test]
fn pfse_round_trip() {
    let vec = sample(&[("a", 30), ("b", 12), ("c", 5), ("d", 3)]);
    let ctx = pfse_context(&vec, 0.25, 1.0, 0.0625);
    for m in [b"a".to_vec(), b"b".to_vec(), b"c".to_vec(), b"d".to_vec()] {
        let cts = ctx.encrypt(&m).unwrap();
        assert!(!cts.is_empty());
        for ct in cts.iter() {
            assert_eq!(ctx.decrypt(ct), Some(m.clone()));
        }
    }
    assert_eq!(ctx.encrypt(&b"zz".to_vec()), None);
    assert_eq!(ctx.decrypt(&b"not base64!".to_vec()), None);
}

#[test]
fn pfse_local_table_positive() {
    let vec = sample(&[("a", 30), ("b", 12), ("c", 5), ("d", 1)]);
    let ctx = pfse_context(&vec, 0.25, 1.0, 0.0625);
    for (m, entries) in ctx.get_local_table().iter() {
        let sizes: usize = entries.iter().map(|e| e.1).sum();
        assert!(sizes >= 1, "{:?}", m);
    }
    assert_eq!(ctx.get_local_table().len(), 4);
}

#[test]
fn pfse_smooth_multiplicity() {
    let vec = sample(&[("a", 30), ("b", 12), ("c", 5), ("d", 3)]);
    let ctx = pfse_context(&vec, 0.25, 1.0, 0.0625);
    let stream = ctx.smooth();
    let hist = build_histogram(&stream);
    // each ciphertext of a message appears `repeat` times; dummies `ceil(1 / k')` times
    for (m, entries) in ctx.get_local_table().iter() {
        let cts = ctx.encrypt(m).unwrap();
        let mut k = 0;
        for e in entries.iter() {
            for _ in 0..e.1 {
                let count = hist.iter().find(|h| h.0 == cts[k]).unwrap().1;
                assert_eq!(count, e.2);
                k += 1;
            }
        }
    }
    // within a partition, a dummy's count and a member's repeat differ by at most one
    for (g, p) in ctx.get_partitions().iter().enumerate() {
        let repeats: Vec<usize> = ctx
            .get_local_table()
            .iter()
            .flat_map(|(_, es)| es.iter().filter(|e| e.0 == g).map(|e| e.2))
            .collect();
        assert!(!repeats.is_empty());
        for d in p.inner.iter().filter(|e| !ctx.get_local_table().iter().any(|r| r.0 == e.0)) {
            for r in repeats.iter() {
                assert!(d.1 >= *r && d.1 <= *r + 1, "{} vs {}", d.1, r);
            }
        }
    }
}

#[test]
fn pfse_transform_requires_law() {
    let vec = sample(&[("a", 30), ("b", 12), ("c", 5), ("d", 3)]);
    let mut ctx = ContextPFSE::new();
    ctx.key_generate();
    ctx.set_params(&[fixed(0.25), fixed(1.0), fixed(0.0625)]);
    ctx.partition(&vec, &[fixed(0.25)]);
    assert!(ctx.get_partition_num() >= 2);
    assert_eq!(ctx.transform(), Err(FseError::Parameter));
    assert!(ctx.get_local_table().is_empty());
}

#[test]
fn set_params_needs_three_values() {
    let mut ctx = ContextPFSE::new();
    ctx.set_params(&[1, 2]);
    assert!(!ctx.ready());
    ctx.set_params(&[1, 2, 3]);
    assert!(ctx.ready());
    assert_eq!(ctx.get_param_partition(), 1);
}

#[test]
fn test_ihbe() {
    let mut vec = sample(&[("o1", 20), ("o2", 9), ("o3", 5), ("o4", 2)]);
    vec.sort();
    let r = ihbe_exponent(&vec, 2f64.powf(-10.0));
    let mut ctx = ContextLPFSE::new(fixed(2f64.powf(-10.0)), Encoder::Ihbe(EncoderIHBE::new()));
    ctx.key_generate();
    ctx.initialize(&vec, r).unwrap();
    let mut ciphertexts = Vec::new();
    for message in vec.iter() {
        let ciphertext = ctx.encrypt(message).unwrap().remove(0);
        ciphertexts.push(String::from_utf8(ciphertext).unwrap());
    }
    let mut plaintexts = Vec::new();
    for ciphertext in ciphertexts.iter() {
        let plaintext = ctx.decrypt(&ciphertext.as_bytes().to_vec()).unwrap();
        plaintexts.push(plaintext);
    }
    assert_eq!(plaintexts, vec);
}

#[test]
fn test_bhe() {
    let mut vec = sample(&[("o1", 20), ("o2", 9), ("o3", 5), ("o4", 2)]);
    vec.sort();
    let bound = bhe_bound(vec.len(), 2f64.powf(-10.0));
    let mut ctx = ContextLPFSE::new(fixed(2f64.powf(-10.0)), Encoder::Bhe(EncoderBHE::new()));
    ctx.key_generate();
    ctx.initialize(&vec, bound).unwrap();
    let mut ciphertexts = Vec::new();
    for message in vec.iter() {
        let ciphertext = ctx.encrypt(message).unwrap().remove(0);
        ciphertexts.push(String::from_utf8(ciphertext).unwrap());
    }
    let mut plaintexts = Vec::new();
    for ciphertext in ciphertexts.iter() {
        let plaintext = ctx.decrypt(&ciphertext.as_bytes().to_vec()).unwrap();
        plaintexts.push(plaintext);
    }
    assert_eq!(plaintexts, vec);
}

#[test]
fn ihbe_interval_table() {
    let vec = sample(&[("x", 8), ("y", 2)]);
    let r = ihbe_exponent(&vec, 2f64.powf(-10.0));
    let mut enc = EncoderIHBE::new();
    enc.initialize(&vec, r).unwrap();
    let x = enc.local_table.iter().find(|e| e.0 == b"x".to_vec()).unwrap().1;
    let y = enc.local_table.iter().find(|e| e.0 == b"y".to_vec()).unwrap().1;
    assert_eq!(x.1, 0);
    assert_eq!(x.2, y.1);
    assert_eq!(y.2, 1u64 << r);
    let ratio = (x.2 - x.1) as f64 / (y.2 - y.1) as f64;
    assert!((ratio - 4.0).abs() < 0.01);
}

#[test]
fn ihbe_intervals_partition_tag_space() {
    let vec = sample(&[("a", 50), ("b", 30), ("c", 15), ("d", 5)]);
    let r = ihbe_exponent(&vec, 2f64.powf(-6.0));
    let mut enc = EncoderIHBE::new();
    enc.initialize(&vec, r).unwrap();
    let mut rows: Vec<_> = enc.local_table.iter().map(|e| e.1).collect();
    rows.sort_by_key(|e| e.1);
    assert_eq!(rows[0].1, 0);
    for w in rows.windows(2) {
        assert_eq!(w[0].2, w[1].1);
    }
    assert_eq!(rows.last().unwrap().2, 1u64 << r);
    assert_eq!(enc.initialize(&vec, 41), Err(FseError::Parameter));
}

#[test]
fn bhe_tag_uniformity() {
    let vec = sample(&[("a", 6), ("b", 2)]);
    let mut enc = EncoderBHE::new();
    enc.initialize(&vec, 3).unwrap();
    // length 2: band(a) = ceil(6 * 4 / 6) = 4, band(b) = ceil(2 * 4 / 6) = 2
    assert_eq!(enc.length, 2);
    assert_eq!(enc.encode_all(&b"a".to_vec()).unwrap().len(), 4);
    assert_eq!(enc.encode_all(&b"b".to_vec()).unwrap().len(), 2);
    let mut seen = [0usize; 4];
    let draws = 4000;
    for _ in 0..draws {
        let token = enc.encode(&b"a".to_vec()).unwrap();
        let tag = u64::from_le_bytes(token[token.len() - 8..].try_into().unwrap());
        seen[tag as usize] += 1;
    }
    for s in seen.iter() {
        assert!((*s as f64 - 1000.0).abs() < 200.0, "{:?}", seen);
    }
    assert_eq!(enc.initialize(&vec, 0), Err(FseError::Parameter));
}

#[test]
fn dte_round_trip() {
    let t = sample(&[("a", 2), ("b", 1), ("c", 1)]);
    let mut ctx = ContextNative::new(false);
    ctx.key_generate();
    let mut cts = Vec::new();
    for m in t.iter() {
        cts.push(ctx.encrypt(m).unwrap().remove(0));
    }
    assert_eq!(cts[0], cts[1]);
    let back: Vec<Vec<u8>> = cts.iter().map(|c| ctx.decrypt(c).unwrap()).collect();
    assert_eq!(back, t);
    assert_eq!(ctx.search_tokens(&b"a".to_vec()).unwrap(), vec![cts[0].clone()]);
}

#[test]
fn rnd_uniqueness() {
    let t = sample(&[("a", 2), ("b", 1), ("c", 1)]);
    let mut ctx = ContextNative::new(true);
    ctx.key_generate();
    let mut cts = Vec::new();
    for m in t.iter() {
        cts.push(ctx.encrypt(m).unwrap().remove(0));
    }
    for i in 0..cts.len() {
        for j in i + 1..cts.len() {
            assert_ne!(cts[i], cts[j]);
        }
    }
    let back: Vec<Vec<u8>> = cts.iter().map(|c| ctx.decrypt(c).unwrap()).collect();
    assert_eq!(back, t);
    let search = ctx.search_tokens(&b"a".to_vec()).unwrap();
    assert_eq!(search, vec![cts[0].clone(), cts[1].clone()]);
    assert_eq!(ctx.search_tokens(&b"zz".to_vec()), None);
}

#[test]
fn encrypt_without_key_fails() {
    let mut ctx = ContextNative::new(false);
    assert_eq!(ctx.encrypt(&b"a".to_vec()), None);
    let ct = {
        let mut keyed = ContextNative::new(false);
        keyed.key_generate();
        keyed.encrypt(&b"a".to_vec()).unwrap().remove(0)
    };
    assert_ne!(ct, b"a".to_vec());
    assert_eq!(ctx.decrypt(&ct), None);
}

#[test]
fn lpfse_search_tokens_cover_homophones() {
    let vec = sample(&[("a", 6), ("b", 2)]);
    let mut ctx = ContextLPFSE::new(fixed(0.25), Encoder::Bhe(EncoderBHE::new()));
    ctx.key_generate();
    ctx.initialize(&vec, 3).unwrap();
    let tokens = ctx.search_tokens(&b"a".to_vec()).unwrap();
    assert_eq!(tokens.len(), 4);
    for _ in 0..20 {
        let c = ctx.encrypt(&b"a".to_vec()).unwrap().remove(0);
        assert!(tokens.contains(&c));
        assert_eq!(ctx.decrypt(&c), Some(b"a".to_vec()));
    }
    assert_eq!(ctx.search_tokens(&b"q".to_vec()), None);
}

#[test]
fn histogram_counts_and_orders() {
    let data = sample(&[("b", 2), ("a", 3), ("c", 1)]);
    let h = build_histogram(&data);
    assert_eq!(h, vec![(b"b".to_vec(), 2), (b"a".to_vec(), 3), (b"c".to_vec(), 1)]);
    let v = build_histogram_vec(&h);
    assert_eq!(v, vec![(b"a".to_vec(), 3), (b"b".to_vec(), 2), (b"c".to_vec(), 1)]);
    assert!(build_histogram(&[]).is_empty());
}

#[test]
fn intersect_is_multiset_intersection() {
    let l = vec![b"x".to_vec(), b"y".to_vec(), b"x".to_vec(), b"z".to_vec()];
    let r = vec![b"x".to_vec(), b"z".to_vec(), b"w".to_vec()];
    assert_eq!(intersect(&l, &r), vec![b"x".to_vec(), b"z".to_vec()]);
    assert!(intersect(&l, &[]).is_empty());
    let b_a = vec![b"b".to_vec(), b"a".to_vec()];
    let a_b = vec![b"a".to_vec(), b"b".to_vec()];
    assert_eq!(intersect(&b_a, &a_b), a_b);
    assert_eq!(intersect(&a_b, &b_a), a_b);
    assert_eq!(intersect(&b_a, &b_a), a_b);
}

#[test]
fn chunks_hold_at_most_the_limit() {
    let tokens: Vec<Vec<u8>> = (0..(MAX_DISJUNCTS * 2 + 5)).map(|i| i.to_le_bytes().to_vec()).collect();
    let chunks = chunk_tokens(&tokens);
    assert_eq!(chunks.len(), 3);
    assert_eq!(chunks[0].len(), MAX_DISJUNCTS);
    assert_eq!(chunks[2].len(), 5);
    assert_eq!(chunks.concat(), tokens);
    assert!(chunk_tokens(&Vec::new()).is_empty());
}

#[test]
fn attack_types_differ() {
    assert_ne!(AttackType::LpOptimization, AttackType::MleAttack);
}

#[test]
fn ihbe_raises_a_rare_second_message() {
    let vec = sample(&[("a", 1000), ("b", 1)]);
    let mut enc = EncoderIHBE::new();
    enc.initialize(&vec, 8).unwrap();
    let a = enc.local_table.iter().find(|e| e.0 == b"a".to_vec()).unwrap().1;
    let b = enc.local_table.iter().find(|e| e.0 == b"b".to_vec()).unwrap().1;
    // b's frequency 1/1001 is below 2^-9: its count is raised to ceil(1001 / 512)
    assert_eq!(b.0, 2);
    assert_eq!(a.0, 1000);
    assert_eq!((a.1, a.2), (0, 256));
    assert_eq!(b.1, a.2);
    assert!(enc.encode(&b"a".to_vec()).is_some());
    assert_eq!(enc.encode(&b"c".to_vec()), None);
}

#[test]
fn cdf_sums_the_leading_counts() {
    let h = vec![(b"a".to_vec(), 5usize), (b"b".to_vec(), 3), (b"c".to_vec(), 2)];
    assert_eq!(fse::util::compute_cdf(0, &h, 10), 0);
    assert_eq!(fse::util::compute_cdf(2, &h, 10), (8u128 * FIXED_ONE as u128 / 10) as u64);
    assert_eq!(fse::util::compute_cdf(3, &h, 10), 0);
}

#[test]
fn frequency_table_divides_by_partition_total() {
    let p = fse::pfse::Partition::new(vec![(b"a".to_vec(), 3), (b"b".to_vec(), 1)], 1, 0);
    let t = p.build_frequency_table();
    assert_eq!(t[0], (b"a".to_vec(), FIXED_ONE / 4 * 3));
    assert_eq!(t[1], (b"b".to_vec(), FIXED_ONE / 4));
}

#[test]
fn integer_messages_round_trip() {
    let m = fse::util::i32_message(-7);
    assert_eq!(m, (-7i32).to_le_bytes().to_vec());
    assert_eq!(fse::util::message_i32(&m), Some(-7));
    assert_eq!(fse::util::message_i32(&vec![1, 2, 3]), None);
}

#[test]
fn local_table_keys_are_checked() {
    let vec = sample(&[("a", 30), ("b", 12), ("c", 5), ("d", 3)]);
    let ctx = pfse_context(&vec, 0.25, 1.0, 0.0625);
    assert!(fse::table::check_keys_distinct(ctx.get_local_table()));
    let dup: Vec<(Vec<u8>, Vec<usize>)> = vec![(b"a".to_vec(), vec![]), (b"a".to_vec(), vec![1])];
    assert!(!fse::table::check_keys_distinct(&dup));
}

#[test]
fn empty_sample_gives_no_partitions() {
    let mut ctx = ContextPFSE::new();
    ctx.set_params(&[fixed(0.25), fixed(1.0), fixed(0.0625)]);
    ctx.partition(&[], &exponential_law(0.25, 8));
    assert_eq!(ctx.get_partition_num(), 0);
}

#[test]
fn histogram_order_is_stable() {
    let h = vec![(b"x".to_vec(), 2usize), (b"y".to_vec(), 5), (b"z".to_vec(), 2), (b"w".to_vec(), 5)];
    let v = build_histogram_vec(&h);
    assert_eq!(v, vec![(b"y".to_vec(), 5), (b"w".to_vec(), 5), (b"x".to_vec(), 2), (b"z".to_vec(), 2)]);
}

#[test]
fn transform_keeps_dummies_out_of_the_table() {
    let vec = sample(&[("a", 30), ("b", 12), ("c", 5), ("d", 3)]);
    let ctx = pfse_context(&vec, 0.25, 1.0, 0.0625);
    let keys: Vec<Vec<u8>> = ctx.get_local_table().iter().map(|e| e.0.clone()).collect();
    let mut sorted = keys.clone();
    sorted.sort();
    assert_eq!(sorted, vec![b"a".to_vec(), b"b".to_vec(), b"c".to_vec(), b"d".to_vec()]);
}
