use twin_prime_engine::campaign::{
    campaign_batch, campaign_should_continue, digit_head_tail, export_should_continue, post_plan_for,
    record_campaign_batch, record_export_group, record_search_batch, record_twin_batch, round_offsets, search_should_continue,
    start_campaign, start_search, start_twin_tally, CampaignConfig, ExportProgress,
};
use twin_prime_engine::corridor::{
    base_sieve, collect_survivor_offsets, corridor_batch_survivors, deep_sieve, depth_for_level, extended_sieve,
    get_params, sieve_tier, SieveData, SieveDepth,
};
use twin_prime_engine::fixed_n::{build_k_sieve_plan, generate_survivor_batch};

fn residues(primes: &[u32], m_start: u128) -> Vec<u32> {
    primes.iter().map(|&p| (m_start % p as u128) as u32).collect()
}

fn blocked(primes: &[u32], m: u128) -> bool {
    primes.iter().any(|&p| {
        let p = p as u128;
        (6 * m - 1) % p == 0 || (6 * m + 1) % p == 0
    })
}

#[test]
fn sieve_tables_by_tier() {
    let d = SieveData::build(1_000_100);
    assert_eq!(d.primes_small.first(), Some(&5));
    assert_eq!(d.primes_small.len(), 78498 - 2);
    assert!(d.primes_small.iter().all(|&p| p <= 1_000_000));
    assert!(d.primes_ext.iter().all(|&p| p > 1_000_000 && p <= 1_000_100));
    assert_eq!(d.primes_ext, vec![1_000_003, 1_000_033, 1_000_037, 1_000_039, 1_000_081, 1_000_099]);
    assert!(d.primes_deep.is_empty());
    for (i, &p) in d.primes_ext.iter().enumerate() {
        assert_eq!(6 * d.inv6_ext[i] as u64 % p as u64, 1);
    }
    assert_eq!(d.cache_bytes(), 4 * 2 * (d.primes_small.len() + d.primes_ext.len()));
}

#[test]
fn tier_sieve_clears_exactly_the_blocked_indices() {
    let d = SieveData::build(1000);
    let m_start: u128 = 10u128.pow(20) / 6;
    let batch = 700;
    let mut alive = vec![u64::MAX; (batch + 63) / 64];
    sieve_tier(&mut alive, batch, &d.primes_small, &d.inv6_small, &residues(&d.primes_small, m_start));
    let offs = collect_survivor_offsets(&alive, batch);
    let expect: Vec<u64> = (0..batch as u64).filter(|&j| !blocked(&d.primes_small, m_start + j as u128)).collect();
    assert_eq!(offs, expect);
}

#[test]
fn corridor_batch_by_depth() {
    let d = SieveData::build(1_000_200);
    let m_start: u128 = 10u128.pow(30) / 6;
    let small = residues(&d.primes_small, m_start);
    let ext = residues(&d.primes_ext, m_start);
    let deep = residues(&d.primes_deep, m_start);
    let batch = 5000;
    let base_only = corridor_batch_survivors(batch, SieveDepth::Base, &d, &small, &ext, &deep);
    let extended = corridor_batch_survivors(batch, SieveDepth::Extended, &d, &small, &ext, &deep);
    let expect_base: Vec<u64> =
        (0..batch as u64).filter(|&j| !blocked(&d.primes_small, m_start + j as u128)).collect();
    assert_eq!(base_only, expect_base);
    let mut all = d.primes_small.clone();
    all.extend(&d.primes_ext);
    let expect_ext: Vec<u64> = (0..batch as u64).filter(|&j| !blocked(&all, m_start + j as u128)).collect();
    assert_eq!(extended, expect_ext);
    let mut alive = vec![u64::MAX; (batch + 63) / 64];
    base_sieve(&mut alive, batch, &small, &d);
    extended_sieve(&mut alive, batch, &ext, &d);
    deep_sieve(&mut alive, batch, &deep, &d);
    assert_eq!(collect_survivor_offsets(&alive, batch), expect_ext);
}

#[test]
fn depth_names_and_levels() {
    assert_eq!(SieveDepth::from_str("base"), Ok(SieveDepth::Base));
    assert_eq!(SieveDepth::from_str("extended"), Ok(SieveDepth::Extended));
    assert_eq!(SieveDepth::from_str("deep"), Ok(SieveDepth::Deep));
    assert_eq!(SieveDepth::from_str("huge"), Err("unsupported sieve_depth: huge".to_string()));
    assert_eq!(SieveDepth::Extended.as_str(), "extended");
    assert_eq!(depth_for_level(0), SieveDepth::Base);
    assert_eq!(depth_for_level(1), SieveDepth::Extended);
    assert_eq!(depth_for_level(7), SieveDepth::Deep);
}

#[test]
fn params_by_digits() {
    assert_eq!(get_params(100), (512_000, 0));
    assert_eq!(get_params(150), (512_000, 0));
    assert_eq!(get_params(151), (2_048_000, 1));
    assert_eq!(get_params(1000), (5_120_000, 1));
    assert_eq!(get_params(2000), (10_240_000, 2));
    assert_eq!(get_params(5000), (20_480_000, 2));
}

#[test]
fn campaign_progress() {
    let mut p = start_campaign(7);
    assert!(campaign_should_continue(&p, Some(2), None));
    record_campaign_batch(&mut p, 10, 8, 1);
    record_campaign_batch(&mut p, 12, 9, 0);
    assert_eq!(p.next_batch, 9);
    assert_eq!(p.batches_completed, 2);
    assert_eq!(p.total_base_survivors, 22);
    assert_eq!(p.total_survivors, 17);
    assert_eq!(p.total_hits, 1);
    assert!(!campaign_should_continue(&p, Some(2), None));
    assert!(!campaign_should_continue(&p, None, Some(1)));
    assert!(campaign_should_continue(&p, None, Some(2)));
}

#[test]
fn campaign_batch_with_post_sieve() {
    let config = CampaignConfig {
        n: 1000,
        k_start: 3,
        k_batch_size: 4096,
        sieve_limit: 2000,
        post_sieve_limit: Some(20_000),
        backend: "compact_export".to_string(),
        export_dir: None,
    };
    let plan = build_k_sieve_plan(1000, 2000);
    let post = post_plan_for(&config);
    assert!(post.is_some());
    let (batch, base) = campaign_batch(&config, 1, &plan, &post).unwrap();
    let direct = generate_survivor_batch(1000, 3, 4096, 20_000, 1).unwrap();
    assert_eq!(batch.survivors, direct.survivors);
    assert_eq!(batch.sieve_limit, 20_000);
    assert!(base > batch.survivors.len());
    let no_post = CampaignConfig { post_sieve_limit: Some(1000), ..config.clone() };
    assert!(post_plan_for(&no_post).is_none());
    let (plain, base2) = campaign_batch(&no_post, 1, &plan, &None).unwrap();
    assert_eq!(plain.survivors.len(), base2);
    assert_eq!(plain.sieve_limit, 2000);
}

#[test]
fn search_and_export_progress() {
    let mut s = start_search(5);
    record_search_batch(&mut s, 100, 100, 3, 0);
    record_search_batch(&mut s, 90, 40, 2, 1);
    assert_eq!(s.batch_index, 7);
    assert_eq!(s.batches_completed, 2);
    assert_eq!(s.total_sieved, 190);
    assert_eq!(s.tested_plus, 140);
    assert_eq!(s.tested_minus, 5);
    assert_eq!(s.total_finds, 1);
    assert!(s.total_finds <= s.tested_minus && s.tested_minus <= s.tested_plus && s.tested_plus <= s.total_sieved);
    assert!(!search_should_continue(&s, None, Some(1)));
    assert!(search_should_continue(&s, Some(3), None));
    let mut e = ExportProgress { next_batch: 0, groups_completed: 0, total_survivors: 0 };
    record_export_group(&mut e, 4, 30);
    assert_eq!((e.next_batch, e.groups_completed, e.total_survivors), (4, 1, 30));
    assert!(!export_should_continue(&e, Some(1)));
    assert!(export_should_continue(&e, None));
}

#[test]
fn large_search_helpers() {
    assert_eq!(round_offsets(10, 4, 100, 250), vec![10, 110, 210, 60]);
    assert_eq!(round_offsets(0, 0, 5, 7), Vec::<u64>::new());
    let mut t = start_twin_tally();
    assert_eq!((t.total_raw, t.total_surv, t.total_tested, t.batches), (0, 0, 0, 0));
    record_twin_batch(&mut t, 512_000, 20_000, 300);
    record_twin_batch(&mut t, 512_000, 19_000, 19_000);
    assert_eq!((t.total_raw, t.total_surv, t.total_tested, t.batches), (1_024_000, 39_000, 19_300, 2));
    assert!(t.total_tested <= t.total_surv && t.total_surv <= t.total_raw);
    let digits = "9".repeat(100);
    let (h, tl) = digit_head_tail(&digits);
    assert_eq!(h.len(), 40);
    assert_eq!(tl.len(), 40);
    let (h2, t2) = digit_head_tail("12345");
    assert_eq!((h2.as_str(), t2.as_str()), ("12345", "12345"));
}

#[test]
fn corridor_sieve_keeps_twin_pairs() {
    let d = SieveData::build(2000);
    let m_start: u128 = 1_000_000;
    let small = residues(&d.primes_small, m_start);
    let survivors = corridor_batch_survivors(3000, SieveDepth::Base, &d, &small, &[], &[]);
    let is_prime = |x: u128| x > 1 && (2..).take_while(|d| d * d <= x).all(|d| x % d != 0);
    let mut twins = 0;
    for j in 0..3000u64 {
        let m = m_start + j as u128;
        if is_prime(6 * m - 1) && is_prime(6 * m + 1) {
            twins += 1;
            assert!(survivors.contains(&j), "twin at offset {}", j);
        }
    }
    assert!(twins > 0);
}

fn campaign_survivor_totals(n: u64, k_batch_size: usize, batches: u64, post: Option<usize>) -> (usize, usize) {
    let config = CampaignConfig {
        n,
        k_start: 3,
        k_batch_size,
        sieve_limit: 50_000,
        post_sieve_limit: post,
        backend: "compact_export".to_string(),
        export_dir: None,
    };
    let plan = build_k_sieve_plan(n, 50_000);
    let post_plan = post_plan_for(&config);
    let mut progress = start_campaign(0);
    for _ in 0..batches {
        let (batch, base) = campaign_batch(&config, progress.next_batch, &plan, &post_plan).unwrap();
        record_campaign_batch(&mut progress, base, batch.survivors.len(), 0);
    }
    (progress.total_base_survivors as usize, progress.total_survivors as usize)
}

#[test]
fn post_sieve_at_388k_digits() {
    let (base, post) = campaign_survivor_totals(1_288_907, 4096, 4, Some(200_000));
    assert_eq!(base, 377);
    assert_eq!(post, 296);
}

#[test]
fn post_sieve_at_n_1000() {
    let (base, post) = campaign_survivor_totals(1000, 10_000, 5, Some(200_000));
    assert_eq!(base, 1032);
    assert_eq!(post, 805);
}

#[test]
fn round_batches_do_not_overlap() {
    for base in [0u64, 17, 999, 4_999_000] {
        let offs = round_offsets(base, 12, 512_000, 10_000_000);
        for i in 0..offs.len() {
            for j in i + 1..offs.len() {
                let (a, b) = (offs[i], offs[j]);
                assert!(a + 512_000 <= b || b + 512_000 <= a, "base {} i {} j {}", base, i, j);
            }
        }
    }
    // with more batch room than range, two batches of a round can overlap
    let tight = round_offsets(10, 4, 100, 250);
    assert!(tight[3] < tight[0] + 100 && tight[0] < tight[3] + 100);
}
