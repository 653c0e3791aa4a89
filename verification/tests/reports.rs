use twin_prime_engine::evaluate::count_twins;
use twin_prime_engine::finder::{Candidate, FinderMode, FinderResult};
use twin_prime_engine::ranking::{finalize_ranking, find_twin_candidates, soft_rerank};
use twin_prime_engine::report::{result_csv, result_to_json};

fn cand(n: usize, rank_value: Option<usize>) -> Candidate {
    Candidate {
        n,
        pair_right: n + 2,
        mode: Some(FinderMode::Fast),
        hard_cutoff: 211,
        soft_to: Some(1000),
        score_z: None,
        extra_blocker: rank_value.filter(|&v| v <= 1000),
        rank_value,
        rank: 0,
    }
}

#[test]
fn soft_rerank_sorts_by_key_then_n() {
    let input = vec![cand(5, Some(223)), cand(11, Some(1001)), cand(17, Some(223)), cand(23, None), cand(29, Some(500))];
    let out = soft_rerank(input, 1000);
    let ns: Vec<usize> = out.iter().map(|c| c.n).collect();
    // keys: 5->223, 11->1001, 17->223, 23->1001 (none), 29->500
    assert_eq!(ns, vec![11, 23, 29, 5, 17]);
}

#[test]
fn ranking_cut_and_numbering() {
    let input = vec![cand(5, None), cand(11, None), cand(17, None)];
    let out = finalize_ranking(input.clone(), Some(2));
    assert_eq!(out.len(), 2);
    assert_eq!((out[0].n, out[0].rank), (5, 1));
    assert_eq!((out[1].n, out[1].rank), (11, 2));
    let all = finalize_ranking(input.clone(), None);
    assert_eq!(all.iter().map(|c| c.rank).collect::<Vec<_>>(), vec![1, 2, 3]);
    let none = finalize_ranking(input, Some(0));
    assert!(none.is_empty());
}

#[test]
fn result_json_text() {
    let r = find_twin_candidates(40, FinderMode::Fast, None, Some(2), None);
    let json = result_to_json(&r, &vec![None, None]);
    let expect = "{\n  \"limit_n\": 40,\n  \"mode\": \"fast\",\n  \"hard_cutoff\": 211,\n  \"soft_to\": null,\n  \"score_z\": null,\n  \"candidate_count\": 2,\n  \"engine\": \"rust\",\n  \"ranking\": \"natural_order\",\n  \"candidates\": [\n    {\"rank\": 1, \"n\": 5, \"pair\": [5, 7], \"mode\": \"fast\", \"hard_cutoff\": 211, \"soft_to\": null, \"score_z\": null, \"extra_blocker\": null, \"rank_value\": null, \"sieve_score\": null},\n    {\"rank\": 2, \"n\": 11, \"pair\": [11, 13], \"mode\": \"fast\", \"hard_cutoff\": 211, \"soft_to\": null, \"score_z\": null, \"extra_blocker\": null, \"rank_value\": null, \"sieve_score\": null}\n  ]\n}\n";
    assert_eq!(json, expect);
    let scored = result_to_json(&r, &vec![Some("0.500000000000".to_string()), None]);
    assert!(scored.contains("\"sieve_score\": 0.500000000000}"));
}

#[test]
fn result_csv_text() {
    let r = find_twin_candidates(40, FinderMode::HighPrecision, Some(600), None, None);
    let scores = vec![None; r.candidates.len()];
    let csv = result_csv(&r, &scores);
    let mut lines = csv.lines();
    assert_eq!(lines.next(), Some("rank,n,left,right,mode,hard_cutoff,ranking,score_z,sieve_score,extra_blocker,rank_value"));
    assert_eq!(lines.next(), Some("1,5,5,7,high_precision,503,soft_rerank(soft_to=600),,,,601"));
    assert_eq!(csv.lines().count(), r.candidates.len() + 1);
}

#[test]
fn twin_counts_small() {
    // corridor up to 100: twin pairs (5,7) (11,13) (17,19) (29,31) (41,43) (59,61) (71,73)
    let r = find_twin_candidates(100, FinderMode::Fast, None, None, None);
    let c = count_twins(&r);
    assert_eq!(c.total_twins, 7);
    assert_eq!(c.true_twins, 7);
    let exact = FinderResult { candidates: vec![], candidate_count: 0, ..r.clone() };
    assert_eq!(count_twins(&exact).true_twins, 0);
}
