//! The finder's reports: mode names, grouped numbers, and the JSON and CSV
//! texts of a result. Sieve scores arrive already formatted.
use vstd::prelude::*;
use vstd::string::*;

use crate::finder::{Candidate, FinderMode, FinderResult};
use crate::text::{decimal, escape_json, json_escaped, push_decimal, push_padded_decimal, text_eq, zero_padded};

verus! {

/// The name of a mode; `custom` for a custom cutoff.
pub open spec fn spec_mode_name(mode: Option<FinderMode>) -> Seq<char> {
    match mode {
        Some(FinderMode::Fast) => "fast"@,
        Some(FinderMode::HighPrecision) => "high_precision"@,
        Some(FinderMode::ExactRange) => "exact_range"@,
        None => "custom"@,
    }
}

/// The name of a mode; `custom` for a custom cutoff.
pub fn mode_name(mode: Option<FinderMode>) -> (s: &'static str)
    ensures
        s@ == spec_mode_name(mode),
{
    match mode {
        Some(FinderMode::Fast) => "fast",
        Some(FinderMode::HighPrecision) => "high_precision",
        Some(FinderMode::ExactRange) => "exact_range",
        None => "custom",
    }
}

/// The mode named `s`: `fast`, `high_precision` or `exact_range`.
pub fn parse_mode(s: &str) -> (r: Option<FinderMode>)
    ensures
        r matches Some(m) ==> spec_mode_name(Some(m)) == s@,
        r is None ==> s@ != "fast"@ && s@ != "high_precision"@ && s@ != "exact_range"@,
{
    if text_eq(s, "fast") {
        Some(FinderMode::Fast)
    } else if text_eq(s, "high_precision") {
        Some(FinderMode::HighPrecision)
    } else if text_eq(s, "exact_range") {
        Some(FinderMode::ExactRange)
    } else {
        None
    }
}

/// `v` in decimal with its digits grouped by threes with commas.
pub open spec fn grouped(v: nat) -> Seq<char>
    decreases v,
{
    if v < 1000 {
        decimal(v)
    } else {
        grouped(v / 1000) + seq![','] + zero_padded(decimal(v % 1000), 3)
    }
}

/// `n` in decimal with thousands separated by commas.
pub fn format_number(n: usize) -> (s: String)
    ensures
        s@ == grouped(n as nat),
    decreases n,
{
    if n < 1000 {
        let mut s = String::new();
        push_decimal(&mut s, n as u64);
        proof {
            assert(s@ =~= grouped(n as nat));
        }
        s
    } else {
        let mut s = format_number(n / 1000);
        proof {
            reveal_strlit(",");
        }
        s.append(",");
        push_padded_decimal(&mut s, (n % 1000) as u64, 3);
        proof {
            assert(s@ =~= grouped(n as nat));
        }
        s
    }
}

/// A JSON number, or `null` for none.
pub open spec fn json_opt(v: Option<usize>) -> Seq<char> {
    match v {
        Some(x) => decimal(x as nat),
        None => "null"@,
    }
}

fn push_opt(out: &mut String, v: Option<usize>)
    ensures
        final(out)@ == old(out)@ + json_opt(v),
{
    match v {
        Some(x) => push_decimal(out, x as u64),
        None => out.append("null"),
    }
}

/// The JSON object of one candidate, on one line; `score` is its formatted sieve
/// score, if it has one.
pub open spec fn candidate_json(c: Candidate, score: Option<Seq<char>>) -> Seq<char> {
    "    {\"rank\": "@ + decimal(c.rank as nat) + ", \"n\": "@ + decimal(c.n as nat) + ", \"pair\": ["@ + decimal(
        c.n as nat,
    ) + ", "@ + decimal(c.pair_right as nat) + "], \"mode\": \""@ + json_escaped(spec_mode_name(c.mode))
        + "\", \"hard_cutoff\": "@ + decimal(c.hard_cutoff as nat) + ", \"soft_to\": "@ + json_opt(c.soft_to)
        + ", \"score_z\": "@ + json_opt(c.score_z) + ", \"extra_blocker\": "@ + json_opt(c.extra_blocker)
        + ", \"rank_value\": "@ + json_opt(c.rank_value) + ", \"sieve_score\": "@ + match score {
        Some(t) => t,
        None => "null"@,
    } + "}"@
}

/// `text` holds `part` somewhere, as a run of consecutive characters.
pub open spec fn contains_at_some_place(text: Seq<char>, part: Seq<char>) -> bool {
    exists|i: int| 0 <= i && i + part.len() <= text.len() && #[trigger] text.subrange(i, i + part.len()) == part
}

/// The JSON object of a candidate reports its own soft blocker and soft rank:
/// the key `"extra_blocker"` is followed by the blocker's decimal digits (or
/// `null` when it has none) and then by the key `"rank_value"`, which is
/// followed by the rank value's digits (or `null`) and then by `"sieve_score"`.
pub proof fn lemma_candidate_json_reports_blocker(c: Candidate, score: Option<Seq<char>>)
    ensures
        contains_at_some_place(
            candidate_json(c, score),
            "\"extra_blocker\": "@ + match c.extra_blocker {
                Some(b) => decimal(b as nat),
                None => "null"@,
            } + ", \"rank_value\": "@,
        ),
        contains_at_some_place(
            candidate_json(c, score),
            ", \"rank_value\": "@ + match c.rank_value {
                Some(v) => decimal(v as nat),
                None => "null"@,
            } + ", \"sieve_score\": "@,
        ),
{
    let line = candidate_json(c, score);
    let x = match c.extra_blocker {
        Some(b) => decimal(b as nat),
        None => "null"@,
    };
    let field = "\"extra_blocker\": "@ + x + ", \"rank_value\": "@;
    let pre = "    {\"rank\": "@ + decimal(c.rank as nat) + ", \"n\": "@ + decimal(c.n as nat) + ", \"pair\": ["@ + decimal(
        c.n as nat,
    ) + ", "@ + decimal(c.pair_right as nat) + "], \"mode\": \""@ + json_escaped(spec_mode_name(c.mode))
        + "\", \"hard_cutoff\": "@ + decimal(c.hard_cutoff as nat) + ", \"soft_to\": "@ + json_opt(c.soft_to)
        + ", \"score_z\": "@ + json_opt(c.score_z);
    let rest = json_opt(c.rank_value) + ", \"sieve_score\": "@ + match score {
        Some(t) => t,
        None => "null"@,
    } + "}"@;
    reveal_strlit(", \"extra_blocker\": ");
    reveal_strlit("\"extra_blocker\": ");
    reveal_strlit(", ");
    assert(", \"extra_blocker\": "@ =~= ", "@ + "\"extra_blocker\": "@);
    assert(json_opt(c.extra_blocker) == x);
    assert(line =~= pre + ", "@ + field + rest);
    let i: int = pre.len() as int + 2;
    assert(line.subrange(i, i + field.len()) =~= field);
    assert(i + field.len() <= line.len());
    assert(line.subrange(i, i + field.len()) == field);
    assert(contains_at_some_place(line, field));
    let y = match c.rank_value {
        Some(v) => decimal(v as nat),
        None => "null"@,
    };
    let field2 = ", \"rank_value\": "@ + y + ", \"sieve_score\": "@;
    let pre2 = pre + ", \"extra_blocker\": "@ + x;
    let rest2 = (match score {
        Some(t) => t,
        None => "null"@,
    }) + "}"@;
    assert(json_opt(c.rank_value) == y);
    assert(line =~= pre2 + field2 + rest2);
    let i2: int = pre2.len() as int;
    assert(line.subrange(i2, i2 + field2.len()) =~= field2);
    assert(contains_at_some_place(line, field2));
}

/// One entry of the JSON list: the object, a comma unless it is the last of
/// the list, and a newline.
pub open spec fn candidate_entry(c: Candidate, score: Option<Seq<char>>, last: bool) -> Seq<char> {
    candidate_json(c, score) + (if last { ""@ } else { ","@ }) + "\n"@
}

/// The candidate lines of the JSON list, for a list of `total` candidates.
pub open spec fn candidates_json(cs: Seq<Candidate>, scores: Seq<Option<String>>, total: int) -> Seq<char>
    decreases cs.len(),
{
    if cs.len() == 0 {
        seq![]
    } else {
        let i = cs.len() - 1;
        candidates_json(cs.drop_last(), scores.drop_last(), total) + candidate_entry(
            cs[i],
            score_view(scores[i]),
            i + 1 == total,
        )
    }
}

/// The JSON text of a finder result.
pub open spec fn result_json(r: FinderResult, scores: Seq<Option<String>>) -> Seq<char> {
    "{\n  \"limit_n\": "@ + decimal(r.limit_n as nat) + ",\n  \"mode\": \""@ + json_escaped(spec_mode_name(r.mode))
        + "\",\n  \"hard_cutoff\": "@ + decimal(r.hard_cutoff as nat) + ",\n  \"soft_to\": "@ + json_opt(r.soft_to)
        + ",\n  \"score_z\": "@ + json_opt(r.score_z) + ",\n  \"candidate_count\": "@ + decimal(
        r.candidate_count as nat,
    ) + ",\n  \"engine\": \"rust\",\n  \"ranking\": \""@ + json_escaped(r.ranking@) + "\",\n  \"candidates\": [\n"@
        + candidates_json(r.candidates@, scores, r.candidates@.len() as int) + "  ]\n}\n"@
}

/// The view of a formatted score.
pub open spec fn score_view(score: Option<String>) -> Option<Seq<char>> {
    match score {
        Some(t) => Some(t@),
        None => None,
    }
}

/// The JSON object of one candidate, on one line.
fn candidate_json_line(c: &Candidate, score: &Option<String>) -> (line: String)
    ensures
        line@ == candidate_json(*c, score_view(*score)),
{
    let mut line = String::from_str("    {\"rank\": ");
    push_decimal(&mut line, c.rank as u64);
    line.append(", \"n\": ");
    push_decimal(&mut line, c.n as u64);
    line.append(", \"pair\": [");
    push_decimal(&mut line, c.n as u64);
    line.append(", ");
    push_decimal(&mut line, c.pair_right as u64);
    line.append("], \"mode\": \"");
    let cmode = escape_json(mode_name(c.mode));
    line.append(cmode.as_str());
    line.append("\", \"hard_cutoff\": ");
    push_decimal(&mut line, c.hard_cutoff as u64);
    line.append(", \"soft_to\": ");
    push_opt(&mut line, c.soft_to);
    line.append(", \"score_z\": ");
    push_opt(&mut line, c.score_z);
    line.append(", \"extra_blocker\": ");
    push_opt(&mut line, c.extra_blocker);
    line.append(", \"rank_value\": ");
    push_opt(&mut line, c.rank_value);
    line.append(", \"sieve_score\": ");
    match score {
        Some(t) => line.append(t.as_str()),
        None => line.append("null"),
    }
    line.append("}");
    line
}

/// One entry of the JSON list, with its comma unless `last`, and its newline.
fn candidate_json_entry(c: &Candidate, score: &Option<String>, last: bool) -> (entry: String)
    ensures
        entry@ == candidate_entry(*c, score_view(*score), last),
{
    let mut entry = candidate_json_line(c, score);
    if last {
        entry.append("");
    } else {
        entry.append(",");
    }
    entry.append("\n");
    entry
}

/// The JSON text of a finder result; `scores[i]` is the formatted sieve score of
/// candidate `i`, if it has one.
pub fn result_to_json(result: &FinderResult, scores: &Vec<Option<String>>) -> (out: String)
    requires
        scores@.len() == result.candidates@.len(),
    ensures
        out@ == result_json(*result, scores@),
{
    let mut out = String::from_str("{\n  \"limit_n\": ");
    push_decimal(&mut out, result.limit_n as u64);
    out.append(",\n  \"mode\": \"");
    let mode = escape_json(mode_name(result.mode));
    out.append(mode.as_str());
    out.append("\",\n  \"hard_cutoff\": ");
    push_decimal(&mut out, result.hard_cutoff as u64);
    out.append(",\n  \"soft_to\": ");
    push_opt(&mut out, result.soft_to);
    out.append(",\n  \"score_z\": ");
    push_opt(&mut out, result.score_z);
    out.append(",\n  \"candidate_count\": ");
    push_decimal(&mut out, result.candidate_count as u64);
    out.append(",\n  \"engine\": \"rust\",\n  \"ranking\": \"");
    let ranking = escape_json(result.ranking.as_str());
    out.append(ranking.as_str());
    out.append("\",\n  \"candidates\": [\n");
    let ghost head = out@;
    let total = result.candidates.len();
    let mut idx: usize = 0;
    while idx < total
        invariant
            idx <= total,
            total == result.candidates@.len(),
            scores@.len() == total,
            out@ == head + candidates_json(
                result.candidates@.subrange(0, idx as int),
                scores@.subrange(0, idx as int),
                total as int,
            ),
        decreases total - idx,
    {
        let c = result.candidates[idx];
        let ghost before = out@;
        let entry = candidate_json_entry(&c, &scores[idx], idx + 1 == total);
        out.append(entry.as_str());
        proof {
            let cs = result.candidates@.subrange(0, idx + 1);
            let ss = scores@.subrange(0, idx + 1);
            assert(cs.drop_last() =~= result.candidates@.subrange(0, idx as int));
            assert(ss.drop_last() =~= scores@.subrange(0, idx as int));
            assert(cs[idx as int] == c);
            assert(ss[idx as int] == scores@[idx as int]);
            assert(out@ =~= head + candidates_json(cs, ss, total as int));
        }
        idx += 1;
    }
    out.append("  ]\n}\n");
    proof {
        assert(result.candidates@.subrange(0, total as int) =~= result.candidates@);
        assert(scores@.subrange(0, total as int) =~= scores@);
        assert(out@ == result_json(*result, scores@));
    }
    out
}

/// A CSV field for an optional number: its digits, or empty.
pub open spec fn csv_opt(v: Option<usize>) -> Seq<char> {
    match v {
        Some(x) => decimal(x as nat),
        None => seq![],
    }
}

fn push_csv_opt(out: &mut String, v: Option<usize>)
    ensures
        final(out)@ == old(out)@ + csv_opt(v),
{
    match v {
        Some(x) => push_decimal(out, x as u64),
        None => {
            proof {
                assert(old(out)@ + csv_opt(v) =~= old(out)@);
            }
        },
    }
}

/// The CSV row of one candidate (with the result's ranking label).
pub open spec fn candidate_csv(c: Candidate, ranking: Seq<char>, score: Option<Seq<char>>) -> Seq<char> {
    decimal(c.rank as nat) + ","@ + decimal(c.n as nat) + ","@ + decimal(c.n as nat) + ","@ + decimal(
        c.pair_right as nat,
    ) + ","@ + spec_mode_name(c.mode) + ","@ + decimal(c.hard_cutoff as nat) + ","@ + ranking + ","@ + csv_opt(
        c.score_z,
    ) + ","@ + match score {
        Some(t) => t,
        None => seq![],
    } + ","@ + csv_opt(c.extra_blocker) + ","@ + csv_opt(c.rank_value) + "\n"@
}

/// The CSV rows of the candidates.
pub open spec fn candidates_csv(cs: Seq<Candidate>, ranking: Seq<char>, scores: Seq<Option<String>>) -> Seq<char>
    decreases cs.len(),
{
    if cs.len() == 0 {
        seq![]
    } else {
        candidates_csv(cs.drop_last(), ranking, scores.drop_last()) + candidate_csv(
            cs.last(),
            ranking,
            score_view(scores.last()),
        )
    }
}

/// The header line of the result CSV.
pub open spec fn result_csv_header() -> Seq<char> {
    "rank,n,left,right,mode,hard_cutoff,ranking,score_z,sieve_score,extra_blocker,rank_value\n"@
}

fn candidate_csv_line(c: &Candidate, ranking: &str, score: &Option<String>) -> (line: String)
    ensures
        line@ == candidate_csv(*c, ranking@, score_view(*score)),
{
    let mut line = String::new();
    push_decimal(&mut line, c.rank as u64);
    line.append(",");
    push_decimal(&mut line, c.n as u64);
    line.append(",");
    push_decimal(&mut line, c.n as u64);
    line.append(",");
    push_decimal(&mut line, c.pair_right as u64);
    line.append(",");
    line.append(mode_name(c.mode));
    line.append(",");
    push_decimal(&mut line, c.hard_cutoff as u64);
    line.append(",");
    line.append(ranking);
    line.append(",");
    push_csv_opt(&mut line, c.score_z);
    line.append(",");
    match score {
        Some(t) => line.append(t.as_str()),
        None => {},
    }
    line.append(",");
    push_csv_opt(&mut line, c.extra_blocker);
    line.append(",");
    push_csv_opt(&mut line, c.rank_value);
    line.append("\n");
    proof {
        assert(line@ =~= candidate_csv(*c, ranking@, score_view(*score)));
    }
    line
}

/// The CSV text of a finder result: a header, then one row per candidate;
/// `scores[i]` is the formatted sieve score of candidate `i`, if it has one.
pub fn result_csv(result: &FinderResult, scores: &Vec<Option<String>>) -> (out: String)
    requires
        scores@.len() == result.candidates@.len(),
    ensures
        out@ == result_csv_header() + candidates_csv(result.candidates@, result.ranking@, scores@),
{
    let mut out = String::from_str("rank,n,left,right,mode,hard_cutoff,ranking,score_z,sieve_score,extra_blocker,rank_value\n");
    let ghost head = out@;
    let total = result.candidates.len();
    let mut idx: usize = 0;
    while idx < total
        invariant
            idx <= total,
            total == result.candidates@.len(),
            scores@.len() == total,
            head == result_csv_header(),
            out@ == head + candidates_csv(
                result.candidates@.subrange(0, idx as int),
                result.ranking@,
                scores@.subrange(0, idx as int),
            ),
        decreases total - idx,
    {
        let c = result.candidates[idx];
        let ghost before = out@;
        let line = candidate_csv_line(&c, result.ranking.as_str(), &scores[idx]);
        out.append(line.as_str());
        proof {
            let cs = result.candidates@.subrange(0, idx + 1);
            let ss = scores@.subrange(0, idx + 1);
            assert(cs.drop_last() =~= result.candidates@.subrange(0, idx as int));
            assert(ss.drop_last() =~= scores@.subrange(0, idx as int));
            assert(cs.last() == c);
            assert(ss.last() == scores@[idx as int]);
            assert(out@ =~= head + candidates_csv(cs, result.ranking@, ss));
        }
        idx += 1;
    }
    proof {
        assert(result.candidates@.subrange(0, total as int) =~= result.candidates@);
        assert(scores@.subrange(0, total as int) =~= scores@);
    }
    out
}

} // verus!
