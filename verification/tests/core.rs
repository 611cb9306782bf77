use optpod::bucket::{bucket_counts, bucket_index, find_key_index};
use optpod::buffer::OrderBuffer;
use optpod::dispatch::SeedDispatcher;
use optpod::errors::Fault;
use optpod::extract::{extract_metrics, float_text_check, Extraction};
use optpod::ledger::merge_bests;
use optpod::plan::{exec_command, resolve_threads, Command, Config, Plan, RunArgs, SetBestArgs, ShowArgs};
use optpod::range::parse_seed;
use optpod::relative::{relative_rule, RelKind};
use optpod::result::ExecResult;
use optpod::text::{replace_placeholder, replace_placeholder2, str_eq, u64_to_dec, u64_to_dec04};

/// Order key of a finite or infinite float; `None` for an undefined value.
/// Key order agrees with the numeric order of the encoded values.
fn key(x: f64) -> Option<u64> {
    if x.is_nan() {
        None
    } else {
        let b = x.to_bits();
        Some(if b & (1u64 << 63) != 0 { !b } else { b | (1u64 << 63) })
    }
}

fn k(x: f64) -> u64 {
    key(x).unwrap()
}

fn res(seed: u64, score: f64) -> ExecResult {
    ExecResult { seed, score: key(score), relative: k(0.0), data: Vec::new() }
}

fn same_result(a: &ExecResult, b: &ExecResult) -> bool {
    a.seed == b.seed && a.score == b.score && a.relative == b.relative && a.data == b.data
}

fn same_ledger(a: &[ExecResult], b: &[ExecResult]) -> bool {
    a.len() == b.len() && a.iter().zip(b.iter()).all(|(x, y)| same_result(x, y))
}

fn copy_ledger(a: &[ExecResult]) -> Vec<ExecResult> {
    a.iter()
        .map(|r| ExecResult {
            seed: r.seed,
            score: r.score,
            relative: r.relative,
            data: r.data.clone(),
        })
        .collect()
}

fn default_config() -> Config {
    Config::default()
}

// --- seed range parsing ---

#[test]
fn parse_seed_single() {
    assert_eq!(parse_seed("5"), Ok((0, 5)));
}

#[test]
fn parse_seed_pair() {
    assert_eq!(parse_seed("3-7"), Ok((3, 7)));
}

#[test]
fn parse_seed_inverted() {
    assert_eq!(parse_seed("7-3"), Err(Fault::InvalidSeedOrder));
}

#[test]
fn parse_seed_three_parts() {
    assert_eq!(parse_seed("1-2-3"), Err(Fault::InvalidSeedFormat));
}

#[test]
fn parse_seed_not_a_number() {
    assert_eq!(parse_seed("x"), Err(Fault::InvalidSeedNumber));
    assert_eq!(parse_seed(""), Err(Fault::InvalidSeedNumber));
    assert_eq!(parse_seed("1-2-x"), Err(Fault::InvalidSeedNumber));
    assert_eq!(parse_seed("5-"), Err(Fault::InvalidSeedNumber));
}

#[test]
fn parse_seed_plus_sign_and_bounds() {
    assert_eq!(parse_seed("+5"), Ok((0, 5)));
    assert_eq!(parse_seed("4294967295"), Ok((0, u32::MAX)));
    assert_eq!(parse_seed("4294967296"), Err(Fault::InvalidSeedNumber));
    assert_eq!(parse_seed("0-0"), Ok((0, 0)));
}

// --- dispatcher ---

#[test]
fn dispatcher_ascending_no_duplicates() {
    let mut d = SeedDispatcher::new(3, 5);
    assert_eq!(d.claim(), Some(3));
    assert_eq!(d.claim(), Some(4));
    assert_eq!(d.claim(), Some(5));
    assert_eq!(d.claim(), None);
    assert_eq!(d.claim(), None);
}

// --- ordering buffer ---

#[test]
fn buffer_delivers_in_seed_order() {
    // completions arrive 2, 0, 3, 1; delivery must be 0, 1, 2, 3
    let mut buf = OrderBuffer::new(0);
    let mut seen: Vec<u64> = Vec::new();
    for seed in [2u64, 0, 3, 1] {
        let batch = buf.insert(res(seed, 1.0));
        seen.extend(batch.iter().map(|r| r.seed));
    }
    assert_eq!(seen, vec![0, 1, 2, 3]);
}

#[test]
fn buffer_holds_back_until_gap_closes() {
    let mut buf = OrderBuffer::new(10);
    assert!(buf.insert(res(12, 1.0)).is_empty());
    assert!(buf.insert(res(11, 1.0)).is_empty());
    let batch = buf.insert(res(10, 1.0));
    let seeds: Vec<u64> = batch.iter().map(|r| r.seed).collect();
    assert_eq!(seeds, vec![10, 11, 12]);
}

#[test]
fn buffer_in_order_arrival_flows_through() {
    let mut buf = OrderBuffer::new(0);
    for seed in 0..4u64 {
        let batch = buf.insert(res(seed, 1.0));
        let seeds: Vec<u64> = batch.iter().map(|r| r.seed).collect();
        assert_eq!(seeds, vec![seed]);
    }
}

// --- ledger merge ---

#[test]
fn merge_replaces_only_strictly_better() {
    // ledger {seed 1 -> 10} merged with {seed 1, score 15} yields {1 -> 15}
    let bests = vec![res(1, 10.0)];
    let merged = merge_bests(bests, vec![res(1, 15.0)]);
    assert_eq!(merged.len(), 1);
    assert_eq!(merged[0].score, key(15.0));

    // a worse or equal score leaves the entry alone
    let merged2 = merge_bests(copy_ledger(&merged), vec![res(1, 12.0)]);
    assert_eq!(merged2[0].score, key(15.0));
    let merged3 = merge_bests(copy_ledger(&merged2), vec![res(1, 15.0)]);
    assert_eq!(merged3[0].score, key(15.0));
}

#[test]
fn merge_inserts_new_seeds_and_sorts() {
    let bests = vec![res(5, 1.0)];
    let results = vec![res(9, 2.0), res(2, 3.0)];
    let merged = merge_bests(bests, results);
    let seeds: Vec<u64> = merged.iter().map(|r| r.seed).collect();
    assert_eq!(seeds, vec![2, 5, 9]);
}

#[test]
fn merge_undefined_scores_never_win() {
    // an undefined new score never replaces, an undefined stored score is kept
    let merged = merge_bests(vec![res(1, 10.0)], vec![res(1, f64::NAN)]);
    assert_eq!(merged[0].score, key(10.0));
    let merged2 = merge_bests(vec![res(1, f64::NAN)], vec![res(1, 10.0)]);
    assert_eq!(merged2[0].score, None);
}

#[test]
fn merge_idempotent_on_merged_ledger() {
    let bests = vec![res(1, 10.0), res(4, 2.0)];
    let results = vec![res(1, 15.0), res(2, 7.0), res(2, 6.0)];
    let once = merge_bests(bests, copy_ledger(&results));
    let twice = merge_bests(copy_ledger(&once), copy_ledger(&results));
    assert!(same_ledger(&once, &twice));
}

// --- relative score ---

#[test]
fn relative_rule_directions() {
    // max: best 80, current 100 => 125.0
    let rule = relative_rule("max", key(80.0), key(100.0)).unwrap();
    assert_eq!(rule, RelKind::ScoreOverBest);
    let rel = match rule {
        RelKind::Zero => 0.0,
        RelKind::BestOverScore => 80.0 / 100.0 * 100.0,
        RelKind::ScoreOverBest => 100.0 / 80.0 * 100.0,
    };
    assert_eq!(rel, 125.0);

    // min: best 80, current 100 => 80.0
    let rule = relative_rule("min", key(80.0), key(100.0)).unwrap();
    assert_eq!(rule, RelKind::BestOverScore);
    let rel = match rule {
        RelKind::Zero => 0.0,
        RelKind::BestOverScore => 80.0 / 100.0 * 100.0,
        RelKind::ScoreOverBest => 100.0 / 80.0 * 100.0,
    };
    assert_eq!(rel, 80.0);
}

#[test]
fn relative_rule_undefined_is_zero() {
    // no prior best => 0, whatever the direction says, even an invalid one
    assert_eq!(relative_rule("max", None, key(100.0)), Ok(RelKind::Zero));
    assert_eq!(relative_rule("min", key(80.0), None), Ok(RelKind::Zero));
    assert_eq!(relative_rule("weird", None, None), Ok(RelKind::Zero));
}

#[test]
fn relative_rule_bad_direction() {
    assert_eq!(
        relative_rule("median", key(80.0), key(100.0)),
        Err(Fault::InvalidScoring)
    );
}

// --- bucket reporter ---

fn bounds_of(start: f64, end: f64, step: f64) -> Vec<(u64, u64)> {
    let mut ranges = Vec::new();
    let mut current = start;
    while current < end {
        ranges.push((k(current), k(current + step)));
        current += step;
    }
    ranges
}

#[test]
fn bucket_counts_one_per_bucket() {
    // metric values [5, 15, 25] over [0, 30) step 10: one hit per bucket
    let bounds = bounds_of(0.0, 30.0, 10.0);
    assert_eq!(bounds.len(), 3);
    let vals = vec![k(5.0), k(15.0), k(25.0)];
    let counts = bucket_counts(&bounds, &vals);
    assert_eq!(counts, vec![1, 1, 1]);
}

#[test]
fn bucket_boundaries_are_half_open() {
    let bounds = bounds_of(0.0, 30.0, 10.0);
    assert_eq!(bucket_index(&bounds, k(10.0)), Some(1));
    assert_eq!(bucket_index(&bounds, k(0.0)), Some(0));
    assert_eq!(bucket_index(&bounds, k(29.9)), Some(2));
    assert_eq!(bucket_index(&bounds, k(30.0)), None);
    assert_eq!(bucket_index(&bounds, k(-0.5)), None);
}

#[test]
fn bucket_out_of_range_values_count_nowhere() {
    let bounds = bounds_of(0.0, 20.0, 10.0);
    let vals = vec![k(5.0), k(35.0), k(15.0)];
    let counts = bucket_counts(&bounds, &vals);
    assert_eq!(counts, vec![1, 1]);
}

#[test]
fn metric_lookup_finds_first_pair() {
    let data = vec![
        ("n".to_string(), "10".to_string()),
        ("m".to_string(), "20".to_string()),
    ];
    assert_eq!(find_key_index(&data, "m"), Some(1));
    assert_eq!(find_key_index(&data, "n"), Some(0));
    assert_eq!(find_key_index(&data, "q"), None);
}

// --- extraction ---

const PATTERN: &str = "^\\s*\\[DATA\\]\\s+(?P<VARIABLE>[a-zA-Z]\\w*)\\s*=\\s*(?P<VALUE>\\S+)\\s*$";

fn lines(ls: &[&str]) -> Vec<String> {
    ls.iter().map(|l| l.to_string()).collect()
}

#[test]
fn extract_reads_score_and_pairs() {
    let ex: Extraction = extract_metrics(
        PATTERN,
        &lines(&["noise", "[DATA] score = 12.5", "[DATA] n = 40"]),
    )
    .unwrap();
    assert_eq!(ex.score_text.as_deref(), Some("12.5"));
    assert_eq!(ex.data, vec![("n".to_string(), "40".to_string())]);
}

#[test]
fn extract_dedups_in_place() {
    // two lines with the same VARIABLE update the value in place
    let ex = extract_metrics(
        PATTERN,
        &lines(&["[DATA] a = 1", "[DATA] b = 2", "[DATA] a = 3"]),
    )
    .unwrap();
    assert_eq!(
        ex.data,
        vec![
            ("a".to_string(), "3".to_string()),
            ("b".to_string(), "2".to_string())
        ]
    );
}

#[test]
fn extract_later_score_wins() {
    let ex = extract_metrics(PATTERN, &lines(&["[DATA] score = 1", "[DATA] score = 2"])).unwrap();
    assert_eq!(ex.score_text.as_deref(), Some("2"));
}

#[test]
fn extract_rejects_non_numeric_score() {
    let r = extract_metrics(PATTERN, &lines(&["[DATA] score = abc"]));
    assert_eq!(r.err(), Some(Fault::ExtractionFailure));
}

#[test]
fn extract_rejects_bad_pattern() {
    let r = extract_metrics("(", &lines(&["anything"]));
    assert_eq!(r.err(), Some(Fault::InvalidPattern));
}

#[test]
fn extract_ignores_unmatched_lines() {
    let ex = extract_metrics(PATTERN, &lines(&["plain line", "x = 1"])).unwrap();
    assert!(ex.score_text.is_none());
    assert!(ex.data.is_empty());
}

#[test]
fn extract_empty_output() {
    let ex = extract_metrics(PATTERN, &lines(&[])).unwrap();
    assert!(ex.score_text.is_none());
    assert!(ex.data.is_empty());
}

#[test]
fn extract_bad_pattern_with_no_lines_is_fine() {
    // the pattern is only compiled when a line is examined
    assert!(extract_metrics("(", &lines(&[])).is_ok());
}

// --- float literal grammar ---

#[test]
fn float_text_accepts_what_the_parser_accepts() {
    for ok in [
        "1", "1.5", ".5", "5.", "-2", "+2.25", "1e5", "1.5e-3", "2E+7", "inf", "-inf",
        "Infinity", "nan", "NaN", "0.0",
    ] {
        assert!(float_text_check(ok), "{ok}");
        assert!(ok.parse::<f64>().is_ok(), "{ok}");
    }
    for bad in ["", ".", "e5", "1e", "1.2.3", "abc", "1 2", "--1", "1e5.5", "in", "infx"] {
        assert!(!float_text_check(bad), "{bad}");
        assert!(bad.parse::<f64>().is_err(), "{bad}");
    }
}

// --- placeholders and decimals ---

#[test]
fn decimal_rendering() {
    assert_eq!(u64_to_dec(0), "0");
    assert_eq!(u64_to_dec(42), "42");
    assert_eq!(u64_to_dec(1234567), "1234567");
    assert_eq!(u64_to_dec04(0), "0000");
    assert_eq!(u64_to_dec04(7), "0007");
    assert_eq!(u64_to_dec04(123), "0123");
    assert_eq!(u64_to_dec04(9999), "9999");
    assert_eq!(u64_to_dec04(12345), "12345");
}

#[test]
fn placeholder_substitution() {
    assert_eq!(replace_placeholder("tools/in/{SEED04}.txt", 7), "tools/in/0007.txt");
    assert_eq!(replace_placeholder("{SEED}-{SEED04}", 12), "12-0012");
    assert_eq!(
        replace_placeholder2("out/{ID}/{SEED04}.out", 3, "run1"),
        "out/run1/0003.out"
    );
    assert_eq!(replace_placeholder("no holes", 3), "no holes");
}

#[test]
fn str_eq_compares_contents() {
    assert!(str_eq("abc", "abc"));
    assert!(!str_eq("abc", "abd"));
    assert!(!str_eq("abc", "ab"));
}

// --- command planning ---

#[test]
fn reserved_ids_rejected_before_any_work() {
    let cfg = default_config();
    for bad in ["best", "prev_best"] {
        let cmd = Command::Run(RunArgs { seed: (0, 5), id: Some(bad.to_string()) });
        assert!(matches!(exec_command(cmd, Some(&cfg)), Err(Fault::ReservedId)));
    }
    let cmd = Command::Run(RunArgs { seed: (0, 5), id: Some("mine".to_string()) });
    assert!(exec_command(cmd, Some(&cfg)).is_ok());
}

#[test]
fn run_plan_uses_default_id_and_path() {
    let cfg = default_config();
    let cmd = Command::Run(RunArgs { seed: (3, 7), id: None });
    match exec_command(cmd, Some(&cfg)).unwrap() {
        Plan::Run(p) => {
            assert_eq!(p.start, 3);
            assert_eq!(p.end, 7);
            assert_eq!(p.id, "default");
            assert_eq!(p.result_path, "optpod/default.jsonl");
        }
        _ => panic!("wrong plan"),
    }
}

#[test]
fn best_plan_paths() {
    let cfg = default_config();
    let cmd = Command::Best(SetBestArgs { id: Some("night".to_string()) });
    match exec_command(cmd, Some(&cfg)).unwrap() {
        Plan::Best(p) => {
            assert_eq!(p.result_path, "optpod/night.jsonl");
            assert_eq!(p.best_path, "optpod/best.jsonl");
            assert_eq!(p.prev_best_path, "optpod/prev_best.jsonl");
        }
        _ => panic!("wrong plan"),
    }
}

#[test]
fn show_plan_carries_metric() {
    let cfg = default_config();
    let cmd = Command::Show(ShowArgs { valuable: "n".to_string(), id: None });
    match exec_command(cmd, Some(&cfg)).unwrap() {
        Plan::Show(p) => {
            assert_eq!(p.metric, "n");
            assert_eq!(p.result_path, "optpod/default.jsonl");
        }
        _ => panic!("wrong plan"),
    }
}

#[test]
fn missing_configuration_is_fatal() {
    let cmd = Command::Run(RunArgs { seed: (0, 1), id: None });
    assert!(matches!(exec_command(cmd, None), Err(Fault::ConfigurationMissing)));
    let cmd = Command::Best(SetBestArgs { id: None });
    assert!(matches!(exec_command(cmd, None), Err(Fault::ConfigurationMissing)));
    assert!(matches!(exec_command(Command::Init, None), Ok(Plan::Init)));
}

#[test]
fn default_configuration_fields() {
    let cfg = default_config();
    assert_eq!(cfg.input, "tools/in/{SEED04}.txt");
    assert_eq!(cfg.result_dir, "optpod");
    assert_eq!(cfg.default_id, "default");
    assert_eq!(cfg.scoring, "max");
    assert_eq!(cfg.threads_no, 0);
    assert!(regex::Regex::new(&cfg.extraction_regex).is_ok());
}

// --- the order key encoding the tests rely on ---

#[test]
fn key_encoding_preserves_order() {
    let xs = [f64::NEG_INFINITY, -3.5, -1.0, 0.0, 0.5, 2.0, 1e300, f64::INFINITY];
    for w in xs.windows(2) {
        assert!(k(w[0]) < k(w[1]));
    }
    assert_eq!(key(f64::NAN), None);
}

// --- worker pool sizing ---

#[test]
fn thread_count_resolution() {
    assert_eq!(resolve_threads(4, 16), 4);
    assert_eq!(resolve_threads(0, 16), 16);
    assert_eq!(resolve_threads(1, 16), 1);
}

// --- more edges ---

#[test]
fn placeholder_replaces_every_occurrence() {
    assert_eq!(replace_placeholder("{SEED}/{SEED}", 3), "3/3");
    assert_eq!(replace_placeholder2("{ID}{ID}", 0, "x"), "xx");
}

#[test]
fn merge_with_empty_sides() {
    let merged = merge_bests(Vec::new(), vec![res(2, 1.0), res(0, 2.0)]);
    let seeds: Vec<u64> = merged.iter().map(|r| r.seed).collect();
    assert_eq!(seeds, vec![0, 2]);
    let merged2 = merge_bests(copy_ledger(&merged), Vec::new());
    assert!(same_ledger(&merged, &merged2));
}

#[test]
fn buffer_single_seed_range() {
    let mut buf = OrderBuffer::new(7);
    let batch = buf.insert(res(7, 1.0));
    assert_eq!(batch.len(), 1);
    assert_eq!(batch[0].seed, 7);
}

#[test]
fn extract_keeps_first_seen_order() {
    let ex = extract_metrics(
        PATTERN,
        &lines(&["[DATA] c = 1", "[DATA] a = 2", "[DATA] b = 3", "[DATA] a = 9"]),
    )
    .unwrap();
    let keys: Vec<&str> = ex.data.iter().map(|(k, _)| k.as_str()).collect();
    assert_eq!(keys, vec!["c", "a", "b"]);
}
