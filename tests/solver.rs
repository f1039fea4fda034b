use sha2::Digest;
use sssg_solver::attempt::{attempt_text_bytes, format_attempt, generate_initial_attempt_nonce_seed};
use sssg_solver::evaluate::{digest_leading_zeros, digest_meets, evaluate_attempt, evaluate_bytes, first_word};
use sssg_solver::extract::{extract_challenge_params, ParseError};
use sssg_solver::search::{search_batch, worker_schedule, BatchOutcome, Race, SearchError, Solution, WorkerStep};

const SCENARIO_HTML: &str = "<script>window.sssg_challenge(\"abc123\", 8, 5000);</script>";

fn leading_zeros_of_hex(hash_hex: &str) -> u32 {
    let bytes = hex::decode(hash_hex).unwrap();
    u32::from_be_bytes([bytes[0], bytes[1], bytes[2], bytes[3]]).leading_zeros()
}

fn sha256_hex(data: &[u8]) -> String {
    hex::encode(sha2::Sha256::digest(data))
}

#[test]
fn formats_whole_values_without_fraction() {
    assert_eq!(format_attempt(0), "0");
    assert_eq!(format_attempt(2), "1");
    assert_eq!(format_attempt(20), "10");
    assert_eq!(format_attempt(9007199254740990), "4503599627370495");
    assert_eq!(format_attempt(18014398509481982), "9007199254740991");
}

#[test]
fn formats_half_values_with_one_decimal() {
    assert_eq!(format_attempt(1), "0.5");
    assert_eq!(format_attempt(21), "10.5");
    assert_eq!(format_attempt(2839532756784555), "1419766378392277.5");
    assert_eq!(format_attempt(9007199254740991), "4503599627370495.5");
}

#[test]
fn formatter_agrees_with_shortest_round_trip_text() {
    for halves in [0u64, 1, 3, 7, 100, 101, 123456789, 2839532756784555, 9007199254740991] {
        let value = halves as f64 / 2.0;
        let text = format!("{}", value);
        assert_eq!(format_attempt(halves), text);
        assert_eq!(text.parse::<f64>().unwrap(), value);
    }
}

#[test]
fn attempt_bytes_match_text() {
    assert_eq!(attempt_text_bytes(25), b"12.5".to_vec());
    assert_eq!(attempt_text_bytes(24), b"12".to_vec());
}

#[test]
fn evaluates_known_digest() {
    let ev = evaluate_attempt("ab", "c", 0);
    assert_eq!(ev.hash_hex, "ba7816bf8f01cfea414140de5dae2223b00361a396177a9cb410ff61f20015ad");
    assert!(ev.accepted);
    let ev1 = evaluate_attempt("ab", "c", 1);
    assert!(!ev1.accepted);
    let evb = evaluate_bytes(b"a", b"bc", 0);
    assert_eq!(evb.hash_hex, ev.hash_hex);
}

#[test]
fn evaluation_hashes_salt_then_attempt() {
    let ev = evaluate_attempt("abc123", "42.5", 0);
    assert_eq!(ev.hash_hex, sha256_hex(b"abc12342.5"));
    assert_eq!(ev.hash_hex.len(), 64);
}

#[test]
fn counts_leading_zero_bits() {
    let mut d = [0u8; 32];
    assert_eq!(digest_leading_zeros(&d), 32);
    d[3] = 1;
    assert_eq!(digest_leading_zeros(&d), 31);
    d[0] = 0x0f;
    assert_eq!(digest_leading_zeros(&d), 4);
    d[0] = 0x80;
    assert_eq!(digest_leading_zeros(&d), 0);
    d[0] = 0;
    d[1] = 0x40;
    assert_eq!(digest_leading_zeros(&d), 9);
}

#[test]
fn difficulty_threshold_is_inclusive() {
    let mut d = [0xffu8; 32];
    d[0] = 0;
    d[1] = 0x10;
    assert!(digest_meets(&d, 0));
    assert!(digest_meets(&d, 11));
    assert!(!digest_meets(&d, 12));
    assert!(digest_meets(&[0u8; 32], 32));
}

#[test]
fn reads_first_word_big_endian() {
    assert_eq!(first_word(&[0x12, 0x34, 0x56, 0x78, 0x9a]), 0x12345678);
}

#[test]
fn extracts_scenario_challenge() {
    let (salt, d) = extract_challenge_params(SCENARIO_HTML).unwrap();
    assert_eq!(salt, "abc123");
    assert_eq!(d, 8);
}

#[test]
fn extracts_with_single_quotes_and_spacing() {
    let html = "<html><script>\n window.sssg_challenge ( 'x-y_z' ,0,\t1 ) ;</script></html>";
    assert_eq!(extract_challenge_params(html), Ok(("x-y_z".to_string(), 0)));
}

#[test]
fn extracts_first_of_two_calls() {
    let html = "<script>window.sssg_challenge(\"first\", 3, 1);</script><script>window.sssg_challenge(\"second\", 4, 1);</script>";
    assert_eq!(extract_challenge_params(html), Ok(("first".to_string(), 3)));
}

#[test]
fn extracts_non_ascii_salt() {
    let html = "<script>window.sssg_challenge(\"sälz→ü\", 32, 10);</script>";
    assert_eq!(extract_challenge_params(html), Ok(("sälz→ü".to_string(), 32)));
}

#[test]
fn skips_malformed_call_for_later_one() {
    let html = "<script>window.sssg_challenge(\"a\", 3);</script><script>window.sssg_challenge(\"b\", 5, 1)</script>";
    assert_eq!(extract_challenge_params(html), Ok(("b".to_string(), 5)));
}

#[test]
fn missing_call_is_not_found() {
    assert_eq!(extract_challenge_params("<html><body>hello</body></html>"), Err(ParseError::ChallengeNotFound));
    assert_eq!(extract_challenge_params(""), Err(ParseError::ChallengeNotFound));
    assert_eq!(
        extract_challenge_params("<script>window.sssg_challenge(\"\", 3, 1);</script>"),
        Err(ParseError::ChallengeNotFound)
    );
    assert_eq!(
        extract_challenge_params("<script>window.other(\"abc\", 3, 1);</script>"),
        Err(ParseError::ChallengeNotFound)
    );
}

#[test]
fn call_outside_script_is_not_found() {
    assert_eq!(
        extract_challenge_params("<p>window.sssg_challenge(\"abc\", 3, 1);</p>"),
        Err(ParseError::ChallengeNotFound)
    );
    assert_eq!(
        extract_challenge_params("<script>var a = 1;</script>window.sssg_challenge(\"abc\", 3, 1);"),
        Err(ParseError::ChallengeNotFound)
    );
}

#[test]
fn reads_script_tags_in_either_case_with_attributes() {
    let html = "<SCRIPT type=\"text/javascript\">window.sssg_challenge(\"k\", 12, 9);</Script>";
    assert_eq!(extract_challenge_params(html), Ok(("k".to_string(), 12)));
    let html = "<scripts>window.sssg_challenge(\"k\", 12, 9);</scripts>";
    assert_eq!(extract_challenge_params(html), Err(ParseError::ChallengeNotFound));
}

#[test]
fn call_must_end_inside_its_script() {
    let html = "<script>window.sssg_challenge(\"k\", 12,</script><script> 9);</script>";
    assert_eq!(extract_challenge_params(html), Err(ParseError::ChallengeNotFound));
}

#[test]
fn difficulty_above_range_is_invalid() {
    assert_eq!(
        extract_challenge_params("<script>window.sssg_challenge(\"abc\", 33, 1);</script>"),
        Err(ParseError::InvalidDifficulty("33".to_string()))
    );
    assert_eq!(
        extract_challenge_params("<script>window.sssg_challenge(\"abc\", 99999999999999999999, 1);</script>"),
        Err(ParseError::InvalidDifficulty("99999999999999999999".to_string()))
    );
    assert_eq!(
        extract_challenge_params("<script>window.sssg_challenge(\"abc\", 0032, 1);</script>"),
        Ok(("abc".to_string(), 32))
    );
}

#[test]
fn error_messages_name_the_problem() {
    assert_eq!(ParseError::ChallengeNotFound.message(), "SSSG challenge script not found in HTML");
    assert_eq!(
        ParseError::InvalidDifficulty("99999999999".to_string()).message(),
        "Invalid value for challenge parameter 'difficulty: 99999999999'"
    );
}

#[test]
fn commented_out_call_is_skipped() {
    let html = "<!-- <script>window.sssg_challenge(\"old\", 1, 1);</script> --><script>window.sssg_challenge(\"new\", 2, 1);</script>";
    assert_eq!(extract_challenge_params(html), Ok(("new".to_string(), 2)));
    let html = "<!-- <script>window.sssg_challenge(\"old\", 1, 1);</script> -->";
    assert_eq!(extract_challenge_params(html), Err(ParseError::ChallengeNotFound));
    let html = "<!-- unterminated <script>window.sssg_challenge(\"old\", 1, 1);</script>";
    assert_eq!(extract_challenge_params(html), Err(ParseError::ChallengeNotFound));
}

#[test]
fn script_text_in_a_script_is_not_a_new_element() {
    let html = "<script>var s = '<script>';</script>window.sssg_challenge(\"x\", 2, 1);";
    assert_eq!(extract_challenge_params(html), Err(ParseError::ChallengeNotFound));
}

#[test]
fn close_tag_needs_end_of_name() {
    let html = "<script>var a = '</scripts>'; window.sssg_challenge(\"x\", 2, 1);</script>";
    assert_eq!(extract_challenge_params(html), Ok(("x".to_string(), 2)));
}

#[test]
fn schedules_workers() {
    assert_eq!(worker_schedule(10, 4, 3), Some((16, 8)));
    assert_eq!(worker_schedule(10, 4, 0), Some((10, 8)));
    assert_eq!(worker_schedule(u64::MAX - 1, 4, 1), None);
    assert_eq!(worker_schedule(0, u64::MAX, 1), None);
}

#[test]
fn workers_partition_the_offsets() {
    let seed: u64 = 7;
    let workers: u64 = 3;
    let mut seen = vec![0u32; 60];
    for w in 0..workers {
        let (start, step) = worker_schedule(seed, workers, w).unwrap();
        for k in 0..20u64 {
            let h = start + k * step;
            let offset = ((h - seed) / 2) as usize;
            assert_eq!((h - seed) % 2, 0);
            seen[offset] += 1;
        }
    }
    assert!(seen.iter().all(|&c| c == 1));
}

#[test]
fn difficulty_zero_accepts_first_attempt() {
    match search_batch("abc123", 0, 5, 4, 10) {
        BatchOutcome::Found { index, halves, solution } => {
            assert_eq!(index, 0);
            assert_eq!(halves, 5);
            assert_eq!(solution.attempt, "2.5");
            assert_eq!(solution.hash_hex, sha256_hex(b"abc1232.5"));
        }
        _ => panic!("expected a solution"),
    }
}

#[test]
fn unmet_batch_reports_next_attempt() {
    match search_batch("abc123", 32, 100, 6, 3) {
        BatchOutcome::Pending { next } => assert_eq!(next, 118),
        BatchOutcome::Found { solution, .. } => assert_eq!(leading_zeros_of_hex(&solution.hash_hex), 32),
        BatchOutcome::Exhausted { .. } => panic!("not exhausted"),
    }
}

#[test]
fn unrepresentable_attempts_exhaust() {
    match search_batch("abc123", 32, (1u64 << 54) - 2, 2, 5) {
        BatchOutcome::Exhausted { index } => assert_eq!(index, 1),
        _ => panic!("expected exhaustion"),
    }
    match search_batch("abc123", 0, (1u64 << 53) + 1, 2, 5) {
        BatchOutcome::Exhausted { index } => assert_eq!(index, 0),
        _ => panic!("expected exhaustion"),
    }
}

#[test]
fn race_accepts_only_first_claim() {
    let mut race = Race::new();
    assert!(!race.is_solved());
    let a = Solution { attempt: "1".to_string(), hash_hex: "aa".to_string() };
    let b = Solution { attempt: "2".to_string(), hash_hex: "bb".to_string() };
    assert!(race.claim(a));
    assert!(race.is_solved());
    assert!(!race.claim(b));
    let won = race.into_result().unwrap();
    assert_eq!(won.attempt, "1");
    assert_eq!(won.hash_hex, "aa");
}

#[test]
fn empty_race_fails() {
    assert!(matches!(Race::new().into_result(), Err(SearchError::SearchFailed)));
}

#[test]
fn difficulty_zero_race_has_one_winner() {
    let workers: u64 = 4;
    let mut race = Race::new();
    let mut wins = 0;
    for w in 0..workers {
        let (start, step) = worker_schedule(1000, workers, w).unwrap();
        match search_batch("abc123", 0, start, step, 10) {
            BatchOutcome::Found { solution, .. } => {
                if race.claim(solution) {
                    wins += 1;
                }
            }
            _ => panic!("every first attempt meets difficulty zero"),
        }
    }
    assert_eq!(wins, 1);
    assert_eq!(race.into_result().unwrap().attempt, "500");
}

#[test]
fn seeds_are_in_range() {
    for _ in 0..100 {
        assert!(generate_initial_attempt_nonce_seed() < (1u64 << 53));
    }
}

#[test]
fn end_to_end_scenario() {
    let (salt, difficulty) = extract_challenge_params(SCENARIO_HTML).unwrap();
    assert_eq!((salt.as_str(), difficulty), ("abc123", 8));
    let (start, step) = worker_schedule(2839532756784555, 1, 0).unwrap();
    let mut next = start;
    let solution = loop {
        match search_batch(&salt, difficulty, next, step, 10_000) {
            BatchOutcome::Found { solution, .. } => break solution,
            BatchOutcome::Pending { next: n } => next = n,
            BatchOutcome::Exhausted { .. } => panic!("exhausted"),
        }
    };
    assert!(leading_zeros_of_hex(&solution.hash_hex) >= 8);
    let mut input = salt.clone().into_bytes();
    input.extend_from_slice(solution.attempt.as_bytes());
    assert_eq!(sha256_hex(&input), solution.hash_hex);
    assert_eq!(evaluate_attempt(&salt, &solution.attempt, difficulty).hash_hex, solution.hash_hex);
}

#[test]
fn worker_steps_follow_the_race() {
    let mut race = Race::new();
    assert!(matches!(race.after_batch(BatchOutcome::Pending { next: 42 }), WorkerStep::Continue { next: 42 }));
    assert!(matches!(race.after_batch(BatchOutcome::Exhausted { index: 3 }), WorkerStep::Stop));
    assert!(!race.is_solved());
    let a = Solution { attempt: "7".to_string(), hash_hex: "00".to_string() };
    let b = Solution { attempt: "8".to_string(), hash_hex: "11".to_string() };
    assert!(matches!(race.after_batch(BatchOutcome::Found { index: 0, halves: 14, solution: a }), WorkerStep::Stop));
    assert!(matches!(race.after_batch(BatchOutcome::Pending { next: 50 }), WorkerStep::Stop));
    assert!(matches!(race.after_batch(BatchOutcome::Found { index: 1, halves: 16, solution: b }), WorkerStep::Stop));
    assert_eq!(race.into_result().unwrap().attempt, "7");
}
