use manga_ocr_onnx::beam::{checked_power, Beam};
use manga_ocr_onnx::decoder::{DecodeConfig, DecodeError, Decoder, Phase};
use manga_ocr_onnx::rank::top_k;
use manga_ocr_onnx::text::visible_tokens;

const FAR: i64 = -1_000_000;

fn config(vocab: usize, start: usize, end: usize, width: usize, steps: usize) -> DecodeConfig {
    DecodeConfig {
        vocab_size: vocab,
        start_token: start,
        end_token: end,
        beam_width: width,
        max_steps: steps,
        length_exponent: 2,
    }
}

/// Drives a decode to its end, scoring each prefix with `oracle`; returns the
/// decoder and the number of scoring calls made.
fn drive<F: Fn(&[usize]) -> Vec<i64>>(cfg: DecodeConfig, oracle: F) -> (Decoder, usize) {
    let mut d = Decoder::new(cfg).unwrap();
    let mut calls = 0;
    loop {
        let prefixes = d.prefixes();
        if prefixes.is_empty() {
            break;
        }
        let rows: Vec<Vec<i64>> = prefixes
            .iter()
            .map(|p| {
                calls += 1;
                oracle(p)
            })
            .collect();
        d.advance(rows).unwrap();
        assert!(d.frontier().len() <= cfg.beam_width);
    }
    (d, calls)
}

fn normalized(b: &Beam) -> f64 {
    b.log_prob as f64 / (b.token_ids.len() as f64).powi(2)
}

#[test]
fn it_works() {
    let result = manga_ocr_onnx::add(2, 2);
    assert_eq!(result, 4);
}

#[test]
fn scenario_single_beam_stops_on_end() {
    let cfg = config(5, 0, 1, 1, 10);
    let (d, calls) = drive(cfg, |_| vec![-50, 0, -20, -30, -40]);
    assert_eq!(calls, 1);
    assert_eq!(d.steps(), 1);
    assert_eq!(d.phase(), Phase::EarlyStopped);
    assert_eq!(d.finished().len(), 1);
    let best = d.result().unwrap();
    assert_eq!(best.token_ids, vec![0, 1]);
    assert_eq!(best.log_prob, 0);
}

#[test]
fn scenario_end_token_favoured_late() {
    let cfg = DecodeConfig::with_defaults(10, 2, 3);
    assert_eq!(cfg.beam_width, 4);
    assert_eq!(cfg.max_steps, 300);
    let oracle = |p: &[usize]| {
        let mut row = vec![0i64; 10];
        for t in 0..10 {
            row[t] = -100 * (t as i64 + 1);
        }
        if p.len() >= 5 {
            row[3] = 0;
        } else {
            row[3] = FAR;
        }
        row
    };
    let (d, calls) = drive(cfg, oracle);
    assert_eq!(d.phase(), Phase::EarlyStopped);
    assert!(d.steps() >= 5 && d.steps() <= 6);
    assert!(calls < 300);
    let best = d.result().unwrap();
    assert_eq!(*best.token_ids.last().unwrap(), 3);
    for f in d.finished().iter() {
        assert!(normalized(&best) >= normalized(f));
    }
}

#[test]
fn boundary_one_step_exhausts() {
    let cfg = config(10, 2, 3, 4, 1);
    let oracle = |_: &[usize]| {
        let mut row = vec![-10i64; 10];
        row[3] = FAR;
        row[5] = -1;
        row
    };
    let (d, calls) = drive(cfg, oracle);
    assert_eq!(calls, 1);
    assert_eq!(d.phase(), Phase::Exhausted);
    assert!(d.finished().is_empty());
    assert_eq!(d.frontier().len(), 4);
    for b in d.frontier().iter() {
        assert_eq!(b.token_ids.len(), 2);
    }
    let best = d.result().unwrap();
    assert_eq!(best.token_ids, vec![2, 5]);
    assert_eq!(best.log_prob, -1);
}

#[test]
fn boundary_start_equals_end_is_rejected() {
    let cfg = config(10, 3, 3, 4, 300);
    assert!(matches!(Decoder::new(cfg), Err(DecodeError::InvalidConfig)));
    assert_eq!(cfg.validate(), Err(DecodeError::InvalidConfig));
}

#[test]
fn invalid_configurations() {
    assert_eq!(config(10, 2, 3, 0, 300).validate(), Err(DecodeError::InvalidConfig));
    assert_eq!(config(10, 2, 3, 4, 0).validate(), Err(DecodeError::InvalidConfig));
    assert_eq!(config(10, 10, 3, 4, 300).validate(), Err(DecodeError::InvalidConfig));
    assert_eq!(config(10, 2, 10, 4, 300).validate(), Err(DecodeError::InvalidConfig));
    let mut steep = config(10, 2, 3, 4, 300);
    steep.length_exponent = 40;
    assert_eq!(steep.validate(), Err(DecodeError::InvalidConfig));
    assert_eq!(config(10, 2, 3, 4, 300).validate(), Ok(()));
}

#[test]
fn determinism_of_two_runs() {
    let oracle = |p: &[usize]| {
        let s: usize = p.iter().sum();
        let mut row: Vec<i64> = (0..7).map(|t| -(((s * 31 + t * 17) % 13) as i64) * 10).collect();
        if p.len() > 3 {
            row[1] = -5;
        }
        row
    };
    let cfg = config(7, 0, 1, 3, 20);
    let (d1, c1) = drive(cfg, oracle);
    let (d2, c2) = drive(cfg, oracle);
    assert_eq!(c1, c2);
    let b1 = d1.result().unwrap();
    let b2 = d2.result().unwrap();
    assert_eq!(b1.token_ids, b2.token_ids);
    assert_eq!(b1.log_prob, b2.log_prob);
}

#[test]
fn log_prob_never_grows_along_a_beam() {
    let cfg = config(6, 0, 1, 3, 8);
    let oracle = |p: &[usize]| (0..6).map(|t| -(((p.len() + t) % 4) as i64) * 7).collect::<Vec<i64>>();
    let mut d = Decoder::new(cfg).unwrap();
    let mut previous: Vec<Beam> = vec![Beam::new(0)];
    while d.phase() == Phase::Running {
        let rows: Vec<Vec<i64>> = d.prefixes().iter().map(|p| oracle(p)).collect();
        d.advance(rows).unwrap();
        if d.phase() == Phase::EarlyStopped {
            break;
        }
        for b in d.frontier().iter() {
            let parent = previous
                .iter()
                .find(|q| q.token_ids[..] == b.token_ids[..b.token_ids.len() - 1])
                .unwrap();
            assert!(b.log_prob <= parent.log_prob);
            assert!(b.log_prob <= 0);
        }
        previous = d.frontier().iter().map(|b| b.duplicate()).collect();
    }
}

#[test]
fn early_stop_issues_no_further_calls() {
    let cfg = config(5, 0, 1, 2, 50);
    let mut d = Decoder::new(cfg).unwrap();
    let rows = vec![vec![-9, 0, -1, -9, -9]];
    assert_eq!(d.advance(rows), Ok(Phase::Running));
    assert_eq!(d.finished().len(), 1);
    assert_eq!(d.frontier().len(), 1);
    let rows = vec![vec![-9, 0, -1, -9, -9]];
    assert_eq!(d.advance(rows), Ok(Phase::EarlyStopped));
    assert_eq!(d.steps(), 2);
    assert!(d.finished().len() >= 2);
    assert!(d.prefixes().is_empty());
    assert_eq!(d.advance(vec![vec![0, 0, 0, 0, 0]]), Ok(Phase::EarlyStopped));
    assert_eq!(d.steps(), 2);
}

#[test]
fn finished_pick_uses_normalized_score() {
    // [0, 1] with -30 scores -30/4 = -7.5; [0, 2, 1] with -60 scores -60/9 < -6.7.
    let cfg = config(4, 0, 1, 2, 5);
    let mut d = Decoder::new(cfg).unwrap();
    assert_eq!(d.advance(vec![vec![-100, -30, 0, -100]]), Ok(Phase::Running));
    assert_eq!(d.finished().len(), 1);
    let rows = vec![vec![-100, -60, -100, -100]; d.frontier().len()];
    assert_eq!(d.advance(rows), Ok(Phase::EarlyStopped));
    let best = d.result().unwrap();
    assert_eq!(best.token_ids, vec![0, 2, 1]);
    assert_eq!(best.log_prob, -60);
}

#[test]
fn malformed_rows_fail_with_oracle_error() {
    let cfg = config(4, 0, 1, 2, 5);
    let mut d = Decoder::new(cfg).unwrap();
    assert_eq!(d.advance(vec![vec![0, -1, -2]]), Err(DecodeError::OracleError));
    assert_eq!(d.phase(), Phase::Failed(DecodeError::OracleError));
    assert!(d.prefixes().is_empty());
    assert_eq!(d.result().err(), Some(DecodeError::OracleError));

    let mut d = Decoder::new(cfg).unwrap();
    assert_eq!(d.advance(vec![vec![0, 1, -2, -3]]), Err(DecodeError::OracleError));

    let mut d = Decoder::new(cfg).unwrap();
    assert_eq!(d.advance(vec![]), Err(DecodeError::OracleError));
}

#[test]
fn abort_records_cancellation_and_oracle_failure() {
    let cfg = config(4, 0, 1, 2, 5);
    let mut d = Decoder::new(cfg).unwrap();
    assert_eq!(d.abort(DecodeError::Cancelled), Err(DecodeError::Cancelled));
    assert_eq!(d.result().err(), Some(DecodeError::Cancelled));
    assert_eq!(d.abort(DecodeError::OracleError), Err(DecodeError::Cancelled));

    let mut d = Decoder::new(cfg).unwrap();
    assert_eq!(d.abort(DecodeError::OracleError), Err(DecodeError::OracleError));
}

#[test]
fn result_before_any_step_is_the_start_beam() {
    let d = Decoder::new(config(4, 2, 3, 2, 5)).unwrap();
    let b = d.result().unwrap();
    assert_eq!(b.token_ids, vec![2]);
    assert_eq!(b.log_prob, 0);
    assert_eq!(d.prefixes(), vec![vec![2]]);
}

#[test]
fn top_k_breaks_ties_by_position() {
    let xs = vec![-3, -1, -1, -7, 0];
    let ws = vec![1, 1, 1, 1, 1];
    assert_eq!(top_k(&xs, &ws, 3), vec![4, 1, 2]);
    assert_eq!(top_k(&xs, &ws, 9), vec![4, 1, 2, 0, 3]);
    assert_eq!(top_k(&xs, &ws, 0), Vec::<usize>::new());
    assert_eq!(top_k(&vec![], &vec![], 2), Vec::<usize>::new());
}

#[test]
fn top_k_weighs_scores() {
    // -8/4 = -2 beats -3/1 = -3; -9/9 = -1 is best; -4/2 equals -8/4.
    let xs = vec![-3, -8, -9, -4];
    let ws = vec![1, 4, 9, 2];
    assert_eq!(top_k(&xs, &ws, 4), vec![2, 1, 3, 0]);
    let extreme = vec![i64::MIN, i64::MIN + 1];
    let big = vec![u64::MAX, u64::MAX];
    assert_eq!(top_k(&extreme, &big, 2), vec![1, 0]);
}

#[test]
fn power_is_exact_or_none() {
    assert_eq!(checked_power(301, 2), Some(90601));
    assert_eq!(checked_power(7, 0), Some(1));
    assert_eq!(checked_power(0, 3), Some(0));
    assert_eq!(checked_power(2, 63), Some(1u64 << 63));
    assert_eq!(checked_power(2, 64), None);
}

#[test]
fn beam_child_saturates() {
    let b = Beam::new(2);
    assert_eq!(b.token_ids, vec![2]);
    assert_eq!(b.log_prob, 0);
    let c = b.child(7, -5);
    assert_eq!(c.token_ids, vec![2, 7]);
    assert_eq!(c.log_prob, -5);
    let low = Beam { token_ids: vec![2], log_prob: i64::MIN + 3 };
    assert_eq!(low.child(4, -10).log_prob, i64::MIN);
    assert_eq!(b.token_ids, vec![2]);
}

#[test]
fn special_tokens_carry_no_text() {
    assert_eq!(visible_tokens(&vec![2, 15, 3, 14, 40, 0, 16]), vec![15, 40, 16]);
    assert_eq!(visible_tokens(&vec![2, 3]), Vec::<usize>::new());
    assert_eq!(visible_tokens(&vec![]), Vec::<usize>::new());
}
