use attribution::markov::{learn_markov, TransitionModel};
use attribution::roster::Document;
use attribution::score::{evaluate, evidence, rank, transition_factors, Factor};
use attribution::temporal::{smooth, TemporalProfile};
use attribution::text::tokenize;

fn word(s: &str) -> Vec<char> {
    s.chars().collect()
}

fn doc(author: usize, text: &str) -> Document {
    Document { author, text: text.to_string(), minute: 0 }
}

fn seen(model: &TransitionModel, prev: &str, next: &str) -> Option<(u128, u128)> {
    model.transition(&word(prev), &word(next))
}

fn flat_profile() -> TemporalProfile {
    smooth(&vec![1u64; 1440], 0)
}

/// The likelihood of a document for one author, as the scorer's formula gives it.
fn likelihood(
    factors: &[Factor],
    activity: Option<(u128, u128)>,
    length: usize,
    fallback: f64,
    scale: f64,
    divisor: f64,
) -> f64 {
    let mut p = 1.0;
    for f in factors {
        p *= match f {
            Factor::Observed { count, total } => *count as f64 / *total as f64,
            Factor::Unseen => fallback,
        };
        p *= scale;
    }
    if let Some((weight, total)) = activity {
        p *= (weight as f64 / total as f64).powf(1.0 + length as f64 / divisor);
    }
    p
}

#[test]
fn training_counts_every_step() {
    let docs = vec![doc(1, "ab"), doc(1, "ac"), doc(2, "a"), doc(1, "")];
    let models = learn_markov(&docs, 2, false);
    assert_eq!(models.len(), 3);
    let m = &models[1];
    assert_eq!(m.recorded, 7);
    assert_eq!(seen(m, "", "a"), Some((2, 3)));
    assert_eq!(seen(m, "", ""), Some((1, 3)));
    assert_eq!(seen(m, "a", "b"), Some((1, 2)));
    assert_eq!(seen(m, "a", "c"), Some((1, 2)));
    assert_eq!(seen(m, "b", ""), Some((1, 1)));
    assert_eq!(seen(m, "c", ""), Some((1, 1)));
    assert_eq!(seen(m, "b", "a"), None);
    assert_eq!(seen(m, "x", "y"), None);
    assert_eq!(seen(&models[2], "", "a"), Some((1, 1)));
    assert_eq!(seen(&models[2], "a", ""), Some((1, 1)));
}

#[test]
fn training_in_word_mode_steps_over_words() {
    let docs = vec![doc(1, "mi estas mi"), doc(1, "mi  iras")];
    let models = learn_markov(&docs, 1, true);
    let m = &models[1];
    assert_eq!(seen(m, "", "mi"), Some((2, 2)));
    assert_eq!(seen(m, "mi", "estas"), Some((1, 3)));
    assert_eq!(seen(m, "mi", "iras"), Some((1, 3)));
    assert_eq!(seen(m, "mi", ""), Some((1, 3)));
    assert_eq!(seen(m, "estas", "mi"), Some((1, 1)));
    assert_eq!(seen(m, "m", "i"), None);
}

#[test]
fn every_row_sums_to_its_total() {
    let docs = vec![doc(1, "abracadabra"), doc(1, "banana"), doc(2, "xyzzy"), doc(1, "cab")];
    let models = learn_markov(&docs, 2, false);
    for model in &models[1..] {
        assert!(!model.contexts.is_empty());
        let mut all = 0;
        for context in &model.contexts {
            let sum: u128 = context.successors.iter().map(|s| s.count).sum();
            assert_eq!(sum, context.total);
            assert!(context.total > 0);
            assert!(context.successors.iter().all(|s| s.count > 0));
            all += context.total;
        }
        assert_eq!(all, model.recorded);
    }
}

#[test]
fn an_author_without_documents_has_an_empty_model() {
    let docs = vec![doc(3, "abc"), doc(9, "left aside")];
    let models = learn_markov(&docs, 3, false);
    assert_eq!(models.len(), 4);
    assert!(models[0].contexts.is_empty());
    assert!(models[1].contexts.is_empty());
    assert!(models[2].contexts.is_empty());
    assert_eq!(models[3].recorded, 4);
    let factors = transition_factors(&models[1], &tokenize("abc", false));
    assert_eq!(factors.len(), 3);
    assert!(factors.iter().all(|f| matches!(f, Factor::Unseen)));
}

#[test]
fn training_on_nothing_gives_empty_models() {
    let models = learn_markov(&Vec::new(), 0, false);
    assert_eq!(models.len(), 1);
    assert!(models[0].contexts.is_empty());
}

#[test]
fn record_counts_one_transition() {
    let mut model = TransitionModel::new();
    model.record(&word("a"), &word("b"));
    model.record(&word("a"), &word("b"));
    model.record(&word("a"), &word("c"));
    model.record(&word("b"), &word("a"));
    assert_eq!(seen(&model, "a", "b"), Some((2, 3)));
    assert_eq!(seen(&model, "a", "c"), Some((1, 3)));
    assert_eq!(seen(&model, "b", "a"), Some((1, 1)));
    assert_eq!(seen(&model, "c", "a"), None);
    assert_eq!(model.recorded, 4);
}

#[test]
fn factors_leave_out_the_step_to_the_end() {
    let models = learn_markov(&vec![doc(1, "ab")], 1, false);
    let factors = transition_factors(&models[1], &tokenize("abb", false));
    assert_eq!(factors.len(), 3);
    assert!(matches!(factors[0], Factor::Observed { count: 1, total: 1 }));
    assert!(matches!(factors[1], Factor::Observed { count: 1, total: 1 }));
    assert!(matches!(factors[2], Factor::Unseen));
    assert_eq!(transition_factors(&models[1], &Vec::new()).len(), 0);
}

#[test]
fn evidence_has_one_entry_for_each_author() {
    let models = learn_markov(&vec![doc(1, "ab"), doc(2, "ba")], 2, false);
    let mut raw = vec![0u64; 1440];
    raw[100] = 3;
    raw[200] = 1;
    let profiles = vec![flat_profile(), smooth(&raw, 0), flat_profile()];
    let tokens = tokenize("ab", false);
    let timed = evidence(&models, &profiles, &tokens, Some(100));
    assert_eq!(timed.len(), 2);
    assert_eq!(timed[0].author, 1);
    assert_eq!(timed[1].author, 2);
    assert_eq!(timed[0].activity, Some((3, 4)));
    assert_eq!(timed[1].activity, Some((1, 1440)));
    assert!(matches!(timed[0].factors[0], Factor::Observed { count: 1, total: 1 }));
    assert!(matches!(timed[1].factors[0], Factor::Unseen));
    assert!(matches!(timed[1].factors[1], Factor::Unseen));
    let untimed = evidence(&models, &Vec::new(), &tokens, None);
    assert_eq!(untimed.len(), 2);
    assert_eq!(untimed[0].activity, None);
    assert_eq!(evidence(&Vec::new(), &Vec::new(), &tokens, None).len(), 0);
    assert_eq!(evidence(&models[..1].iter().map(|_| TransitionModel::new()).collect(), &Vec::new(), &tokens, None).len(), 0);
}

#[test]
fn rank_orders_from_high_to_low_and_keeps_ties() {
    assert_eq!(rank(&vec![5, 9, 5, 1, 9]), vec![1, 4, 0, 2, 3]);
    assert_eq!(rank(&vec![1, 2, 3]), vec![2, 1, 0]);
    assert_eq!(rank(&vec![7, 7, 7]), vec![0, 1, 2]);
    assert_eq!(rank(&vec![4]), vec![0]);
    assert_eq!(rank(&Vec::new()), Vec::<usize>::new());
    assert_eq!(rank(&vec![0, u64::MAX]), vec![1, 0]);
}

#[test]
fn evaluate_counts_matches() {
    let docs = vec![doc(1, "a"), doc(2, "b"), doc(1, "c"), doc(3, "d")];
    let tally = evaluate(&docs, &vec![Some(1), Some(1), Some(1), Some(3)]);
    assert_eq!((tally.hits, tally.total), (3, 4));
    let tally = evaluate(&docs, &vec![Some(2), Some(1), None, Some(1)]);
    assert_eq!((tally.hits, tally.total), (0, 4));
    let tally = evaluate(&docs, &vec![None, Some(2), None, None]);
    assert_eq!((tally.hits, tally.total), (1, 4));
    let tally = evaluate(&Vec::new(), &Vec::new());
    assert_eq!((tally.hits, tally.total), (0, 0));
}

#[test]
fn own_alphabet_ranks_first() {
    let docs = vec![
        doc(1, "abcabc"),
        doc(1, "aabbcc"),
        doc(1, "cba"),
        doc(2, "xyzxyz"),
        doc(2, "zzyyxx"),
        doc(2, "xzy"),
    ];
    let models = learn_markov(&docs, 2, false);
    for (text, best) in [("aabbcc", 1usize), ("xyzxyz", 2usize)] {
        let tokens = tokenize(text, false);
        let gathered = evidence(&models, &Vec::new(), &tokens, None);
        let scores: Vec<f64> = gathered
            .iter()
            .map(|e| likelihood(&e.factors, e.activity, text.len(), 0.001, 2.0, 50.0))
            .collect();
        let sum: f64 = scores.iter().sum();
        let shares: Vec<f64> = scores.iter().map(|s| s / sum).collect();
        assert!((shares.iter().sum::<f64>() - 1.0).abs() < 1e-12);
        let keys: Vec<u64> = shares.iter().map(|s| s.to_bits()).collect();
        let order = rank(&keys);
        assert_eq!(gathered[order[0]].author, best);
        assert!(shares[order[0]] > shares[order[1]]);
    }
}

#[test]
fn shares_are_ranked_without_increase() {
    let docs = vec![doc(1, "aaa"), doc(2, "aab"), doc(3, "abb"), doc(4, "bbb")];
    let models = learn_markov(&docs, 4, false);
    let tokens = tokenize("aab", false);
    let gathered = evidence(&models, &Vec::new(), &tokens, None);
    let scores: Vec<f64> =
        gathered.iter().map(|e| likelihood(&e.factors, None, 3, 0.01, 1.5, 50.0)).collect();
    let sum: f64 = scores.iter().sum();
    let shares: Vec<f64> = scores.iter().map(|s| s / sum).collect();
    let order = rank(&shares.iter().map(|s| s.to_bits()).collect());
    let ranked: Vec<f64> = order.iter().map(|&i| shares[i]).collect();
    assert_eq!(ranked.len(), 4);
    assert!((ranked.iter().sum::<f64>() - 1.0).abs() < 1e-12);
    assert!(ranked.windows(2).all(|w| w[0] >= w[1]));
    assert_eq!(gathered[order[0]].author, 2);
}

#[test]
fn the_hour_breaks_a_tie_and_more_so_for_long_documents() {
    let docs = vec![doc(1, "abab"), doc(2, "abab")];
    let models = learn_markov(&docs, 2, false);
    let mut day = vec![1u64; 1440];
    day[600] = 50;
    let mut night = vec![10u64; 1440];
    night[600] = 1;
    let profiles = vec![flat_profile(), smooth(&day, 2), smooth(&night, 2)];
    let mut gaps = Vec::new();
    for text in ["ab", "abab", "abababab"] {
        let tokens = tokenize(text, false);
        let untimed = evidence(&models, &profiles, &tokens, None);
        let a = likelihood(&untimed[0].factors, untimed[0].activity, text.len(), 0.001, 2.0, 4.0);
        let b = likelihood(&untimed[1].factors, untimed[1].activity, text.len(), 0.001, 2.0, 4.0);
        assert_eq!(a, b);
        let timed = evidence(&models, &profiles, &tokens, Some(600));
        let a = likelihood(&timed[0].factors, timed[0].activity, text.len(), 0.001, 2.0, 4.0);
        let b = likelihood(&timed[1].factors, timed[1].activity, text.len(), 0.001, 2.0, 4.0);
        let order = rank(&vec![a.to_bits(), b.to_bits()]);
        assert_eq!(timed[order[0]].author, 1);
        gaps.push(a / b);
    }
    assert!(gaps[0] > 1.0);
    assert!(gaps[1] > gaps[0]);
    assert!(gaps[2] > gaps[1]);
}
