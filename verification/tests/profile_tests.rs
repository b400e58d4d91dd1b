use attribution::extract::{extract_events, parse, Settings};
use attribution::markup::MarkupEvent;
use attribution::split::{divide, split_tail, Share};
use attribution::temporal::{profiles, smooth};

fn rotate(v: &[u64], k: usize) -> Vec<u64> {
    (0..v.len()).map(|i| v[(i + k) % v.len()]).collect()
}

fn rotate_weights(v: &[u128], k: usize) -> Vec<u128> {
    (0..v.len()).map(|i| v[(i + k) % v.len()]).collect()
}

fn sample() -> Vec<u64> {
    let mut raw = vec![0u64; 1440];
    raw[0] = 4;
    raw[1] = 1;
    raw[720] = 7;
    raw[1439] = 2;
    raw
}

#[test]
fn smoothing_without_a_window_keeps_the_counts() {
    let profile = smooth(&sample(), 0);
    assert_eq!(profile.weights.len(), 1440);
    assert_eq!(profile.weights[0], 4);
    assert_eq!(profile.weights[1], 1);
    assert_eq!(profile.weights[2], 0);
    assert_eq!(profile.weights[720], 7);
    assert_eq!(profile.weights[1439], 2);
    assert_eq!(profile.total, 14);
}

#[test]
fn smoothing_wraps_around_midnight() {
    let profile = smooth(&sample(), 1);
    assert_eq!(profile.weights[0], 2 + 4 + 1);
    assert_eq!(profile.weights[1], 4 + 1);
    assert_eq!(profile.weights[2], 1);
    assert_eq!(profile.weights[3], 0);
    assert_eq!(profile.weights[1438], 2);
    assert_eq!(profile.weights[1439], 2 + 4);
    assert_eq!(profile.weights[719], 7);
    assert_eq!(profile.weights[720], 7);
    assert_eq!(profile.weights[721], 7);
    assert_eq!(profile.total, 3 * 14);
}

#[test]
fn the_widest_window_takes_all_but_one_minute() {
    let profile = smooth(&sample(), 719);
    // The window around minute 0 leaves out minute 720 alone.
    assert_eq!(profile.weights[0], 14 - 7);
    assert_eq!(profile.weights[720], 14 - 4);
    assert_eq!(profile.total, 1439 * 14);
}

#[test]
fn densities_sum_to_one() {
    for half_window in [0usize, 1, 30, 719] {
        let profile = smooth(&sample(), half_window);
        let sum: u128 = profile.weights.iter().sum();
        assert_eq!(sum, profile.total);
        assert!(profile.total > 0);
        let density: f64 = profile.weights.iter().map(|w| *w as f64 / profile.total as f64).sum();
        assert!((density - 1.0).abs() < 1e-9);
    }
}

#[test]
fn an_empty_histogram_has_no_total() {
    let profile = smooth(&vec![0u64; 1440], 10);
    assert_eq!(profile.total, 0);
    assert!(profile.weights.iter().all(|w| *w == 0));
}

#[test]
fn smoothing_turns_with_the_histogram() {
    let raw = sample();
    for (half_window, k) in [(0usize, 1usize), (5, 17), (60, 1439), (719, 720)] {
        let turned_first = smooth(&rotate(&raw, k), half_window);
        let smoothed_first = smooth(&raw, half_window);
        assert_eq!(turned_first.weights, rotate_weights(&smoothed_first.weights, k));
        assert_eq!(turned_first.total, smoothed_first.total);
    }
}

#[test]
fn large_counts_do_not_overflow() {
    let profile = smooth(&vec![u64::MAX; 1440], 719);
    assert_eq!(profile.weights[5], 1439 * (u64::MAX as u128));
    assert_eq!(profile.total, 1440 * 1439 * (u64::MAX as u128));
}

#[test]
fn profiles_go_by_author_id() {
    let mut events = Vec::new();
    for (time, author, body) in
        [("00:10", "Ann", "a"), ("00:20", "Ben", "b"), ("00:21", "Ben", "b"), ("00:11", "Ann", "a"), ("00:30", "Cy", "c")]
    {
        for (class, content) in [("pull_right date details", time), ("from_name", author), ("text", body)] {
            events.push(MarkupEvent::Open {
                name: "div".to_string(),
                attributes: vec![Some(("class".to_string(), class.to_string()))],
            });
            events.push(MarkupEvent::Text { content: Some(content.to_string()) });
            events.push(MarkupEvent::Close { name: "div".to_string() });
        }
    }
    let settings = Settings { min_qualifying_tokens: 1, probation_size: 1, case_fold: false, word_mode: false };
    let found = extract_events(&events, &settings);
    assert_eq!(found.authors, vec!["".to_string(), "Ben".to_string(), "Ann".to_string()]);
    let by_id = profiles(&found, 0);
    assert_eq!(by_id.len(), 3);
    assert_eq!(by_id[0].total, 0);
    assert_eq!(by_id[1].total, 2);
    assert_eq!(by_id[1].weights[20], 1);
    assert_eq!(by_id[1].weights[21], 1);
    assert_eq!(by_id[2].total, 2);
    assert_eq!(by_id[2].weights[10], 1);
    assert_eq!(by_id[2].weights[11], 1);
    let wide = profiles(&found, 1);
    assert_eq!(wide[1].weights[20], 2);
    assert_eq!(wide[1].weights[19], 1);
    assert_eq!(wide[1].total, 6);
}

#[test]
fn split_tail_moves_from_the_end() {
    let (train, test) = split_tail(vec![1, 2, 3, 4, 5], Share { parts: 2, whole: 5 });
    assert_eq!(train, vec![1, 2, 3]);
    assert_eq!(test, vec![5, 4]);
    let (train, test) = split_tail(vec![1, 2, 3, 4, 5], Share { parts: 1, whole: 3 });
    assert_eq!(train, vec![1, 2, 3]);
    assert_eq!(test, vec![5, 4]);
    let (train, test) = split_tail(vec![1, 2, 3], Share { parts: 1, whole: 1000 });
    assert_eq!(train, vec![1, 2]);
    assert_eq!(test, vec![3]);
    let (train, test) = split_tail(Vec::<u8>::new(), Share { parts: 1, whole: 2 });
    assert!(train.is_empty() && test.is_empty());
}

#[test]
fn divide_keeps_every_item_once() {
    let corpus: Vec<u32> = (0..100).collect();
    for (parts, whole, expected) in [(1u64, 5u64, 20usize), (0, 1, 0), (1, 1, 100), (1, 3, 34), (999, 1000, 100)] {
        let (train, test) = divide(corpus.clone(), Share { parts, whole }, 42);
        assert_eq!(test.len(), expected);
        assert_eq!(train.len() + test.len(), 100);
        let mut all: Vec<u32> = train.iter().chain(test.iter()).copied().collect();
        all.sort();
        assert_eq!(all, corpus);
    }
}

#[test]
fn divide_with_nothing_and_with_everything() {
    let (train, test) = divide(vec!['a', 'b', 'c'], Share { parts: 0, whole: 7 }, 1);
    assert_eq!(test.len(), 0);
    assert_eq!(train.len(), 3);
    let (train, test) = divide(vec!['a', 'b', 'c'], Share { parts: 7, whole: 7 }, 1);
    assert_eq!(train.len(), 0);
    assert_eq!(test.len(), 3);
    let (train, test) = divide(Vec::<char>::new(), Share { parts: 1, whole: 2 }, 1);
    assert!(train.is_empty() && test.is_empty());
}

#[test]
fn divide_shuffles_by_seed() {
    let corpus: Vec<u32> = (0..200).collect();
    let (train_a, test_a) = divide(corpus.clone(), Share { parts: 1, whole: 4 }, 7);
    let (train_b, test_b) = divide(corpus.clone(), Share { parts: 1, whole: 4 }, 7);
    assert_eq!(train_a, train_b);
    assert_eq!(test_a, test_b);
    let (train_c, _) = divide(corpus.clone(), Share { parts: 1, whole: 4 }, 8);
    assert_ne!(train_a, train_c);
    assert_ne!(train_a, corpus[..150].to_vec());
}

fn history(posts: &[(usize, &str)]) -> String {
    posts
        .iter()
        .map(|(minute, author)| {
            format!(
                "<div class=\"message\"><div class=\"pull_right date details\">{:02}:{:02}</div>\
                 <div class=\"from_name\">{}</div><div class=\"text\">some words here</div></div>",
                minute / 60,
                minute % 60,
                author
            )
        })
        .collect()
}

#[test]
fn later_timestamps_turn_the_profile() {
    let settings = Settings { min_qualifying_tokens: 1, probation_size: 1, case_fold: true, word_mode: false };
    let posts = [(0usize, "Xi"), (5, "Yo"), (1439, "Xi"), (700, "Xi"), (1, "Xi"), (6, "Yo"), (0, "Xi")];
    for k in [1usize, 59, 720, 1439] {
        let moved: Vec<(usize, &str)> = posts
            .iter()
            .map(|(minute, author)| if *author == "Xi" { ((minute + k) % 1440, *author) } else { (*minute, *author) })
            .collect();
        let first = parse(&history(&posts), &settings);
        let second = parse(&history(&moved), &settings);
        assert_eq!(first.author_id("Xi"), Some(1));
        assert_eq!(second.author_id("Xi"), Some(1));
        for half_window in [0usize, 3, 719] {
            let p1 = &profiles(&first, half_window)[1];
            let p2 = &profiles(&second, half_window)[1];
            assert_eq!(p1.total, p2.total);
            assert!(p1.total > 0);
            for m in 0..1440 {
                assert_eq!(p2.weights[(m + k) % 1440], p1.weights[m]);
                let d1 = p1.weights[m] as f64 / p1.total as f64;
                let d2 = p2.weights[(m + k) % 1440] as f64 / p2.total as f64;
                assert!((d2 - d1).abs() <= 1e-12);
            }
            let other1 = &profiles(&first, half_window)[2];
            let other2 = &profiles(&second, half_window)[2];
            assert_eq!(other1.weights, other2.weights);
        }
    }
}

#[test]
fn every_admitted_author_has_a_positive_total() {
    let settings = Settings { min_qualifying_tokens: 1, probation_size: 2, case_fold: true, word_mode: false };
    let posts = [(10usize, "Ann"), (20, "Ben"), (30, "Ann"), (40, "Ben"), (50, "Ann"), (60, "Ben"), (70, "Cy")];
    let found = parse(&history(&posts), &settings);
    assert_eq!(found.authors.len(), 3);
    assert_eq!(found.authors[0], "");
    for entry in &found.entries {
        assert_eq!(entry.histogram.len(), 1440);
        assert!(entry.histogram.iter().sum::<u64>() >= 1);
    }
    let by_id = profiles(&found, 10);
    assert_eq!(by_id[0].total, 0);
    assert!(by_id[1].total > 0);
    assert!(by_id[2].total > 0);
    assert_eq!(by_id[1].weights.iter().sum::<u128>(), by_id[1].total);
}
