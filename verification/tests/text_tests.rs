use attribution::clock::{minute_of_day, time_to_number};
use attribution::normalize::{in_blacklist, lemmatize, normalize_once};
use attribution::text::{
    chars_of, is_blank, is_whitespace, same_chars, same_text, space_count, tokenize, trim,
};

fn word(s: &str) -> Vec<char> {
    s.chars().collect()
}

#[test]
fn space_count_counts_plain_spaces() {
    assert_eq!(space_count("a b  c"), 3);
    assert_eq!(space_count(""), 0);
    assert_eq!(space_count("tab\tis not a space"), 3);
    assert_eq!(space_count("   "), 3);
}

#[test]
fn chars_of_keeps_every_character() {
    assert_eq!(chars_of("aĉ b"), vec!['a', 'ĉ', ' ', 'b']);
    assert_eq!(chars_of(""), Vec::<char>::new());
}

#[test]
fn same_text_compares_by_content() {
    assert!(same_text("text", "text"));
    assert!(!same_text("text", "Text"));
    assert!(!same_text("text", "text "));
    assert!(same_text("", ""));
    assert!(same_chars(&word("ab"), &word("ab")));
    assert!(!same_chars(&word("ab"), &word("ba")));
}

#[test]
fn trim_strips_both_ends_only() {
    assert_eq!(trim("  a b \n"), "a b");
    assert_eq!(trim("\u{a0}x\u{2003}"), "x");
    assert_eq!(trim("   "), "");
    assert_eq!(trim(""), "");
    assert_eq!(trim("ĉu vi"), "ĉu vi");
}

#[test]
fn tokenize_by_character() {
    assert_eq!(tokenize("a b", false), vec![word("a"), word(" "), word("b")]);
    assert_eq!(tokenize("", false), Vec::<Vec<char>>::new());
}

#[test]
fn tokenize_by_word() {
    assert_eq!(tokenize("  saluton al  vi ", true), vec![word("saluton"), word("al"), word("vi")]);
    assert_eq!(tokenize("unu", true), vec![word("unu")]);
    assert_eq!(tokenize(" \t ", true), Vec::<Vec<char>>::new());
    assert_eq!(tokenize("", true), Vec::<Vec<char>>::new());
}

#[test]
fn time_to_number_counts_minutes_from_midnight() {
    assert_eq!(time_to_number("00:00"), 0);
    assert_eq!(time_to_number("12:34"), 754);
    assert_eq!(time_to_number("23:59"), 1439);
    assert_eq!(time_to_number("7:05"), 425);
    assert_eq!(time_to_number("10:15:59"), 615);
    assert_eq!(time_to_number("+1:+2"), 62);
    assert_eq!(time_to_number("25:00"), 1500);
}

#[test]
fn minute_of_day_rejects_what_is_no_time_of_day() {
    assert_eq!(minute_of_day("12:34"), Some(754));
    assert_eq!(minute_of_day("23:59"), Some(1439));
    assert_eq!(minute_of_day("24:00"), None);
    assert_eq!(minute_of_day("1234"), None);
    assert_eq!(minute_of_day(""), None);
    assert_eq!(minute_of_day(":30"), None);
    assert_eq!(minute_of_day("12:"), None);
    assert_eq!(minute_of_day("12:3a"), None);
    assert_eq!(minute_of_day("-1:30"), None);
    assert_eq!(minute_of_day("+:30"), None);
    assert_eq!(minute_of_day("99999999999999999999999999:00"), None);
}

#[test]
fn lemmatize_removes_links_and_blanks() {
    assert_eq!(lemmatize("Hello  World http://x.y/z?q=1 end", false, true), "hello world end");
    assert_eq!(lemmatize("https://only.link", false, false), "");
    assert_eq!(lemmatize("see https://a.b", false, false), "see");
    assert_eq!(lemmatize("  Keep\tCase \n", false, false), "Keep Case");
    assert_eq!(lemmatize("nohttp://glued", false, false), "nohttp://glued");
    assert_eq!(lemmatize("", false, true), "");
}

#[test]
fn lemmatize_folds_case_only_when_asked() {
    assert_eq!(lemmatize("ĈU Vi", false, true), "ĉu vi");
    assert_eq!(lemmatize("ĈU Vi", false, false), "ĈU Vi");
}

#[test]
fn lemmatize_stems_in_word_mode() {
    assert_eq!(lemmatize("La hundo kuras.", true, false), "Li hundi kur");
    assert_eq!(lemmatize("belajn domojn vidis", true, true), "beli domi vidis");
    assert_eq!(lemmatize("x,y", true, false), "x y");
    assert_eq!(lemmatize("a,b", true, false), "i b");
}

#[test]
fn lemmatize_is_idempotent_on_plain_text() {
    let once = lemmatize("  Saluton   al http://x.y ĉiuj  ", false, true);
    let twice = lemmatize(&once, false, true);
    assert_eq!(once, "saluton al ĉiuj");
    assert_eq!(twice, once);
}

#[test]
fn blacklist_rejects_sentinels_forwards_and_timestamps() {
    assert!(in_blacklist("Deleted Account"));
    assert!(in_blacklist(""));
    assert!(in_blacklist("Anonymous Telegram Bot"));
    assert!(in_blacklist("Anonima Roboto"));
    assert!(in_blacklist("Robotino"));
    assert!(in_blacklist("Anonymous telegram bot"));
    assert!(in_blacklist("Bob via @some_channel"));
    assert!(in_blacklist("01.02.2020 10:11:12"));
    assert!(in_blacklist("Alice 01.02.2020 10:11:12"));
}

#[test]
fn blacklist_accepts_ordinary_names() {
    assert!(!in_blacklist("Alice"));
    assert!(!in_blacklist("deleted account"));
    assert!(!in_blacklist(" via @x"));
    assert!(!in_blacklist("Bob via @"));
    assert!(!in_blacklist("via"));
    assert!(!in_blacklist("1.2.2020 10:11:12"));
}

#[test]
fn blank_is_empty_or_whitespace() {
    assert!(is_blank(""));
    assert!(is_blank(" \n\t\u{3000}"));
    assert!(!is_blank(" . "));
}

#[test]
fn one_pass_applies_each_rule_once() {
    assert_eq!(normalize_once("ois x", true, false), "o x");
    assert_eq!(normalize_once("o x", true, false), "i x");
    assert_eq!(normalize_once("i x", true, false), "i x");
    assert_eq!(normalize_once("HTTP://A.B", false, true), "http://a.b");
    assert_eq!(normalize_once("http://a.b", false, true), "");
    assert_eq!(normalize_once(" A  b ", false, false), "A b");
}

#[test]
fn lemmatize_settles_where_one_pass_does_not() {
    assert_eq!(lemmatize("ois x", true, false), "i x");
    assert_eq!(lemmatize("HTTP://A.B", false, true), "");
    assert_eq!(lemmatize("see HTTP://A.B now", false, true), "see now");
    assert_eq!(lemmatize("HTTP://A.B", false, false), "HTTP://A.B");
    assert_eq!(lemmatize("asasas x", true, false), "x");
}

#[test]
fn lemmatize_twice_is_lemmatize_once() {
    let samples = [
        "",
        " ",
        "ois x",
        "HTTP://A.B",
        "La hundo kuras.",
        "belajn domojn vidis",
        "Hello  World http://x.y/z?q=1 end",
        "x HTTPS://Y.Z HTTP://A.B http://c.d",
        "asasasas osos isis us a o an ojn",
        "İstanbul  ĈIUJ\u{a0}homoj\n\n",
        "a,b;c.d!e",
        "kiu tiu ĉiu neniu",
        "  multiple   spaces\tand\ttabs  ",
    ];
    for sample in samples {
        for (word_mode, case_fold) in [(false, false), (false, true), (true, false), (true, true)] {
            let once = lemmatize(sample, word_mode, case_fold);
            let twice = lemmatize(&once, word_mode, case_fold);
            assert_eq!(twice, once);
            assert_eq!(normalize_once(&once, word_mode, case_fold), once);
        }
    }
}

#[test]
fn whitespace_is_what_the_standard_library_calls_whitespace() {
    for code in 0..=0x10ffffu32 {
        if let Some(c) = char::from_u32(code) {
            assert_eq!(is_whitespace(c), c.is_whitespace());
        }
    }
}
