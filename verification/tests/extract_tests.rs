use attribution::extract::{extract_events, parse, Extraction, Settings, Standing};
use attribution::markup::{read_events, MarkupEvent};

fn settings(min_qualifying_tokens: usize, probation_size: usize) -> Settings {
    Settings { min_qualifying_tokens, probation_size, case_fold: true, word_mode: false }
}

fn message(time: &str, author: &str, body: &str) -> String {
    format!(
        "<div class=\"message default clearfix\">\n <div class=\"body\">\n  \
         <div class=\"pull_right date details\" title=\"x\">\n{}\n  </div>\n  \
         <div class=\"from_name\">\n{}\n  </div>\n  <div class=\"text\">\n{}\n  </div>\n \
         </div>\n</div>\n",
        time, author, body
    )
}

fn open(class: &str) -> MarkupEvent {
    MarkupEvent::Open {
        name: "div".to_string(),
        attributes: vec![Some(("class".to_string(), class.to_string()))],
    }
}

fn close() -> MarkupEvent {
    MarkupEvent::Close { name: "div".to_string() }
}

fn text(content: &str) -> MarkupEvent {
    MarkupEvent::Text { content: Some(content.to_string()) }
}

fn post(events: &mut Vec<MarkupEvent>, time: &str, author: &str, body: &str) {
    events.push(open("pull_right date details"));
    events.push(text(time));
    events.push(close());
    events.push(open("from_name"));
    events.push(text(author));
    events.push(close());
    events.push(open("text"));
    events.push(text(body));
    events.push(close());
}

fn histogram<'a>(found: &'a Extraction, name: &str) -> &'a Vec<u64> {
    &found.entries.iter().find(|e| e.name == name).unwrap().histogram
}

#[test]
fn read_events_yields_tags_and_trimmed_text() {
    let events = read_events("<div class=\"text\" id='m1'>\n  a &amp; b \n</div><br/><p>x</p>");
    assert_eq!(events.len(), 7);
    match &events[0] {
        MarkupEvent::Open { name, attributes } => {
            assert_eq!(name, "div");
            assert_eq!(attributes.len(), 2);
            assert_eq!(attributes[0], Some(("class".to_string(), "text".to_string())));
            assert_eq!(attributes[1], Some(("id".to_string(), "m1".to_string())));
        }
        _ => panic!("an opening tag comes first"),
    }
    match &events[1] {
        MarkupEvent::Text { content } => assert_eq!(content.as_deref(), Some("a & b")),
        _ => panic!("text comes second"),
    }
    assert!(matches!(&events[2], MarkupEvent::Close { name } if name == "div"));
    assert!(matches!(&events[3], MarkupEvent::Other));
    assert!(matches!(&events[4], MarkupEvent::Open { name, attributes } if name == "p" && attributes.is_empty()));
    assert!(matches!(&events[5], MarkupEvent::Text { content: Some(t) } if t == "x"));
    assert!(matches!(&events[6], MarkupEvent::Close { name } if name == "p"));
}

#[test]
fn read_events_of_nothing_is_empty() {
    assert_eq!(read_events("").len(), 0);
    assert_eq!(read_events("   \n ").len(), 0);
}

#[test]
fn read_events_marks_what_it_cannot_read() {
    let events = read_events("<div class=text>a &bogus; b</div>");
    assert_eq!(events.len(), 3);
    assert!(matches!(&events[0], MarkupEvent::Open { attributes, .. } if attributes.len() == 1 && attributes[0].is_none()));
    assert!(matches!(&events[1], MarkupEvent::Text { content: None }));
}

#[test]
fn read_events_stops_at_a_syntax_error() {
    let events = read_events("<a>x</a><!-- never closed <b>y</b>");
    assert_eq!(events.len(), 4);
    assert!(matches!(&events[3], MarkupEvent::Other));
}

#[test]
fn probation_scenario_two_documents_one_id() {
    let markup = message("10:15", "Alice", "hi") + &message("10:16", "Alice", "ok go")
        + &message("23:59", "Alice", "see you");
    let found = parse(&markup, &settings(1, 2));
    assert_eq!(found.documents.len(), 2);
    assert_eq!(found.documents[0].text, "ok go");
    assert_eq!(found.documents[1].text, "see you");
    assert_eq!(found.documents[0].author, 1);
    assert_eq!(found.documents[1].author, 1);
    assert_eq!(found.documents[0].minute, 616);
    assert_eq!(found.documents[1].minute, 1439);
    assert_eq!(found.authors, vec!["".to_string(), "Alice".to_string()]);
    assert_eq!(found.entries.len(), 1);
    assert!(matches!(found.entries[0].standing, Standing::Admitted(1)));
    let h = histogram(&found, "Alice");
    assert_eq!(h.len(), 1440);
    assert_eq!(h[615], 1);
    assert_eq!(h[616], 1);
    assert_eq!(h[1439], 1);
    assert_eq!(h.iter().sum::<u64>(), 3);
}

#[test]
fn admission_comes_with_the_last_probation_message() {
    let mut events = Vec::new();
    post(&mut events, "08:00", "Bob", "first one");
    let found = extract_events(&events, &settings(1, 3));
    assert_eq!(found.documents.len(), 0);
    assert!(matches!(&found.entries[0].standing, Standing::Probation(held) if held.is_empty()));
    post(&mut events, "08:01", "Bob", "second");
    post(&mut events, "08:02", "Bob", "third");
    let found = extract_events(&events, &settings(1, 3));
    assert_eq!(found.documents.len(), 0);
    assert_eq!(found.authors.len(), 1);
    assert!(matches!(&found.entries[0].standing, Standing::Probation(held) if held.len() == 2));
    post(&mut events, "08:03", "Bob", "fourth");
    let found = extract_events(&events, &settings(1, 3));
    assert_eq!(found.authors, vec!["".to_string(), "Bob".to_string()]);
    let got: Vec<(usize, &str, usize)> =
        found.documents.iter().map(|d| (d.author, d.text.as_str(), d.minute)).collect();
    assert_eq!(got, vec![(1, "second", 481), (1, "third", 482), (1, "fourth", 483)]);
    post(&mut events, "08:04", "Bob", "fifth");
    let found = extract_events(&events, &settings(1, 3));
    assert_eq!(found.documents.len(), 4);
    assert_eq!(found.documents[3].text, "fifth");
    assert_eq!(found.documents[3].author, 1);
    assert_eq!(found.documents[3].minute, 484);
}

#[test]
fn ids_follow_admission_not_appearance() {
    let mut events = Vec::new();
    post(&mut events, "01:00", "Early", "e0");
    post(&mut events, "01:01", "Late", "l0");
    post(&mut events, "01:02", "Late", "l1");
    post(&mut events, "01:03", "Early", "e1");
    let found = extract_events(&events, &settings(1, 1));
    assert_eq!(found.authors, vec!["".to_string(), "Late".to_string(), "Early".to_string()]);
    let got: Vec<(usize, &str)> = found.documents.iter().map(|d| (d.author, d.text.as_str())).collect();
    assert_eq!(got, vec![(1, "l1"), (2, "e1")]);
    assert_eq!(found.entries[0].name, "Early");
    assert_eq!(found.entries[1].name, "Late");
}

#[test]
fn short_messages_count_for_activity_only() {
    let mut events = Vec::new();
    post(&mut events, "05:00", "Carol", "one");
    post(&mut events, "05:00", "Carol", "two words");
    post(&mut events, "05:00", "Carol", "now three words");
    post(&mut events, "05:01", "Carol", "and three more");
    let found = extract_events(&events, &settings(3, 1));
    assert_eq!(histogram(&found, "Carol")[300], 3);
    assert_eq!(histogram(&found, "Carol")[301], 1);
    assert_eq!(found.documents.len(), 1);
    assert_eq!(found.documents[0].text, "and three more");
}

#[test]
fn blacklisted_authors_leave_no_trace() {
    let mut events = Vec::new();
    post(&mut events, "05:00", "Deleted Account", "one two");
    post(&mut events, "05:00", "Dan via @news", "one two");
    post(&mut events, "05:00", "Dan via @news", "one two");
    let found = extract_events(&events, &settings(1, 1));
    assert_eq!(found.entries.len(), 0);
    assert_eq!(found.documents.len(), 0);
    assert_eq!(found.authors.len(), 1);
}

#[test]
fn text_before_any_name_has_no_author() {
    let mut events = Vec::new();
    events.push(open("text"));
    events.push(text("nobody wrote this"));
    events.push(close());
    let found = extract_events(&events, &settings(1, 1));
    assert_eq!(found.entries.len(), 0);
}

#[test]
fn bad_timestamps_keep_the_minute() {
    let mut events = Vec::new();
    post(&mut events, "09:30", "Eve", "a");
    post(&mut events, "half past nine", "Eve", "b");
    post(&mut events, "24:00", "Eve", "c");
    let found = extract_events(&events, &settings(1, 1));
    assert_eq!(histogram(&found, "Eve")[570], 3);
}

#[test]
fn unbalanced_closings_are_passed_over() {
    let mut events = Vec::new();
    events.push(close());
    events.push(close());
    events.push(close());
    events.push(text("stray"));
    post(&mut events, "09:30", "Eve", "a");
    events.push(MarkupEvent::Other);
    events.push(MarkupEvent::Text { content: None });
    events.push(MarkupEvent::Close { name: "span".to_string() });
    events.push(MarkupEvent::Open { name: "span".to_string(), attributes: vec![None] });
    post(&mut events, "09:31", "Eve", "b");
    let found = extract_events(&events, &settings(1, 1));
    assert_eq!(found.documents.len(), 1);
    assert_eq!(found.documents[0].text, "b");
    assert_eq!(found.documents[0].minute, 571);
}

#[test]
fn a_div_without_class_opens_nothing() {
    let markup = "<div class=\"from_name\">Frank</div>\
                  <div class=\"text\"><div>inner</div>outer</div>\
                  <div class=\"text\">second</div>";
    let found = parse(markup, &settings(1, 1));
    // The inner div opens no container but its end closes one: "inner" is a message,
    // "outer" stands under no label, "second" is a message again.
    assert_eq!(found.entries.len(), 1);
    assert_eq!(found.entries[0].histogram[0], 2);
    assert_eq!(found.documents.len(), 1);
    assert_eq!(found.documents[0].text, "second");
}

#[test]
fn normal_forms_go_into_the_corpus() {
    let markup = message("10:00", " Gina ", "x") + &message("10:00", "Gina", "Look  HERE http://a.b/c now");
    let found = parse(&markup, &settings(1, 1));
    assert_eq!(found.authors[1], "Gina");
    assert_eq!(found.documents[0].text, "look here now");
    let kept = Settings { min_qualifying_tokens: 1, probation_size: 1, case_fold: false, word_mode: false };
    let found = parse(&markup, &kept);
    assert_eq!(found.documents[0].text, "Look HERE now");
}

#[test]
fn probation_of_zero_never_admits() {
    let mut events = Vec::new();
    post(&mut events, "01:00", "Hal", "a");
    post(&mut events, "01:00", "Hal", "b");
    post(&mut events, "01:00", "Hal", "c");
    let found = extract_events(&events, &settings(0, 0));
    assert_eq!(found.documents.len(), 0);
    assert_eq!(found.authors.len(), 1);
}

#[test]
fn author_id_knows_admitted_authors_only() {
    let mut events = Vec::new();
    post(&mut events, "01:00", "Ida", "a");
    post(&mut events, "01:00", "Jon", "b");
    post(&mut events, "01:00", "Jon", "c");
    post(&mut events, "01:00", "Kim", "short");
    let found = extract_events(&events, &settings(1, 1));
    assert_eq!(found.author_id("Jon"), Some(1));
    assert_eq!(found.author_id("Ida"), None);
    assert_eq!(found.author_id("Kim"), None);
    assert_eq!(found.author_id("Nobody"), None);
    assert_eq!(found.author_id(""), None);
    assert_eq!(found.authors[1], "Jon");
}
