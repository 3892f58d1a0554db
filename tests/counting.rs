use word_counter::handoff::{producer_step, Slot};
use word_counter::table::{aggregate, count_of, is_sentinel, record, worker_thread};
use word_counter::word::Word;

fn lines(v: &[&str]) -> Vec<String> {
    v.iter().map(|s| s.to_string()).collect()
}

fn rendered(words: &[Word]) -> Vec<String> {
    words
        .iter()
        .map(|w| format!("{}: {}", w.get_data(), w.get_count()))
        .collect()
}

#[test]
fn repeated_word_is_counted_in_first_seen_order() {
    let table = aggregate(&lines(&["a", "b", "a", "end"]));
    assert_eq!(rendered(&table), vec!["a: 2", "b: 1"]);
}

#[test]
fn sentinel_first_gives_empty_table() {
    let table = aggregate(&lines(&["end"]));
    assert!(table.is_empty());
}

#[test]
fn counting_is_case_sensitive() {
    let table = aggregate(&lines(&["cat", "CAT", "cat", "end"]));
    assert_eq!(rendered(&table), vec!["cat: 2", "CAT: 1"]);
}

#[test]
fn counts_equal_occurrences_before_sentinel() {
    let table = aggregate(&lines(&["x", "y", "x", "x", "end", "x", "z"]));
    assert_eq!(rendered(&table), vec!["x: 3", "y: 1"]);
}

#[test]
fn order_is_first_occurrence_despite_repeats() {
    let table = aggregate(&lines(&["p", "q", "p", "r", "q", "q", "end"]));
    assert_eq!(rendered(&table), vec!["p: 2", "q: 3", "r: 1"]);
}

#[test]
fn sentinel_is_never_recorded_but_other_cases_are() {
    let table = aggregate(&lines(&["End", "END", "End", "end", "end"]));
    assert_eq!(rendered(&table), vec!["End: 2", "END: 1"]);
}

#[test]
fn input_without_sentinel_counts_everything() {
    let table = aggregate(&lines(&["one", "two", "one"]));
    assert_eq!(rendered(&table), vec!["one: 2", "two: 1"]);
}

#[test]
fn empty_text_is_a_countable_word() {
    let table = aggregate(&lines(&["", "w", "", "end"]));
    assert_eq!(rendered(&table), vec![": 2", "w: 1"]);
}

#[test]
fn record_increments_or_appends() {
    let mut table: Vec<Word> = Vec::new();
    record(&mut table, Word::new("k".to_string()));
    record(&mut table, Word::new("m".to_string()));
    let mut again = Word::new("k".to_string());
    again.set_count(40);
    record(&mut table, again);
    assert_eq!(rendered(&table), vec!["k: 2", "m: 1"]);
    let mut fresh = Word::new("n".to_string());
    fresh.set_count(9);
    record(&mut table, fresh);
    assert_eq!(rendered(&table), vec!["k: 2", "m: 1", "n: 1"]);
}

#[test]
fn worker_stops_on_sentinel_and_leaves_table() {
    let mut table: Vec<Word> = Vec::new();
    assert!(!worker_thread(&mut table, Word::new("hi".to_string())));
    assert!(!worker_thread(&mut table, Word::new("hi".to_string())));
    assert!(worker_thread(&mut table, Word::new("end".to_string())));
    assert_eq!(rendered(&table), vec!["hi: 2"]);
}

#[test]
fn count_of_reads_record_or_zero() {
    let table = aggregate(&lines(&["a", "b", "a", "end"]));
    assert_eq!(count_of(&table, &Word::new("a".to_string())), 2);
    assert_eq!(count_of(&table, &Word::new("b".to_string())), 1);
    assert_eq!(count_of(&table, &Word::new("c".to_string())), 0);
}

#[test]
fn sentinel_recognition_is_exact() {
    assert!(is_sentinel("end"));
    assert!(!is_sentinel("End"));
    assert!(!is_sentinel("ends"));
    assert!(!is_sentinel("en"));
    assert!(!is_sentinel(" end"));
    assert!(!is_sentinel(""));
}

#[test]
fn word_accessors() {
    let mut w = Word::new("abc".to_string());
    assert_eq!(w.get_data(), "abc");
    assert_eq!(w.get_count(), 1);
    w.set_data("xyz".to_string());
    w.set_count(5);
    assert_eq!(w.get_data(), "xyz");
    assert_eq!(w.get_count(), 5);
    assert!(w.same_text(&Word::new("xyz".to_string())));
    assert!(!w.same_text(&Word::new("XYZ".to_string())));
}

#[test]
fn slot_hands_words_over_one_at_a_time() {
    let mut slot = Slot::new();
    assert!(!slot.is_ready());
    for text in ["first", "second", "first"] {
        slot.produce(Word::new(text.to_string()));
        assert!(slot.is_ready());
        let got = slot.consume();
        assert!(!slot.is_ready());
        assert_eq!(got.get_data(), text);
    }
}

#[test]
fn producer_trims_lines() {
    let (w, last) = producer_step(Some("  hello \n"));
    assert_eq!(w.get_data(), "hello");
    assert_eq!(w.get_count(), 1);
    assert!(!last);
    let (w, last) = producer_step(Some("   \n"));
    assert_eq!(w.get_data(), "");
    assert!(!last);
}

#[test]
fn producer_ends_on_sentinel_and_failed_input() {
    let (w, last) = producer_step(Some("end\n"));
    assert_eq!(w.get_data(), "end");
    assert!(last);
    let (w, last) = producer_step(Some(" End "));
    assert_eq!(w.get_data(), "End");
    assert!(!last);
    let (w, last) = producer_step(None);
    assert_eq!(w.get_data(), "end");
    assert!(last);
}

#[test]
fn last_handoff_ends_the_worker() {
    let mut table: Vec<Word> = Vec::new();
    let mut slot = Slot::new();
    let mut handoffs = 0;
    for line in ["b ", " a", "b", "end\n"] {
        let (w, last) = producer_step(Some(line));
        slot.produce(w);
        let received = slot.consume();
        handoffs += 1;
        let ended = worker_thread(&mut table, received);
        assert_eq!(ended, last);
        if last {
            break;
        }
    }
    assert_eq!(handoffs, 4);
    assert_eq!(rendered(&table), vec!["b: 2", "a: 1"]);
}
