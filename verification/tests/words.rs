use nine_q_lib::letters::id_to_letter;
use nine_q_lib::letters::id_to_str;
use nine_q_lib::letters::letter_to_id;
use nine_q_lib::words::dedup_words;
use nine_q_lib::words::filter_9p_like;
use nine_q_lib::words::sort_word_list;

fn strings(words: &[&str]) -> Vec<String> {
    words.iter().map(|w| w.to_string()).collect()
}

#[test]
fn letter_ids_round_trip() {
    assert_eq!(letter_to_id(&'a'), 0);
    assert_eq!(letter_to_id(&'q'), 16);
    assert_eq!(letter_to_id(&'z'), 25);
    assert_eq!(letter_to_id(&'\n'), 26);
    assert_eq!(letter_to_id(&'\r'), 26);
    for id in 0..26 {
        let c = id_to_letter(id);
        assert_eq!(letter_to_id(&c), id);
        assert_eq!(id_to_str(id), c.to_string());
    }
}

#[test]
fn sort_then_dedup_strictly_orders() {
    let mut words = strings(&["kind", "happy", "kind", "apple", "happy"]);
    sort_word_list(&mut words);
    assert_eq!(words, strings(&["apple", "happy", "happy", "kind", "kind"]));
    let deduped = dedup_words(&words);
    assert_eq!(deduped, strings(&["apple", "happy", "kind"]));
}

#[test]
fn game_length_filter_keeps_four_to_nine() {
    let words = strings(&["abc", "four", "a", "ninechars", "tencharword", "midsized", ""]);
    assert_eq!(filter_9p_like(&words), strings(&["four", "ninechars", "midsized"]));
}
