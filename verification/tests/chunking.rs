use yomiage::chunking::split_text;

#[test]
fn combines_short_sentences_until_the_minimum_length() {
    let chunks = split_text("短い文です。次も短い文です。最後です。");
    assert_eq!(chunks, vec!["短い文です。次も短い文です。", "最後です。"]);
}

#[test]
fn splits_long_text_at_japanese_commas() {
    let text = format!(
        "{}、{}、{}。",
        "あ".repeat(45),
        "い".repeat(45),
        "う".repeat(45)
    );
    let chunks = split_text(&text);
    assert!(chunks.len() > 2);
    assert!(chunks.iter().any(|chunk| chunk.ends_with('、')));
    assert_eq!(chunks.concat(), text);
}

#[test]
fn does_not_split_inside_a_url() {
    let url = format!("https://example.com/{}", "a".repeat(110));
    let chunks = split_text(&format!("URLは{url}です。"));
    assert!(chunks.iter().any(|chunk| chunk.contains(&url)));
}

#[test]
fn prioritizes_low_latency_at_commas_and_sentence_boundaries() {
    let chunks = split_text(
        "今日はいい天気ですね、でも明日は雨が降るそうです。傘を持っていったほうがいいかもしれません。",
    );
    assert_eq!(
        chunks,
        vec![
            "今日はいい天気ですね、",
            "でも明日は雨が降るそうです。",
            "傘を持っていったほうがいいかもしれません。",
        ]
    );
}

#[test]
fn empty_text_gives_no_chunks() {
    assert!(split_text("").is_empty());
}

#[test]
fn short_text_without_boundary_is_one_chunk() {
    assert_eq!(split_text("こんにちは"), vec!["こんにちは"]);
}

#[test]
fn long_text_without_breaks_is_cut_at_the_target_length() {
    let text = "あ".repeat(60);
    let chunks = split_text(&text);
    assert_eq!(chunks, vec!["あ".repeat(25), "あ".repeat(25), "あ".repeat(10)]);
}

#[test]
fn long_text_is_cut_after_whitespace() {
    let text = format!("{} {}", "あ".repeat(20), "い".repeat(20));
    let chunks = split_text(&text);
    assert_eq!(chunks, vec![format!("{} ", "あ".repeat(20)), "い".repeat(20)]);
}

#[test]
fn chunks_reassemble_the_text_and_are_never_empty() {
    let text = "東京、大阪。\nhttps://example.com/path?q=1&r=2 を見てください！本当ですか？はい。";
    let chunks = split_text(text);
    assert_eq!(chunks.concat(), text);
    assert!(chunks.iter().all(|chunk| !chunk.is_empty()));
}

#[test]
fn long_ascii_token_stays_in_one_chunk() {
    let token = "x".repeat(40);
    let text = format!("あいうえおかきくけこ{token}さしすせそ");
    let chunks = split_text(&text);
    assert!(chunks.iter().any(|chunk| chunk.contains(&token)));
    assert_eq!(chunks.concat(), text);
}

#[test]
fn sentence_that_would_overflow_starts_a_new_chunk() {
    let first = format!("{}。", "あ".repeat(9));
    let second = format!("{}", "い".repeat(55));
    let text = format!("{first}{second}");
    let chunks = split_text(&text);
    assert_eq!(chunks[0], first);
    assert_eq!(chunks.concat(), text);
}

#[test]
fn clauses_of_ten_to_twenty_five_characters_are_chunks_of_their_own() {
    let clauses = vec![
        "あいうえおかきくけ。".to_owned(),
        format!("{}、", "さ".repeat(24)),
        format!("{}\n", "た".repeat(15)),
    ];
    assert_eq!(split_text(&clauses.concat()), clauses);
}

#[test]
fn only_the_last_chunk_may_be_short() {
    let text = format!("{}。{}。短い。", "あ".repeat(30), "い".repeat(12));
    let chunks = split_text(&text);
    for chunk in &chunks[..chunks.len() - 1] {
        assert!(chunk.chars().count() >= 10, "{chunk:?}");
    }
}
