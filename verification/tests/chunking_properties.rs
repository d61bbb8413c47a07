use yomiage::chunking::{speakable_chunks, split_text};

const ALPHABET: &[char] = &[
    'あ', 'い', 'う', '漢', '字', '。', '、', '！', '？', '\n', ' ', '\u{3000}', 'a', 'Z', '7',
    ':', '/', '.', '-', '_', '?', '#',
];

fn is_protected(c: char) -> bool {
    c.is_ascii_alphanumeric() || ":/?&=#%._-~".contains(c)
}

/// Deterministic pseudo-random texts.
fn texts() -> Vec<String> {
    let mut state: u64 = 0x2545_f491_4f6c_dd1d;
    let mut texts = Vec::new();
    for round in 0..400 {
        let len = round % 150;
        let mut text = String::new();
        for _ in 0..len {
            state = state.wrapping_mul(6364136223846793005).wrapping_add(1442695040888963407);
            let pick = (state >> 33) as usize;
            // Favour long runs of one class now and then.
            let c = if round % 3 == 0 {
                ALPHABET[(pick % 5) + 10 * (pick % 2)]
            } else {
                ALPHABET[pick % ALPHABET.len()]
            };
            text.push(c);
        }
        texts.push(text);
    }
    texts
}

#[test]
fn chunks_keep_every_character_in_order() {
    for text in texts() {
        assert_eq!(split_text(&text).concat(), text);
    }
}

#[test]
fn chunks_are_never_empty() {
    for text in texts() {
        assert!(split_text(&text).iter().all(|chunk| !chunk.is_empty()), "{text:?}");
    }
}

#[test]
fn long_chunks_are_protected_runs() {
    for text in texts() {
        for chunk in split_text(&text) {
            let chars: Vec<char> = chunk.chars().collect();
            if chars.len() > 25 {
                assert!(chars[9..].iter().all(|c| is_protected(*c)), "{chunk:?}");
            }
        }
    }
}

#[test]
fn chunks_never_meet_inside_a_protected_run() {
    for text in texts() {
        let chunks = split_text(&text);
        for pair in chunks.windows(2) {
            let last = pair[0].chars().last().unwrap();
            let first = pair[1].chars().next().unwrap();
            assert!(!(is_protected(last) && is_protected(first)), "{pair:?}");
        }
    }
}

#[test]
fn speakable_chunks_drop_only_blank_chunks() {
    for text in texts() {
        let expected: Vec<String> = split_text(&text)
            .into_iter()
            .filter(|chunk| !chunk.trim().is_empty())
            .collect();
        assert_eq!(speakable_chunks(&text), expected);
    }
}
