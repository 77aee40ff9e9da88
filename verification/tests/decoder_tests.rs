use keymap_optimization::keyboard_config::{Chord, TwiddlerKey};
use keymap_optimization::twiddler::{DecodeError, Node, TwiddlerChordTrialUtils, USB_HID_COUNT};

fn two_word_utils() -> (TwiddlerChordTrialUtils, Chord, Chord) {
    // a tiny vocabulary: chord c1 emits "ab", chord c2 emits "c"
    let root = Node { children: None };
    let root = root.expand_at(&Vec::new(), 0, USB_HID_COUNT as usize);
    let root = root.expand_at(&vec![0], 0, USB_HID_COUNT as usize);
    let mut c1 = Chord::new();
    c1.add_key(TwiddlerKey::L1);
    let mut c2 = Chord::new();
    c2.add_key(TwiddlerKey::M1);
    let words = vec![vec![0u8, 1], vec![2u8]];
    let chords = vec![c1.duplicate(), c2.duplicate()];
    (TwiddlerChordTrialUtils::from_parts(root, words, chords), c1, c2)
}

#[test]
fn decode_recovers_the_pressed_chords() {
    // pressing c1 then c2 produces "abc"; decoding recovers [c1, c2]
    let (utils, c1, c2) = two_word_utils();
    let vocab = utils.get_vocab();
    assert_eq!(vocab[0].1, "ab");
    assert_eq!(vocab[1].1, "c");
    let decoded = utils.parse_trial_string("abc").unwrap();
    assert_eq!(decoded.len(), 2);
    assert!(decoded[0] == c1);
    assert!(decoded[1] == c2);
}

#[test]
fn decode_of_longer_sequences() {
    let (utils, c1, c2) = two_word_utils();
    let decoded = utils.parse_trial_string("cababc").unwrap();
    assert_eq!(decoded.len(), 4);
    assert!(decoded[0] == c2);
    assert!(decoded[1] == c1);
    assert!(decoded[2] == c1);
    assert!(decoded[3] == c2);
}

#[test]
fn decode_stops_mid_word() {
    // "a" ends in the middle of the code word "ab"
    let (utils, _, _) = two_word_utils();
    let r = utils.parse_trial_string("a");
    assert!(matches!(r, Err(DecodeError::TruncatedInput)));
}

#[test]
fn decode_rejects_unknown_words() {
    // "ad" is a complete code word of the tree but belongs to no entry
    let (utils, _, _) = two_word_utils();
    let r = utils.parse_trial_string("ad");
    assert!(matches!(r, Err(DecodeError::UnknownWord(_))));
}

#[test]
fn decode_rejects_unmappable_characters() {
    let (utils, _, _) = two_word_utils();
    let r = utils.parse_trial_string("a b");
    assert!(matches!(r, Err(DecodeError::UnmappableChar(' '))));
}

#[test]
fn truncation_wins_over_unknown_words() {
    // the whole stream is tokenized before any lookup: an unknown complete
    // word followed by a truncated tail reports the truncation
    let (utils, _, _) = two_word_utils();
    let r = utils.parse_trial_string("ada");
    assert!(matches!(r, Err(DecodeError::TruncatedInput)));
}

#[test]
fn first_unmappable_character_is_reported() {
    // characters are inverted in reading order, so the first offender wins
    let (utils, _, _) = two_word_utils();
    let r = utils.parse_trial_string("a\tb c");
    assert!(matches!(r, Err(DecodeError::UnmappableChar('\t'))));
}
