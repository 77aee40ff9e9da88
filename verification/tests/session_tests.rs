use keymap_optimization::keyboard_config::{Chord, TwiddlerKey};
use keymap_optimization::logic::ErrCode;
use keymap_optimization::session::{Session, SessionMode, StepOutcome, N_REPETITIONS_PER_TRIAL};
use keymap_optimization::twiddler::{Node, TwiddlerChordTrialUtils, USB_HID_COUNT};

fn two_word_utils() -> (TwiddlerChordTrialUtils, Chord, Chord) {
    let root = Node { children: None };
    let root = root.expand_at(&Vec::new(), 0, USB_HID_COUNT as usize);
    let root = root.expand_at(&vec![0], 0, USB_HID_COUNT as usize);
    let mut c1 = Chord::new();
    c1.add_key(TwiddlerKey::L1);
    let mut c2 = Chord::new();
    c2.add_key(TwiddlerKey::M1);
    let words = vec![vec![0u8, 1], vec![2u8]];
    let chords = vec![c1.duplicate(), c2.duplicate()];
    (TwiddlerChordTrialUtils::from_parts(root, words, chords), c1, c2)
}

#[test]
fn session_records_a_trial_and_an_impossible_pair() {
    // GO, a typed line, Y, IMP, QUIT: two results, one decoded, one
    // impossible
    let (utils, c1, c2) = two_word_utils();
    let mut session = Session::new(utils, 0, 1);
    assert!(matches!(session.mode, SessionMode::AwaitCommand));

    session.step(&"GO".to_string(), 0, 1);
    assert!(matches!(session.mode, SessionMode::Timing));

    let out = session.step(&"abc".to_string(), 0, 1);
    assert!(matches!(out, StepOutcome::Stats { .. }));
    assert!(matches!(session.mode, SessionMode::Accept));

    session.step(&"Y".to_string(), 0, 1);
    assert!(matches!(session.mode, SessionMode::AwaitCommand));
    assert_eq!(session.results.data.len(), 1);

    session.step(&"IMP".to_string(), 0, 1);
    assert_eq!(session.results.data.len(), 2);

    session.step(&"QUIT".to_string(), 0, 1);
    assert!(session.finished);

    let first = &session.results.data[0];
    assert_eq!(first.n_repetitions, N_REPETITIONS_PER_TRIAL);
    match &first.input {
        Ok(decoded) => {
            assert_eq!(decoded.len(), 2);
            assert!(decoded[0] == c1);
            assert!(decoded[1] == c2);
        },
        Err(_) => panic!("first trial should hold the decoded sequence"),
    }
    let second = &session.results.data[1];
    assert!(matches!(second.input, Err(ErrCode::Impossible)));
}

#[test]
fn session_skip_and_retry_do_not_record() {
    let (utils, _, _) = two_word_utils();
    let mut session = Session::new(utils, 0, 1);

    session.step(&"SKIP".to_string(), 1, 0);
    assert_eq!(session.results.data.len(), 0);

    session.step(&"GO".to_string(), 0, 1);
    let out = session.step(&"zzz!".to_string(), 0, 1);
    assert!(matches!(out, StepOutcome::DecodeFailed(_)));
    assert!(matches!(session.mode, SessionMode::AwaitCommand));
    assert_eq!(session.results.data.len(), 0);

    session.step(&"GO".to_string(), 0, 1);
    session.step(&"abc".to_string(), 0, 1);
    session.step(&"N".to_string(), 0, 1);
    assert!(matches!(session.mode, SessionMode::AwaitCommand));
    assert_eq!(session.results.data.len(), 0);

    session.step(&"hello".to_string(), 0, 1);
    assert!(matches!(session.mode, SessionMode::AwaitCommand));
    assert!(!session.finished);
}
