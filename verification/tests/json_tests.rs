use keymap_optimization::json::{results_from_json, results_to_json};
use keymap_optimization::keyboard_config::{all_keys, Chord};
use keymap_optimization::logic::{ErrCode, TrialData, TrialResults};
use rand::Rng;

fn random_chord<R: Rng>(rng: &mut R) -> Chord {
    let keys = all_keys();
    let mut c = Chord::new();
    c.add_key(keys[rng.gen_range(0..keys.len())]);
    while rng.gen::<f64>() < 0.6 {
        c.add_key(keys[rng.gen_range(0..keys.len())]);
    }
    c
}

fn demo_trial<R: Rng>(rng: &mut R) -> TrialData {
    let pair = (random_chord(rng), random_chord(rng));
    let input = if rng.gen::<f64>() < 0.2 {
        Err(ErrCode::Impossible)
    } else {
        let n = rng.gen_range(0..12);
        let mut typed = Vec::new();
        for _ in 0..n {
            typed.push(random_chord(rng));
        }
        Ok(typed)
    };
    TrialData { chord_pair: pair, n_repetitions: rng.gen_range(1..10), input }
}

fn demo_results<R: Rng>(rng: &mut R, n: usize) -> TrialResults {
    let mut r = TrialResults::new();
    for _ in 0..n {
        r.push(demo_trial(rng));
    }
    r
}

#[test]
fn serialization_round_trip_success() {
    // writing demo results and reading them back yields an equal list
    let mut rng = rand::thread_rng();
    for _ in 0..10 {
        let n = rng.gen_range(0..5);
        let demo = demo_results(&mut rng, n);
        let text = results_to_json(&demo);
        let loaded = results_from_json(text.as_str()).expect("round trip failed");
        assert_eq!(loaded, demo);
    }
}

#[test]
fn serialization_round_trip_chord_edited() {
    // flipping one key of one chord makes the loaded results compare unequal
    let mut rng = rand::thread_rng();
    for _ in 0..20 {
        let n = rng.gen_range(1..5);
        let demo = demo_results(&mut rng, n);
        let text = results_to_json(&demo);

        // rebuild the results with one key bit flipped in one pair chord
        let mut edited = TrialResults::new();
        let flip_at = rng.gen_range(0..demo.data.len());
        for (k, t) in demo.data.iter().enumerate() {
            let mut pair = (t.chord_pair.0.duplicate(), t.chord_pair.1.duplicate());
            if k == flip_at {
                let mut bits = pair.0.to_vector();
                let key = rng.gen_range(0..bits.len());
                bits[key] = !bits[key];
                pair.0 = Chord::from_keys(bits).unwrap();
            }
            let input = match &t.input {
                Ok(v) => Ok(v.iter().map(|c| c.duplicate()).collect()),
                Err(ErrCode::Impossible) => Err(ErrCode::Impossible),
            };
            edited.push(TrialData { chord_pair: pair, n_repetitions: t.n_repetitions, input });
        }

        let loaded = results_from_json(text.as_str()).expect("round trip failed");
        assert!(loaded != edited);
    }
}

#[test]
fn serialization_exact_text() {
    // the persisted form of a one-trial list, written out in full
    let mut a = Chord::new();
    a.add_key(keymap_optimization::keyboard_config::TwiddlerKey::Z0);
    let b = Chord::new();
    let trial = TrialData {
        chord_pair: (a, b),
        n_repetitions: 5,
        input: Err(ErrCode::Impossible),
    };
    let mut r = TrialResults::new();
    r.push(trial);
    let text = results_to_json(&r);
    let a_js = "{\"keys\":[true,false,false,false,false,false,false,false,false,false,false,false,false,false,false,false]}";
    let b_js = "{\"keys\":[false,false,false,false,false,false,false,false,false,false,false,false,false,false,false,false]}";
    let expected = format!(
        "{{\"data\":[{{\"chord_pair\":[{},{}],\"n_repetitions\":5,\"input\":{{\"Err\":\"Impossible\"}}}}]}}",
        a_js, b_js
    );
    assert_eq!(text, expected);
}

#[test]
fn serialization_of_empty_results() {
    let r = TrialResults::new();
    let text = results_to_json(&r);
    assert_eq!(text, "{\"data\":[]}");
    let loaded = results_from_json(text.as_str()).unwrap();
    assert_eq!(loaded.data.len(), 0);
}

#[test]
fn malformed_text_is_rejected() {
    assert!(results_from_json("").is_none());
    assert!(results_from_json("{\"data\":[]} ").is_none());
    assert!(results_from_json("{\"data\":[{}]}").is_none());
}
