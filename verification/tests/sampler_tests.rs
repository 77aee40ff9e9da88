use keymap_optimization::twiddler::{
    random_chord_, TwiddlerChordTrialUtils, TwiddlerExponentialSampler,
};

#[test]
fn test_exponential_sampler() {
    // ten samples print and are all valid
    let mut sampler = TwiddlerExponentialSampler::new(rand::thread_rng());
    println!();
    println!("sampled chords:");
    for _ in 0..10 {
        let chord = sampler.sample_chord();
        assert!(chord.is_valid());
        println!("{:?}", keymap_optimization::keyboard_config::chord_to_key_numbers(&chord));
    }
}

#[test]
fn random_chords_press_at_least_one_key() {
    let mut rng = rand::thread_rng();
    for _ in 0..50 {
        let c = random_chord_(&mut rng, 6, 10);
        assert!(c.n_keys() >= 1);
    }
}

#[test]
fn fresh_vocabulary_decodes_its_own_strings() {
    // build a full vocabulary at the hardware caps, then decode the
    // concatenation of a few of its strings back to the bound chords
    let sampler = TwiddlerExponentialSampler::new(rand::thread_rng());
    let utils = TwiddlerChordTrialUtils::new(sampler).expect("sampling budget exhausted");
    let vocab = utils.get_vocab();
    assert!(vocab.len() >= 174);
    assert!(vocab.len() <= 1020);

    let picks = [0usize, 7, 1, vocab.len() - 1, 42];
    let mut typed = String::new();
    for &k in picks.iter() {
        typed.push_str(&vocab[k].1);
    }
    let decoded = utils.parse_trial_string(typed.as_str()).expect("decode failed");
    assert_eq!(decoded.len(), picks.len());
    for (d, &k) in decoded.iter().zip(picks.iter()) {
        assert!(*d == vocab[k].0);
    }
}
