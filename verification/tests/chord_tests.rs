use keymap_optimization::keyboard_config::{
    all_keys, chord_to_key_numbers, reserved_chords, Chord, TwiddlerKey, TwiddlerLayout,
};
use rand::Rng;

#[test]
fn empty_chord_is_invalid() {
    let chord: Chord = Chord::new();
    assert!(!chord.is_valid());
}

#[test]
fn reserved_chords_are_invalid() {
    for reserved_chord in reserved_chords() {
        assert!(!reserved_chord.is_valid());
    }
}

#[test]
fn reserved_chords_can_be_made_valid() {
    let mut rng = rand::thread_rng();
    let keys = all_keys();
    for reserved_chord in reserved_chords() {
        let mut new_chord = reserved_chord.duplicate();
        loop {
            let key = keys[rng.gen_range(0..keys.len())];
            if !reserved_chord.contains(key) {
                new_chord.add_key(key);
                break;
            }
        }
        assert!(new_chord.is_valid());
    }
}

#[test]
fn thumb_only_and_reserved_and_extended() {
    // a thumb-only chord is invalid; the reserved triple is invalid; adding
    // one more key to the reserved triple makes it valid
    let mut thumb = Chord::new();
    thumb.add_key(TwiddlerKey::Z0);
    assert!(!thumb.is_valid());

    let mut reserved = Chord::new();
    reserved.add_key(TwiddlerKey::Z0);
    reserved.add_key(TwiddlerKey::R0);
    reserved.add_key(TwiddlerKey::M1);
    assert!(!reserved.is_valid());

    let mut extended = reserved.duplicate();
    extended.add_key(TwiddlerKey::L0);
    assert!(extended.is_valid());
}

#[test]
fn empty_chord_display_graphical() {
    // drawing an empty chord does not panic
    let empty_chord: Chord = Chord::new();
    println!("Empty chord: {}", TwiddlerLayout::chord_picture(&empty_chord));
}

#[test]
fn full_chord_display_graphical() {
    // drawing a full chord does not panic
    let mut full_chord: Chord = Chord::new();
    for key in all_keys() {
        full_chord.add_key(key);
    }
    println!("Full chord: {}", TwiddlerLayout::chord_picture(&full_chord));
}

#[test]
fn empty_chord_display_text() {
    let empty_chord: Chord = Chord::new();
    println!("Empty chord: {:?}", chord_to_key_numbers(&empty_chord));
    assert_eq!(chord_to_key_numbers(&empty_chord), Vec::<u16>::new());
}

#[test]
fn full_chord_display_text() {
    let mut full_chord: Chord = Chord::new();
    for key in all_keys() {
        full_chord.add_key(key);
    }
    println!("Full chord: {:?}", chord_to_key_numbers(&full_chord));
    assert_eq!(
        chord_to_key_numbers(&full_chord),
        vec![0, 4, 8, 12, 1, 2, 3, 5, 6, 7, 9, 10, 11, 13, 14, 15]
    );
}

#[test]
fn chord_display() {
    // drawing empty, full and ordinary chords does not panic
    let empty: Chord = Chord::new();
    println!("Empty chord: {}", TwiddlerLayout::chord_picture(&empty));
    let mut full: Chord = Chord::new();
    for key in all_keys() {
        full.add_key(key);
    }
    println!("Full chord: {}", TwiddlerLayout::chord_picture(&full));
    let mut regular: Chord = Chord::new();
    regular.add_key(TwiddlerKey::L1);
    regular.add_key(TwiddlerKey::M2);
    println!("Regular chord: {}", TwiddlerLayout::chord_picture(&regular));
}

#[test]
fn picture_marks_pressed_keys() {
    let mut c = Chord::new();
    c.add_key(TwiddlerKey::Z0);
    c.add_key(TwiddlerKey::L1);
    let pic = TwiddlerLayout::chord_picture(&c);
    assert_eq!(pic, "#...\n #..\n ...\n ...\n ...\n");
}
