use keymap_optimization::twiddler::{build_code, Node, USB_HID_COUNT};

fn is_prefix(a: &[u8], b: &[u8]) -> bool {
    a.len() <= b.len() && &b[..a.len()] == a
}

#[test]
fn build_code_at_the_twiddler_caps() {
    // with 174 symbols the multi-character cap stops the growth; the code is
    // prefix-free and sized between one full fan-out and the total cap
    let (tree, words) = build_code(174, 1020, 256);
    let multichar = words.iter().filter(|w| w.len() >= 2).count();
    assert!(words.len() <= 1020);
    assert!(multichar <= 256);
    assert!(words.len() == 1020 || multichar == 256);
    assert_eq!(multichar, 256);
    assert!(words.len() >= 174);
    for i in 0..words.len() {
        for j in 0..words.len() {
            if i != j {
                assert!(!is_prefix(&words[i], &words[j]));
            }
        }
    }
    // every word leads to a leaf of the tree
    for w in &words {
        let node = tree.get_child(w).expect("word not in tree");
        assert!(node.children.is_none());
    }
}

#[test]
fn build_code_small_alphabet() {
    // two symbols, total cap five: breadth-first growth stops at exactly
    // five words
    let (_, words) = build_code(2, 5, 100);
    let got: Vec<Vec<u8>> = words;
    assert_eq!(
        got,
        vec![vec![0, 1], vec![1, 0], vec![1, 1], vec![0, 0, 0], vec![0, 0, 1]]
    );
}

#[test]
fn build_code_respects_total_cap() {
    let (_, words) = build_code(USB_HID_COUNT as usize, 1020, 256);
    assert!(words.len() <= 1020);
    assert!(words.iter().filter(|w| w.len() >= 2).count() <= 256);
}

#[test]
fn build_code_reaches_one_full_fan_out() {
    // the word count never falls below the smaller of the total cap and one
    // full fan-out
    let (_, words) = build_code(174, 1020, 256);
    assert!(words.len() >= 174);
    let (_, small) = build_code(10, 3, 100);
    assert!(small.len() >= 3);
}
