use crate::keyboard_config::Chord;
use vstd::prelude::*;

verus! {

// The three USB HID scancode bands the keyboard emits, as half-open ranges:
// alphanumeric, then two bands of special characters. Whitespace and control
// codes are left out.
pub const USB_RANGE_0_LO: u8 = 0x04;

pub const USB_RANGE_0_HI: u8 = 0x28;

pub const USB_RANGE_1_LO: u8 = 0x2d;

pub const USB_RANGE_1_HI: u8 = 0x32;

pub const USB_RANGE_2_LO: u8 = 0x33;

pub const USB_RANGE_2_HI: u8 = 0x39;

/// Distinct unshifted HID codes: the three bands together.
pub const HALF_USB_HID_COUNT: u8 = 47;

/// Character indices run over `[0, USB_HID_COUNT)`: the unshifted codes first,
/// then their shifted counterparts.
pub const USB_HID_COUNT: u8 = 94;

/// What can go wrong when turning a typed string back into chords.
#[derive(Debug)]
pub enum DecodeError {
    /// A scancode outside the three declared bands.
    OutOfRange(u8),
    /// A character the table does not produce.
    UnmappableChar(char),
    /// The input ended in the middle of a code word.
    TruncatedInput,
    /// A decoded word that no vocabulary entry owns.
    UnknownWord(String),
}

/// Whether a character index denotes the shifted half of the table.
pub open spec fn spec_idx_shifted(i: int) -> bool {
    i / (HALF_USB_HID_COUNT as int) != 0
}

/// The USB HID scancode of a character index: walk the three bands.
pub open spec fn spec_idx_usb(i: int) -> int {
    let base = i % (HALF_USB_HID_COUNT as int);
    if base < USB_RANGE_0_HI - USB_RANGE_0_LO {
        base + USB_RANGE_0_LO
    } else if base < USB_RANGE_0_HI - USB_RANGE_0_LO + USB_RANGE_1_HI - USB_RANGE_1_LO {
        base + USB_RANGE_0_LO + USB_RANGE_1_LO - USB_RANGE_0_HI
    } else {
        base + USB_RANGE_0_LO + USB_RANGE_1_LO - USB_RANGE_0_HI + USB_RANGE_2_LO - USB_RANGE_1_HI
    }
}

/// The character index of a scancode, if the scancode lies in a declared band.
pub open spec fn spec_usb_idx(shifted: bool, usb: int) -> Option<int> {
    let add = if shifted {
        HALF_USB_HID_COUNT as int
    } else {
        0
    };
    if USB_RANGE_0_LO <= usb < USB_RANGE_0_HI {
        Some(usb - USB_RANGE_0_LO + add)
    } else if USB_RANGE_1_LO <= usb < USB_RANGE_1_HI {
        Some(usb - USB_RANGE_1_LO + (USB_RANGE_0_HI - USB_RANGE_0_LO) + add)
    } else if USB_RANGE_2_LO <= usb < USB_RANGE_2_HI {
        Some(
            usb - USB_RANGE_2_LO + (USB_RANGE_0_HI - USB_RANGE_0_LO) + (USB_RANGE_1_HI
                - USB_RANGE_1_LO) + add,
        )
    } else {
        None
    }
}

/// Converting an index to a scancode and back yields the index.
pub proof fn lemma_idx_usb_round_trip(i: int)
    requires
        0 <= i < USB_HID_COUNT,
    ensures
        spec_usb_idx(spec_idx_shifted(i), spec_idx_usb(i)) == Some(i),
{
}

/// Converting an in-band scancode to an index and back yields the scancode;
/// the two conversions are mutually inverse bijections.
pub proof fn lemma_usb_idx_round_trip(shifted: bool, usb: int)
    requires
        spec_usb_idx(shifted, usb) is Some,
    ensures
        0 <= spec_usb_idx(shifted, usb)->0 < USB_HID_COUNT,
        spec_idx_shifted(spec_usb_idx(shifted, usb)->0) == shifted,
        spec_idx_usb(spec_usb_idx(shifted, usb)->0) == usb,
{
}

/// The printable character the keyboard emits for `(shifted, usb)`, for
/// scancodes in the three bands: letters, digits and US-layout punctuation.
pub open spec fn spec_usb_char(shifted: bool, usb: int) -> char {
    if USB_RANGE_0_LO <= usb < 30 {
        // letters a..z, shifted A..Z
        if shifted {
            ((usb - 4 + 65) as u8) as char
        } else {
            ((usb - 4 + 97) as u8) as char
        }
    } else if 30 <= usb < 39 {
        // digits 1..9; shifted symbols handled below
        if shifted {
            if usb == 30 {
                '!'
            } else if usb == 31 {
                '@'
            } else if usb == 32 {
                '#'
            } else if usb == 33 {
                '$'
            } else if usb == 34 {
                '%'
            } else if usb == 35 {
                '^'
            } else if usb == 36 {
                '&'
            } else if usb == 37 {
                '*'
            } else {
                '('
            }
        } else {
            ((usb - 30 + 49) as u8) as char
        }
    } else if usb == 39 {
        if shifted {
            ')'
        } else {
            '0'
        }
    } else if usb == 45 {
        if shifted {
            '_'
        } else {
            '-'
        }
    } else if usb == 46 {
        if shifted {
            '+'
        } else {
            '='
        }
    } else if usb == 47 {
        if shifted {
            '{'
        } else {
            '['
        }
    } else if usb == 48 {
        if shifted {
            '}'
        } else {
            ']'
        }
    } else if usb == 49 {
        if shifted {
            '|'
        } else {
            '\\'
        }
    } else if usb == 51 {
        if shifted {
            ':'
        } else {
            ';'
        }
    } else if usb == 52 {
        if shifted {
            '"'
        } else {
            '\''
        }
    } else if usb == 53 {
        if shifted {
            '~'
        } else {
            '`'
        }
    } else if usb == 54 {
        if shifted {
            '<'
        } else {
            ','
        }
    } else if usb == 55 {
        if shifted {
            '>'
        } else {
            '.'
        }
    } else if usb == 56 {
        if shifted {
            '?'
        } else {
            '/'
        }
    } else {
        ' '
    }
}

/// The `(shifted, usb)` pair whose printable form is `c`, if any.
pub open spec fn spec_char_usb(c: char) -> Option<(bool, int)> {
    let n = c as int;
    if 97 <= n < 123 {
        Some((false, n - 97 + 4))
    } else if 65 <= n < 91 {
        Some((true, n - 65 + 4))
    } else if 49 <= n < 58 {
        Some((false, n - 49 + 30))
    } else if c == '0' {
        Some((false, 39))
    } else if c == '!' {
        Some((true, 30))
    } else if c == '@' {
        Some((true, 31))
    } else if c == '#' {
        Some((true, 32))
    } else if c == '$' {
        Some((true, 33))
    } else if c == '%' {
        Some((true, 34))
    } else if c == '^' {
        Some((true, 35))
    } else if c == '&' {
        Some((true, 36))
    } else if c == '*' {
        Some((true, 37))
    } else if c == '(' {
        Some((true, 38))
    } else if c == ')' {
        Some((true, 39))
    } else if c == '-' {
        Some((false, 45))
    } else if c == '_' {
        Some((true, 45))
    } else if c == '=' {
        Some((false, 46))
    } else if c == '+' {
        Some((true, 46))
    } else if c == '[' {
        Some((false, 47))
    } else if c == '{' {
        Some((true, 47))
    } else if c == ']' {
        Some((false, 48))
    } else if c == '}' {
        Some((true, 48))
    } else if c == '\\' {
        Some((false, 49))
    } else if c == '|' {
        Some((true, 49))
    } else if c == ';' {
        Some((false, 51))
    } else if c == ':' {
        Some((true, 51))
    } else if c == '\'' {
        Some((false, 52))
    } else if c == '"' {
        Some((true, 52))
    } else if c == '`' {
        Some((false, 53))
    } else if c == '~' {
        Some((true, 53))
    } else if c == ',' {
        Some((false, 54))
    } else if c == '<' {
        Some((true, 54))
    } else if c == '.' {
        Some((false, 55))
    } else if c == '>' {
        Some((true, 55))
    } else if c == '/' {
        Some((false, 56))
    } else if c == '?' {
        Some((true, 56))
    } else {
        None
    }
}

/// The printable character of the character index `i`.
pub open spec fn spec_idx_char(i: int) -> char {
    spec_usb_char(spec_idx_shifted(i), spec_idx_usb(i))
}

/// Printing a table entry and mapping the character back recovers the entry:
/// the table is injective over the three bands.
pub proof fn lemma_char_usb_round_trip(shifted: bool, usb: int)
    requires
        spec_usb_idx(shifted, usb) is Some,
    ensures
        spec_char_usb(spec_usb_char(shifted, usb)) == Some((shifted, usb)),
{
}

/// A node of the prefix tree. A leaf has no children; an inner node has one
/// child per character index. A leaf's code word is its path from the root.
pub struct Node {
    pub children: Option<Children>,
}

/// The child array of an inner node, one slot per character index.
pub struct Children {
    pub contents: Vec<Node>,
}

impl Node {
    /// Split a character index into its shift flag and USB HID scancode.
    pub fn idx_to_usb(idx: u8) -> (r: Result<(bool, u8), DecodeError>)
        requires
            idx < USB_HID_COUNT,
        ensures
            r matches Ok(p) && p.0 == spec_idx_shifted(idx as int) && p.1 == spec_idx_usb(
                idx as int,
            ),
    {
        let shifted = idx / HALF_USB_HID_COUNT != 0;
        let base_idx = idx % HALF_USB_HID_COUNT;
        Ok(
            (
                shifted,
                if base_idx < USB_RANGE_0_HI - USB_RANGE_0_LO {
                    base_idx + USB_RANGE_0_LO
                } else if base_idx < USB_RANGE_0_HI - USB_RANGE_0_LO + USB_RANGE_1_HI
                    - USB_RANGE_1_LO {
                    base_idx + USB_RANGE_0_LO + USB_RANGE_1_LO - USB_RANGE_0_HI
                } else {
                    base_idx + USB_RANGE_0_LO + USB_RANGE_1_LO - USB_RANGE_0_HI + USB_RANGE_2_LO
                        - USB_RANGE_1_HI
                },
            ),
        )
    }

    /// The character index of a scancode; `OutOfRange` exactly when the
    /// scancode lies outside the three declared bands.
    pub fn usb_to_idx(shifted: bool, usb: u8) -> (r: Result<u8, DecodeError>)
        ensures
            match r {
                Ok(i) => spec_usb_idx(shifted, usb as int) == Some(i as int) && i < USB_HID_COUNT,
                Err(e) => spec_usb_idx(shifted, usb as int) is None && (e matches
                    DecodeError::OutOfRange(u) && u == usb),
            },
    {
        let base_decoded: u8 = if usb >= USB_RANGE_0_LO && usb < USB_RANGE_0_HI {
            usb - USB_RANGE_0_LO
        } else if usb >= USB_RANGE_1_LO && usb < USB_RANGE_1_HI {
            usb - (USB_RANGE_1_LO - USB_RANGE_0_HI) - USB_RANGE_0_LO
        } else if usb >= USB_RANGE_2_LO && usb < USB_RANGE_2_HI {
            usb - (USB_RANGE_2_LO - USB_RANGE_1_HI) - (USB_RANGE_1_LO - USB_RANGE_0_HI)
                - USB_RANGE_0_LO
        } else {
            return Err(DecodeError::OutOfRange(usb));
        };
        if shifted {
            Ok(base_decoded + HALF_USB_HID_COUNT)
        } else {
            Ok(base_decoded)
        }
    }
}

/// The printable character for `(shifted, usb)`.
pub fn usb_char(shifted: bool, usb: u8) -> (c: char)
    requires
        spec_usb_idx(shifted, usb as int) is Some,
    ensures
        c == spec_usb_char(shifted, usb as int),
{
    if usb < 30 {
        if shifted {
            ((usb - 4 + 65) as u8) as char
        } else {
            ((usb - 4 + 97) as u8) as char
        }
    } else if usb < 39 {
        if shifted {
            match usb {
                30 => '!',
                31 => '@',
                32 => '#',
                33 => '$',
                34 => '%',
                35 => '^',
                36 => '&',
                37 => '*',
                _ => '(',
            }
        } else {
            ((usb - 30 + 49) as u8) as char
        }
    } else {
        match (shifted, usb) {
            (true, 39) => ')',
            (false, 39) => '0',
            (true, 45) => '_',
            (false, 45) => '-',
            (true, 46) => '+',
            (false, 46) => '=',
            (true, 47) => '{',
            (false, 47) => '[',
            (true, 48) => '}',
            (false, 48) => ']',
            (true, 49) => '|',
            (false, 49) => '\\',
            (true, 51) => ':',
            (false, 51) => ';',
            (true, 52) => '"',
            (false, 52) => '\'',
            (true, 53) => '~',
            (false, 53) => '`',
            (true, 54) => '<',
            (false, 54) => ',',
            (true, 55) => '>',
            (false, 55) => '.',
            (true, 56) => '?',
            _ => '/',
        }
    }
}

/// The `(shifted, usb)` pair whose printable form is `c`, or `None` when the
/// table does not produce `c`.
pub fn char_to_usb(c: char) -> (r: Option<(bool, u8)>)
    ensures
        match r {
            Some(p) => spec_char_usb(c) == Some((p.0, p.1 as int)),
            None => spec_char_usb(c) is None,
        },
{
    let n = c as u32;
    if 97 <= n && n < 123 {
        Some((false, (n - 97 + 4) as u8))
    } else if 65 <= n && n < 91 {
        Some((true, (n - 65 + 4) as u8))
    } else if 49 <= n && n < 58 {
        Some((false, (n - 49 + 30) as u8))
    } else {
        match c {
            '0' => Some((false, 39)),
            '!' => Some((true, 30)),
            '@' => Some((true, 31)),
            '#' => Some((true, 32)),
            '$' => Some((true, 33)),
            '%' => Some((true, 34)),
            '^' => Some((true, 35)),
            '&' => Some((true, 36)),
            '*' => Some((true, 37)),
            '(' => Some((true, 38)),
            ')' => Some((true, 39)),
            '-' => Some((false, 45)),
            '_' => Some((true, 45)),
            '=' => Some((false, 46)),
            '+' => Some((true, 46)),
            '[' => Some((false, 47)),
            '{' => Some((true, 47)),
            ']' => Some((false, 48)),
            '}' => Some((true, 48)),
            '\\' => Some((false, 49)),
            '|' => Some((true, 49)),
            ';' => Some((false, 51)),
            ':' => Some((true, 51)),
            '\'' => Some((false, 52)),
            '"' => Some((true, 52)),
            '`' => Some((false, 53)),
            '~' => Some((true, 53)),
            ',' => Some((false, 54)),
            '<' => Some((true, 54)),
            '.' => Some((false, 55)),
            '>' => Some((true, 55)),
            '/' => Some((false, 56)),
            '?' => Some((true, 56)),
            _ => None,
        }
    }
}

/// The concatenated printable form of a sequence of character indices.
pub open spec fn spec_word_chars(w: Seq<u8>) -> Seq<char>
    decreases w.len(),
{
    if w.len() == 0 {
        Seq::empty()
    } else {
        seq![spec_idx_char(w[0] as int)] + spec_word_chars(w.drop_first())
    }
}

impl Node {
    /// The single printable character of one character index.
    pub fn idx_to_string(idx: u8) -> (r: Result<String, DecodeError>)
        requires
            idx < USB_HID_COUNT,
        ensures
            r matches Ok(s) && s@ == seq![spec_idx_char(idx as int)],
    {
        let (shifted, usb) = match Self::idx_to_usb(idx) {
            Ok(p) => p,
            Err(e) => {
                return Err(e);
            },
        };
        proof {
            lemma_idx_usb_round_trip(idx as int);
        }
        let c = usb_char(shifted, usb);
        let mut s = String::new();
        crate::keyboard_config::push_char(&mut s, c);
        proof {
            assert(s@ =~= seq![spec_idx_char(idx as int)]);
        }
        Ok(s)
    }

    /// The printable string of a whole code word: one character per index.
    pub fn idxs_to_string(idxs: &Vec<u8>) -> (r: Result<String, DecodeError>)
        requires
            forall|k: int| 0 <= k < idxs@.len() ==> idxs@[k] < USB_HID_COUNT,
        ensures
            r matches Ok(s) && s@ == spec_word_chars(idxs@),
    {
        let mut s = String::new();
        let mut k: usize = 0;
        while k < idxs.len()
            invariant
                k <= idxs@.len(),
                forall|j: int| 0 <= j < idxs@.len() ==> idxs@[j] < USB_HID_COUNT,
                s@ == spec_word_chars(idxs@.take(k as int)),
            decreases idxs@.len() - k,
        {
            let ghost pre = s@;
            let (shifted, usb) = match Self::idx_to_usb(idxs[k]) {
                Ok(p) => p,
                Err(e) => {
                    return Err(e);
                },
            };
            proof {
                lemma_idx_usb_round_trip(idxs@[k as int] as int);
            }
            let c = usb_char(shifted, usb);
            crate::keyboard_config::push_char(&mut s, c);
            proof {
                lemma_word_chars_take_step(idxs@, k as int);
                assert(s@ =~= pre.push(spec_idx_char(idxs@[k as int] as int)));
            }
            k = k + 1;
        }
        proof {
            assert(idxs@.take(idxs@.len() as int) =~= idxs@);
        }
        Ok(s)
    }
}

/// Extending the prefix of a word by one index appends one character.
proof fn lemma_word_chars_take_step(w: Seq<u8>, k: int)
    requires
        0 <= k < w.len(),
    ensures
        spec_word_chars(w.take(k + 1)) == spec_word_chars(w.take(k)).push(
            spec_idx_char(w[k] as int),
        ),
    decreases k,
{
    if k == 0 {
        assert(w.take(1) =~= seq![w[0]]);
        assert(w.take(1).drop_first() =~= Seq::<u8>::empty());
        assert(w.take(0) =~= Seq::<u8>::empty());
        assert(spec_word_chars(w.take(1)) =~= spec_word_chars(w.take(0)).push(
            spec_idx_char(w[0] as int),
        ));
    } else {
        lemma_word_chars_take_step(w.drop_first(), k - 1);
        assert(w.take(k + 1).drop_first() =~= w.drop_first().take(k));
        assert(w.take(k).drop_first() =~= w.drop_first().take(k - 1));
        assert(w.take(k + 1)[0] == w[0] && w.take(k)[0] == w[0]);
        assert(w.drop_first()[k - 1] == w[k]);
        assert(spec_word_chars(w.take(k + 1)) =~= spec_word_chars(w.take(k)).push(
            spec_idx_char(w[k] as int),
        ));
    }
}

/// Whether `a` is a prefix of `b` (equality included).
pub open spec fn is_prefix_of(a: Seq<u8>, b: Seq<u8>) -> bool {
    a.len() <= b.len() && a =~= b.take(a.len() as int)
}

/// The node reached from `n` by following `path`, one child per index.
pub open spec fn node_at(n: Node, path: Seq<u8>) -> Option<Node>
    decreases path.len(),
{
    if path.len() == 0 {
        Some(n)
    } else {
        match n.children {
            None => None,
            Some(cs) => if 0 <= path[0] < cs.contents@.len() {
                node_at(cs.contents@[path[0] as int], path.drop_first())
            } else {
                None
            },
        }
    }
}

/// Whether `path` leads to a leaf of `t`: a settled code word of the tree.
pub open spec fn is_leaf_at(t: Node, path: Seq<u8>) -> bool {
    match node_at(t, path) {
        Some(n) => n.children is None,
        None => false,
    }
}

/// Every inner node of `t` has exactly `n_syms` children.
pub open spec fn tree_wf(t: Node, n_syms: int) -> bool {
    forall|p: Seq<u8>|
        match #[trigger] node_at(t, p) {
            Some(n) => match n.children {
                Some(cs) => cs.contents@.len() == n_syms,
                None => true,
            },
            None => true,
        }
}

/// A leaf is a well-formed tree.
pub proof fn lemma_tree_wf_leaf(t: Node, n_syms: int)
    requires
        t.children is None,
    ensures
        tree_wf(t, n_syms),
{
    assert forall|p: Seq<u8>|
        match #[trigger] node_at(t, p) {
            Some(n) => match n.children {
                Some(cs) => cs.contents@.len() == n_syms,
                None => true,
            },
            None => true,
        } by {
        if p.len() > 0 {
            assert(node_at(t, p) is None);
        }
    }
}

/// A tree whose root has `n_syms` children, each a well-formed tree, is
/// well-formed.
pub proof fn lemma_tree_wf_one_step(t: Node, n_syms: int)
    requires
        t.children matches Some(cs) && cs.contents@.len() == n_syms && (forall|j: int|
            0 <= j < n_syms ==> tree_wf(#[trigger] cs.contents@[j], n_syms)),
    ensures
        tree_wf(t, n_syms),
{
    let cs = t.children->0;
    assert forall|p: Seq<u8>|
        match #[trigger] node_at(t, p) {
            Some(n) => match n.children {
                Some(ccs) => ccs.contents@.len() == n_syms,
                None => true,
            },
            None => true,
        } by {
        if p.len() > 0 {
            if 0 <= p[0] < n_syms {
                assert(tree_wf(cs.contents@[p[0] as int], n_syms));
                assert(node_at(t, p) == node_at(cs.contents@[p[0] as int], p.drop_first()));
            }
        }
    }
}

/// Each child of the root of a well-formed tree is itself well-formed.
pub proof fn lemma_tree_wf_child(t: Node, n_syms: int, j: int)
    requires
        tree_wf(t, n_syms),
        t.children matches Some(cs) && 0 <= j < cs.contents@.len(),
        j < 256,
    ensures
        tree_wf(t.children->0.contents@[j], n_syms),
{
    let child = t.children->0.contents@[j];
    assert forall|p: Seq<u8>|
        match #[trigger] node_at(child, p) {
            Some(n) => match n.children {
                Some(ccs) => ccs.contents@.len() == n_syms,
                None => true,
            },
            None => true,
        } by {
        let full = seq![j as u8] + p;
        assert(full[0] == j as u8 && full.drop_first() =~= p);
        assert(node_at(t, full) == node_at(child, p));
        assert(match node_at(t, full) {
            Some(n) => match n.children {
                Some(ccs) => ccs.contents@.len() == n_syms,
                None => true,
            },
            None => true,
        });
    }
}

/// Following a concatenated path is following its parts in turn.
pub proof fn lemma_node_at_concat(t: Node, a: Seq<u8>, b: Seq<u8>)
    ensures
        node_at(t, a + b) == match node_at(t, a) {
            Some(m) => node_at(m, b),
            None => None::<Node>,
        },
    decreases a.len(),
{
    if a.len() == 0 {
        assert(a + b =~= b);
    } else {
        assert((a + b)[0] == a[0]);
        match t.children {
            None => {},
            Some(cs) => {
                if 0 <= a[0] < cs.contents@.len() {
                    assert((a + b).drop_first() =~= a.drop_first() + b);
                    lemma_node_at_concat(cs.contents@[a[0] as int], a.drop_first(), b);
                }
            },
        }
    }
}

/// If a path leads anywhere, so does each of its prefixes, and the node at a
/// proper prefix is an inner node.
pub proof fn lemma_node_at_prefix(t: Node, p: Seq<u8>, q: Seq<u8>)
    requires
        node_at(t, p) is Some,
        is_prefix_of(q, p),
    ensures
        node_at(t, q) is Some,
        q.len() < p.len() ==> node_at(t, q)->0.children is Some,
{
    let rest = p.skip(q.len() as int);
    assert(p =~= q + rest);
    lemma_node_at_concat(t, q, rest);
    if q.len() < p.len() {
        assert(node_at(node_at(t, q)->0, rest) is Some);
    }
}

fn make_leaves(n_syms: usize) -> (v: Vec<Node>)
    ensures
        v@.len() == n_syms,
        forall|j: int| 0 <= j < n_syms ==> (#[trigger] v@[j]).children is None,
{
    let mut v: Vec<Node> = Vec::new();
    let mut j: usize = 0;
    while j < n_syms
        invariant
            j <= n_syms,
            v@.len() == j,
            forall|k: int| 0 <= k < j ==> (#[trigger] v@[k]).children is None,
        decreases n_syms - j,
    {
        v.push(Node { children: None });
        j = j + 1;
    }
    v
}

impl Node {
    /// Replace the leaf at `path[d..]` by an inner node with `n_syms` fresh
    /// leaf children; every node off that path keeps its subtree.
    #[verifier::rlimit(60)]
    pub fn expand_at(self, path: &Vec<u8>, d: usize, n_syms: usize) -> (r: Node)
        requires
            d <= path@.len(),
            n_syms <= 256,
            tree_wf(self, n_syms as int),
            is_leaf_at(self, path@.skip(d as int)),
        ensures
            tree_wf(r, n_syms as int),
            node_at(r, path@.skip(d as int)) matches Some(m) && m.children matches Some(cs)
                && cs.contents@.len() == n_syms && (forall|j: int|
                0 <= j < n_syms ==> (#[trigger] cs.contents@[j]).children is None),
            forall|q: Seq<u8>|
                !is_prefix_of(path@.skip(d as int), q) && !is_prefix_of(q, path@.skip(d as int))
                    ==> node_at(r, q) == node_at(self, q),
        decreases path@.len() - d,
    {
        let ghost rem = path@.skip(d as int);
        if d == path.len() {
            let r = Node { children: Some(Children { contents: make_leaves(n_syms) }) };
            proof {
                assert(rem =~= Seq::<u8>::empty());
                assert(node_at(r, rem) == Some(r));
                assert forall|q: Seq<u8>|
                    !is_prefix_of(rem, q) && !is_prefix_of(q, rem) implies node_at(r, q)
                    == node_at(self, q) by {
                    assert(is_prefix_of(rem, q));
                }
                assert forall|j: int|
                    0 <= j < n_syms implies tree_wf(
                    #[trigger] r.children->0.contents@[j],
                    n_syms as int,
                ) by {
                    lemma_tree_wf_leaf(r.children->0.contents@[j], n_syms as int);
                }
                lemma_tree_wf_one_step(r, n_syms as int);
            }
            r
        } else {
            let idx = path[d] as usize;
            proof {
                assert(rem.len() > 0 && rem[0] == path@[d as int]);
                assert(node_at(self, rem) is Some);
                assert(self.children is Some);
                assert(idx < self.children->0.contents@.len());
                assert(node_at(self, Seq::<u8>::empty()) == Some(self));
                assert(self.children->0.contents@.len() == n_syms);
            }
            let Node { children } = self;
            match children {
                Some(cs) => {
                    let Children { mut contents } = cs;
                    let ghost old_contents = contents@;
                    let child = contents.remove(idx);
                    proof {
                        // the child is the subtree the remaining path enters
                        assert(child == old_contents[idx as int]);
                        assert(rem.drop_first() =~= path@.skip(d + 1));
                        // a subtree of a well-formed tree is well-formed
                        assert forall|p: Seq<u8>| #[trigger]
                            node_at(child, p) is Some implies match node_at(child, p) {
                            Some(n) => match n.children {
                                Some(ccs) => ccs.contents@.len() == n_syms,
                                None => true,
                            },
                            None => true,
                        } by {
                            let full = seq![path@[d as int]] + p;
                            lemma_node_at_concat(self, seq![path@[d as int]], full.skip(1));
                            assert(full.skip(1) =~= p);
                            assert(seq![path@[d as int]].drop_first() =~= Seq::<u8>::empty());
                            assert(node_at(child, Seq::<u8>::empty()) == Some(child));
                            assert(node_at(self, seq![path@[d as int]]) == Some(child));
                            assert(node_at(self, full) == node_at(child, p));
                        }
                    }
                    let child2 = child.expand_at(path, d + 1, n_syms);
                    contents.insert(idx, child2);
                    let r = Node { children: Some(Children { contents }) };
                    proof {
                        let ghost rem1 = path@.skip(d + 1);
                        assert(contents@ =~= old_contents.update(idx as int, child2));
                        assert(node_at(r, rem) == node_at(child2, rem1));
                        // divergent paths keep their old subtrees
                        assert forall|q: Seq<u8>|
                            !is_prefix_of(rem, q) && !is_prefix_of(q, rem) implies node_at(r, q)
                            == node_at(self, q) by {
                            if q.len() == 0 {
                                assert(is_prefix_of(q, rem));
                            } else if 0 <= q[0] < old_contents.len() {
                                if q[0] == idx {
                                    assert(rem.drop_first() =~= rem1);
                                    if is_prefix_of(rem1, q.drop_first()) {
                                        assert forall|i: int| 0 <= i < rem.len() implies rem[i]
                                            == q.take(rem.len() as int)[i] by {
                                            if i > 0 {
                                                assert(rem[i] == rem1[i - 1]);
                                                assert(rem1[i - 1] == q.drop_first().take(
                                                    rem1.len() as int,
                                                )[i - 1]);
                                                assert(q.drop_first()[i - 1] == q[i]);
                                            }
                                        }
                                        assert(rem =~= q.take(rem.len() as int));
                                        assert(false);
                                    }
                                    if is_prefix_of(q.drop_first(), rem1) {
                                        assert forall|i: int| 0 <= i < q.len() implies q[i]
                                            == rem.take(q.len() as int)[i] by {
                                            if i > 0 {
                                                assert(q[i] == q.drop_first()[i - 1]);
                                                assert(q.drop_first()[i - 1] == rem1.take(
                                                    q.drop_first().len() as int,
                                                )[i - 1]);
                                                assert(rem1[i - 1] == rem[i]);
                                            }
                                        }
                                        assert(q =~= rem.take(q.len() as int));
                                        assert(false);
                                    }
                                    assert(node_at(r, q) == node_at(child2, q.drop_first()));
                                    assert(node_at(child2, q.drop_first()) == node_at(
                                        child,
                                        q.drop_first(),
                                    ));
                                    assert(node_at(self, q) == node_at(child, q.drop_first()));
                                } else {
                                    assert(node_at(r, q) == node_at(
                                        old_contents[q[0] as int],
                                        q.drop_first(),
                                    ));
                                    assert(node_at(self, q) == node_at(
                                        old_contents[q[0] as int],
                                        q.drop_first(),
                                    ));
                                }
                            } else {
                                assert(node_at(r, q) is None);
                                assert(node_at(self, q) is None);
                            }
                        }
                        // well-formedness of the rebuilt tree
                        assert forall|j: int|
                            0 <= j < n_syms implies tree_wf(
                            #[trigger] r.children->0.contents@[j],
                            n_syms as int,
                        ) by {
                            if j == idx {
                                assert(r.children->0.contents@[j] == child2);
                            } else {
                                lemma_tree_wf_child(self, n_syms as int, j);
                                assert(r.children->0.contents@[j] == old_contents[j]);
                            }
                        }
                        lemma_tree_wf_one_step(r, n_syms as int);
                    }
                    r
                },
                None => {
                    proof {
                        assert(false);
                    }
                    Node { children: None }
                },
            }
        }
    }
}

/// Greedy tokenization of one code word: walk from `n` consuming indices
/// until a leaf is reached. `None` when the stream ends mid-word or names a
/// child that does not exist.
pub open spec fn take_word(n: Node, s: Seq<u8>) -> Option<Seq<u8>>
    decreases s.len(),
{
    match n.children {
        None => Some(Seq::empty()),
        Some(cs) => if s.len() == 0 {
            None
        } else if 0 <= s[0] < cs.contents@.len() {
            match take_word(cs.contents@[s[0] as int], s.drop_first()) {
                None => None,
                Some(w) => Some(seq![s[0]] + w),
            }
        } else {
            None
        },
    }
}

/// Greedy tokenization of a whole index stream into code words.
pub open spec fn tokenize(t: Node, s: Seq<u8>) -> Option<Seq<Seq<u8>>>
    decreases s.len(),
{
    if s.len() == 0 {
        Some(Seq::empty())
    } else {
        match take_word(t, s) {
            None => None,
            Some(w) => if 1 <= w.len() <= s.len() {
                match tokenize(t, s.skip(w.len() as int)) {
                    None => None,
                    Some(ws) => Some(seq![w] + ws),
                }
            } else {
                None
            },
        }
    }
}

/// A word consumed by the greedy walk is never longer than the stream.
pub proof fn lemma_take_word_len(n: Node, s: Seq<u8>)
    requires
        take_word(n, s) is Some,
    ensures
        take_word(n, s)->0.len() <= s.len(),
    decreases s.len(),
{
    match n.children {
        None => {},
        Some(cs) => {
            if s.len() > 0 && 0 <= s[0] < cs.contents@.len() {
                lemma_take_word_len(cs.contents@[s[0] as int], s.drop_first());
            }
        },
    }
}

/// The greedy walk started on a stream that opens with a leaf word consumes
/// exactly that word, whatever follows it.
pub proof fn lemma_take_word_of_leaf_word(t: Node, p: Seq<u8>, rest: Seq<u8>)
    requires
        is_leaf_at(t, p),
    ensures
        take_word(t, p + rest) == Some(p),
    decreases p.len(),
{
    if p.len() == 0 {
        assert(node_at(t, p) == Some(t));
        assert(p + rest =~= rest);
        assert(take_word(t, rest) == Some(Seq::<u8>::empty()));
        assert(p =~= Seq::<u8>::empty());
    } else {
        assert(t.children is Some);
        let cs = t.children->0;
        assert(0 <= p[0] < cs.contents@.len());
        let child = cs.contents@[p[0] as int];
        assert(node_at(child, p.drop_first()) == node_at(t, p));
        assert((p + rest)[0] == p[0]);
        assert((p + rest).drop_first() =~= p.drop_first() + rest);
        lemma_take_word_of_leaf_word(child, p.drop_first(), rest);
        assert(seq![p[0]] + p.drop_first() =~= p);
    }
}

/// Greedy decoding inverts concatenation: tokenizing the concatenation of any
/// sequence of leaf words of an expanded tree yields exactly those words.
/// This is what makes the emitted code uniquely decodable.
pub proof fn lemma_tokenize_flatten(t: Node, ws: Seq<Seq<u8>>)
    requires
        t.children is Some,
        forall|i: int| 0 <= i < ws.len() ==> is_leaf_at(t, #[trigger] ws[i]),
    ensures
        tokenize(t, ws.flatten()) == Some(ws),
    decreases ws.len(),
{
    if ws.len() == 0 {
        assert(ws.flatten() =~= Seq::<u8>::empty());
        assert(tokenize(t, ws.flatten()) == Some(Seq::<Seq<u8>>::empty()));
        assert(Seq::<Seq<u8>>::empty() =~= ws);
    } else {
        let w0 = ws[0];
        let rest = ws.drop_first();
        assert(ws.flatten() == w0 + rest.flatten());
        assert(is_leaf_at(t, w0));
        if w0.len() == 0 {
            assert(node_at(t, w0) == Some(t));
            assert(false);
        }
        lemma_take_word_of_leaf_word(t, w0, rest.flatten());
        assert((w0 + rest.flatten()).skip(w0.len() as int) =~= rest.flatten());
        assert(forall|i: int| 0 <= i < rest.len() ==> is_leaf_at(t, #[trigger] rest[i]));
        lemma_tokenize_flatten(t, rest);
        assert(seq![w0] + rest =~= ws);
    }
}

impl Node {
    /// The node reached by `value` from this node, if the path exists.
    pub fn get_child(&self, value: &Vec<u8>) -> (r: Option<&Node>)
        ensures
            match node_at(*self, value@) {
                Some(n) => r matches Some(p) && *p == n,
                None => r is None,
            },
    {
        let mut cur: &Node = self;
        let mut i: usize = 0;
        while i < value.len()
            invariant
                i <= value@.len(),
                node_at(*self, value@.take(i as int)) == Some(*cur),
            decreases value@.len() - i,
        {
            match &cur.children {
                None => {
                    proof {
                        assert(value@.take(i as int) + value@.skip(i as int) =~= value@);
                        lemma_node_at_concat(*self, value@.take(i as int), value@.skip(i as int));
                        assert(value@.skip(i as int).len() > 0);
                    }
                    return None;
                },
                Some(cs) => {
                    let idx = value[i] as usize;
                    if idx >= cs.contents.len() {
                        proof {
                            assert(value@.take(i as int) + value@.skip(i as int) =~= value@);
                            lemma_node_at_concat(
                                *self,
                                value@.take(i as int),
                                value@.skip(i as int),
                            );
                            assert(value@.skip(i as int)[0] == value@[i as int]);
                        }
                        return None;
                    }
                    proof {
                        assert(value@.take(i + 1).drop_last() =~= value@.take(i as int));
                        assert(value@.take(i + 1) =~= value@.take(i as int) + seq![value@[i as int]]);
                        lemma_node_at_concat(
                            *self,
                            value@.take(i as int),
                            seq![value@[i as int]],
                        );
                        assert(seq![value@[i as int]].drop_first() =~= Seq::<u8>::empty());
                        assert(node_at(
                            cs.contents@[value@[i as int] as int],
                            Seq::<u8>::empty(),
                        ) == Some(cs.contents@[value@[i as int] as int]));
                    }
                    cur = &cs.contents[idx];
                    i = i + 1;
                },
            }
        }
        proof {
            assert(value@.take(value@.len() as int) =~= value@);
        }
        Some(cur)
    }

    /// Read the next code word off the front of the stream; `value` holds the
    /// stream reversed, so the front is its last element.
    pub fn read_last_word_(&self, out: &mut Vec<u8>, value: &mut Vec<u8>) -> (r: Result<
        (),
        DecodeError,
    >)
        ensures
            match take_word(*self, old(value)@.reverse()) {
                Some(w) => r is Ok && final(out)@ == old(out)@ + w && final(value)@ == old(
                    value,
                )@.take(old(value)@.len() - w.len()),
                None => r matches Err(e) && e is TruncatedInput,
            },
        decreases old(value)@.len(),
    {
        let ghost s = old(value)@.reverse();
        match &self.children {
            None => {
                proof {
                    assert(take_word(*self, s) == Some(Seq::<u8>::empty()));
                    assert(out@ + Seq::<u8>::empty() =~= out@);
                    assert(value@.take(value@.len() as int) =~= value@);
                }
                Ok(())
            },
            Some(cs) => {
                match value.pop() {
                    None => {
                        proof {
                            assert(s.len() == 0);
                        }
                        Err(DecodeError::TruncatedInput)
                    },
                    Some(last) => {
                        proof {
                            assert(s.len() > 0 && s[0] == last);
                            assert(value@ =~= old(value)@.drop_last());
                            assert(value@.reverse() =~= s.drop_first());
                        }
                        if (last as usize) < cs.contents.len() {
                            out.push(last);
                            let ghost mid_out = out@;
                            let ghost mid_value = value@;
                            let child = &cs.contents[last as usize];
                            let r = child.read_last_word_(out, value);
                            proof {
                                match take_word(*child, s.drop_first()) {
                                    Some(w1) => {
                                        let w = seq![s[0]] + w1;
                                        assert(take_word(*self, s) == Some(w));
                                        assert(out@ =~= old(out)@ + w);
                                        lemma_take_word_len(*child, s.drop_first());
                                        assert(value@ =~= old(value)@.take(
                                            old(value)@.len() - w.len(),
                                        ));
                                    },
                                    None => {
                                        assert(take_word(*self, s) is None);
                                    },
                                }
                            }
                            r
                        } else {
                            Err(DecodeError::TruncatedInput)
                        }
                    },
                }
            },
        }
    }

    /// Read the next code word off the front of the (reversed) stream and
    /// return it.
    pub fn read_last_word(&self, value: &mut Vec<u8>) -> (r: Result<Vec<u8>, DecodeError>)
        ensures
            match take_word(*self, old(value)@.reverse()) {
                Some(w) => r matches Ok(out) && out@ == w && final(value)@ == old(value)@.take(
                    old(value)@.len() - w.len(),
                ),
                None => r matches Err(e) && e is TruncatedInput,
            },
    {
        let mut out: Vec<u8> = Vec::new();
        match self.read_last_word_(&mut out, value) {
            Ok(()) => {
                proof {
                    if take_word(*self, old(value)@.reverse()) is Some {
                        assert(out@ =~= take_word(*self, old(value)@.reverse())->0);
                    }
                }
                Ok(out)
            },
            Err(e) => Err(e),
        }
    }
}

/// The words a FIFO queue of code words holds, oldest first.
pub uninterp spec fn queue_elems(q: queues::Queue<Vec<u8>>) -> Seq<Seq<u8>>;

#[verifier::external_type_specification]
#[verifier::external_body]
#[verifier::reject_recursive_types(T)]
pub struct ExQueue<T: Clone>(queues::Queue<T>);

/// Relies on queues::Queue::new: a freshly created queue is empty.
#[verifier::external_body]
fn word_queue_new() -> (q: queues::Queue<Vec<u8>>)
    ensures
        queue_elems(q) == Seq::<Seq<u8>>::empty(),
{
    queues::Queue::new()
}

/// Relies on queues::Queue::add (its IsQueue impl): pushes the value onto the
/// back of the queue's vector and always returns `Ok(None)`.
#[verifier::external_body]
fn word_queue_add(q: &mut queues::Queue<Vec<u8>>, w: Vec<u8>)
    ensures
        queue_elems(*final(q)) == queue_elems(*old(q)).push(w@),
{
    let _ = queues::IsQueue::add(q, w);
}

/// Relies on queues::Queue::remove (its IsQueue impl): takes the oldest
/// element off the front, and errs exactly when the queue is empty.
#[verifier::external_body]
fn word_queue_remove(q: &mut queues::Queue<Vec<u8>>) -> (r: Option<Vec<u8>>)
    ensures
        queue_elems(*old(q)).len() == 0 ==> r is None && queue_elems(*final(q)) == queue_elems(
            *old(q),
        ),
        queue_elems(*old(q)).len() > 0 ==> (r matches Some(w) && w@ == queue_elems(*old(q))[0]
            && queue_elems(*final(q)) == queue_elems(*old(q)).drop_first()),
{
    match queues::IsQueue::remove(q) {
        Ok(w) => Some(w),
        Err(_) => None,
    }
}

/// Relies on queues::Queue::size (its IsQueue impl): the number of elements.
#[verifier::external_body]
fn word_queue_size(q: &queues::Queue<Vec<u8>>) -> (n: usize)
    ensures
        n == queue_elems(*q).len(),
{
    queues::IsQueue::size(q)
}

/// Every character of every word is a valid child index.
pub open spec fn words_in_range(ws: Seq<Seq<u8>>, n_syms: int) -> bool {
    forall|i: int, k: int|
        0 <= i < ws.len() && 0 <= k < ws[i].len() ==> #[trigger] ws[i][k] < n_syms
}

/// No word in the list is a prefix of another (equality included): the words
/// form a prefix code.
pub open spec fn prefix_free(ws: Seq<Seq<u8>>) -> bool {
    forall|i: int, j: int|
        0 <= i < ws.len() && 0 <= j < ws.len() && i != j ==> !is_prefix_of(
            #[trigger] ws[i],
            #[trigger] ws[j],
        )
}

/// How many words have two or more characters.
pub open spec fn multi_count(ws: Seq<Seq<u8>>) -> nat
    decreases ws.len(),
{
    if ws.len() == 0 {
        0
    } else {
        multi_count(ws.drop_last()) + if ws.last().len() >= 2 {
            1nat
        } else {
            0nat
        }
    }
}

/// Removing the oldest word adjusts the multi-character count by that word's
/// own contribution.
pub proof fn lemma_multi_count_drop_first(ws: Seq<Seq<u8>>)
    requires
        ws.len() > 0,
    ensures
        multi_count(ws) == multi_count(ws.drop_first()) + if ws[0].len() >= 2 {
            1nat
        } else {
            0nat
        },
    decreases ws.len(),
{
    if ws.len() == 1 {
        assert(ws.drop_last() =~= Seq::<Seq<u8>>::empty());
        assert(ws.drop_first() =~= Seq::<Seq<u8>>::empty());
        assert(ws.last() == ws[0]);
    } else {
        lemma_multi_count_drop_first(ws.drop_last());
        assert(ws.drop_last().drop_first() =~= ws.drop_first().drop_last());
        assert(ws.drop_last()[0] == ws[0]);
        assert(ws.drop_first().last() == ws.last());
    }
}

/// An exact copy of a word.
fn copy_word(w: &Vec<u8>) -> (r: Vec<u8>)
    ensures
        r@ == w@,
{
    let mut r: Vec<u8> = Vec::new();
    let mut i: usize = 0;
    while i < w.len()
        invariant
            i <= w@.len(),
            r@ =~= w@.take(i as int),
        decreases w@.len() - i,
    {
        r.push(w[i]);
        i = i + 1;
    }
    proof {
        assert(w@.take(w@.len() as int) =~= w@);
    }
    r
}

/// Everything `build_code` promises of its result: the words form a prefix
/// code of leaves of the tree, both capacity caps hold, and the cap that
/// stopped the growth is tight.
pub open spec fn code_ok(
    tree: Node,
    words: Seq<Seq<u8>>,
    n_syms: int,
    max_chords: int,
    max_multichar: int,
) -> bool {
    &&& tree_wf(tree, n_syms)
    &&& tree.children is Some
    &&& prefix_free(words)
    &&& forall|i: int| 0 <= i < words.len() ==> is_leaf_at(tree, #[trigger] words[i])
    &&& forall|i: int| 0 <= i < words.len() ==> 1 <= (#[trigger] words[i]).len()
    &&& words_in_range(words, n_syms)
    &&& words.len() <= max_chords
    &&& multi_count(words) <= max_multichar
    &&& (words.len() == max_chords || multi_count(words) == max_multichar)
    &&& (words.len() >= max_chords || words.len() >= n_syms)
}

/// The words of a word list, as mathematical sequences.
pub open spec fn words_view(v: Vec<Vec<u8>>) -> Seq<Seq<u8>> {
    Seq::new(v@.len(), |i: int| v@[i]@)
}

/// Grow a uniquely decodable prefix code by breadth-first expansion, stopping
/// as soon as the total word cap or the multi-character word cap is reached.
pub fn build_code(n_syms: usize, max_chords: usize, max_multichar: usize) -> (r: (
    Node,
    Vec<Vec<u8>>,
))
    requires
        2 <= n_syms <= 256,
        1 <= max_chords,
        1 <= max_multichar,
        max_chords + n_syms < usize::MAX,
    ensures
        code_ok(r.0, words_view(r.1), n_syms as int, max_chords as int, max_multichar as int),
{
    let mut root = Node { children: None };
    let mut q = word_queue_new();
    let empty_word: Vec<u8> = Vec::new();
    word_queue_add(&mut q, empty_word);
    let mut total: usize = 1;
    let mut mc: usize = 0;
    let mut hit: bool = false;
    proof {
        lemma_tree_wf_leaf(root, n_syms as int);
        assert(queue_elems(q) =~= seq![Seq::<u8>::empty()]);
        let e0 = queue_elems(q);
        assert(e0.drop_last() =~= Seq::<Seq<u8>>::empty());
        assert(multi_count(Seq::<Seq<u8>>::empty()) == 0);
        assert(e0.last().len() == 0);
        assert(multi_count(e0) == 0);
        assert(node_at(root, Seq::<u8>::empty()) == Some(root));
    }
    loop
        invariant_except_break
            2 <= n_syms <= 256,
            1 <= max_chords,
            1 <= max_multichar,
            max_chords + n_syms < usize::MAX,
            !hit,
            tree_wf(root, n_syms as int),
            total == queue_elems(q).len(),
            1 <= total <= max_chords,
            mc == multi_count(queue_elems(q)),
            mc < max_multichar,
            prefix_free(queue_elems(q)),
            forall|i: int|
                0 <= i < queue_elems(q).len() ==> is_leaf_at(root, #[trigger] queue_elems(q)[i]),
            words_in_range(queue_elems(q), n_syms as int),
            (forall|i: int|
                0 <= i < queue_elems(q).len() ==> 1 <= (#[trigger] queue_elems(q)[i]).len())
                || queue_elems(q) =~= seq![Seq::<u8>::empty()],
            queue_elems(q) =~= seq![Seq::<u8>::empty()] || total >= n_syms,
        ensures
            tree_wf(root, n_syms as int),
            root.children is Some,
            total == queue_elems(q).len(),
            mc == multi_count(queue_elems(q)),
            prefix_free(queue_elems(q)),
            forall|i: int|
                0 <= i < queue_elems(q).len() ==> is_leaf_at(root, #[trigger] queue_elems(q)[i]),
            forall|i: int|
                0 <= i < queue_elems(q).len() ==> 1 <= (#[trigger] queue_elems(q)[i]).len(),
            words_in_range(queue_elems(q), n_syms as int),
            total <= max_chords,
            mc <= max_multichar,
            total == max_chords || mc == max_multichar,
            total >= max_chords || total >= n_syms,
        decreases max_chords - total,
    {
        let ghost pre_elems = queue_elems(q);
        let w = match word_queue_remove(&mut q) {
            Some(w) => w,
            None => {
                proof {
                    assert(false);
                }
                Vec::new()
            },
        };
        proof {
            lemma_multi_count_drop_first(pre_elems);
        }
        if w.len() > 1 {
            mc = mc - 1;
        }
        total = total - 1;
        let ghost base_elems = queue_elems(q);
        let ghost pre_root = root;
        proof {
            assert(w@.skip(0) =~= w@);
            assert(w@ == pre_elems[0]);
            assert(is_leaf_at(root, pre_elems[0]));
            assert forall|k: int| 0 <= k < w@.len() implies w@[k] < n_syms by {
                assert(pre_elems[0][k] < n_syms);
            }
            assert forall|i: int| 0 <= i < base_elems.len() implies !is_prefix_of(
                w@,
                #[trigger] base_elems[i],
            ) && !is_prefix_of(base_elems[i], w@) by {
                assert(base_elems[i] == pre_elems[i + 1]);
                assert(!is_prefix_of(pre_elems[0], pre_elems[i + 1]));
                assert(!is_prefix_of(pre_elems[i + 1], pre_elems[0]));
            }
            assert forall|i: int| 0 <= i < base_elems.len() implies 1 <= (
            #[trigger] base_elems[i]).len() by {
                if pre_elems =~= seq![Seq::<u8>::empty()] {
                    assert(base_elems.len() == 0);
                } else {
                    assert(1 <= pre_elems[i + 1].len());
                }
            }
            assert forall|i: int, k: int|
                0 <= i < base_elems.len() && 0 <= k < base_elems[i].len() implies #[trigger] base_elems[i][k]
                < n_syms by {
                assert(pre_elems[i + 1][k] < n_syms);
            }
            // a dequeued word with characters, or a surviving multi-character
            // word, can only come from a queue already one fan-out large
            if w@.len() >= 1 {
                assert(!(pre_elems =~= seq![Seq::<u8>::empty()]));
                assert(base_elems.len() >= n_syms - 1);
            }
            if mc >= 1 {
                if base_elems.len() == 0 {
                    assert(base_elems =~= Seq::<Seq<u8>>::empty());
                    assert(multi_count(base_elems) == 0);
                }
                assert(pre_elems.len() >= 2);
                assert(!(pre_elems =~= seq![Seq::<u8>::empty()]));
                assert(base_elems.len() >= n_syms - 1);
            }
        }
        let expanded = root.expand_at(&w, 0, n_syms);
        root = expanded;
        proof {
            // every remaining queued word diverges from `w`, so it is still a
            // leaf of the expanded tree
            assert forall|i: int| 0 <= i < base_elems.len() implies is_leaf_at(
                root,
                #[trigger] base_elems[i],
            ) by {
                assert(!is_prefix_of(w@, base_elems[i]));
                assert(!is_prefix_of(base_elems[i], w@));
                assert(node_at(root, base_elems[i]) == node_at(pre_root, base_elems[i]));
            }
        }
        let mut c: usize = 0;
        while c < n_syms
            invariant_except_break
                2 <= n_syms <= 256,
                1 <= max_chords,
                1 <= max_multichar,
                max_chords + n_syms < usize::MAX,
                !hit,
                c <= n_syms,
                tree_wf(root, n_syms as int),
                node_at(root, w@) matches Some(m) && m.children matches Some(cs)
                    && cs.contents@.len() == n_syms && (forall|j: int|
                    0 <= j < n_syms ==> (#[trigger] cs.contents@[j]).children is None),
                queue_elems(q) == base_elems + Seq::new(c as nat, |j: int| w@.push(j as u8)),
                total == queue_elems(q).len(),
                total < max_chords,
                mc == multi_count(queue_elems(q)),
                mc < max_multichar,
                prefix_free(queue_elems(q)),
                forall|i: int|
                    0 <= i < queue_elems(q).len() ==> is_leaf_at(
                        root,
                        #[trigger] queue_elems(q)[i],
                    ),
                words_in_range(queue_elems(q), n_syms as int),
                forall|k: int| 0 <= k < w@.len() ==> w@[k] < n_syms,
                forall|i: int|
                    0 <= i < base_elems.len() ==> !is_prefix_of(w@, #[trigger] base_elems[i])
                        && !is_prefix_of(base_elems[i], w@),
                forall|i: int| 0 <= i < base_elems.len() ==> 1 <= (#[trigger] base_elems[i]).len(),
                w@.len() >= 1 ==> base_elems.len() >= n_syms - 1,
                mc >= 1 ==> base_elems.len() >= n_syms - 1,
            ensures
                tree_wf(root, n_syms as int),
                root.children is Some,
                total == queue_elems(q).len(),
                mc == multi_count(queue_elems(q)),
                prefix_free(queue_elems(q)),
                forall|i: int|
                    0 <= i < queue_elems(q).len() ==> is_leaf_at(
                        root,
                        #[trigger] queue_elems(q)[i],
                    ),
                words_in_range(queue_elems(q), n_syms as int),
                forall|i: int|
                    0 <= i < queue_elems(q).len() ==> 1 <= (#[trigger] queue_elems(q)[i]).len(),
                total <= max_chords,
                mc <= max_multichar,
                hit ==> (total == max_chords || mc == max_multichar),
                hit ==> (total == max_chords || total >= n_syms),
                !hit ==> (total < max_chords && mc < max_multichar && total == base_elems.len()
                    + n_syms),
            decreases n_syms - c,
        {
            let mut nw = copy_word(&w);
            nw.push(c as u8);
            let ghost elems0 = queue_elems(q);
            word_queue_add(&mut q, nw);
            total = total + 1;
            if w.len() > 0 {
                mc = mc + 1;
            }
            proof {
                let elems1 = queue_elems(q);
                assert(elems1.drop_last() =~= elems0);
                assert(elems1 =~= base_elems + Seq::new((c + 1) as nat, |j: int| w@.push(j as u8)));
                // the fresh word is a leaf: it is the just-created child `c`
                assert(is_leaf_at(root, nw@)) by {
                    lemma_node_at_concat(root, w@, seq![c as u8]);
                    assert(w@ + seq![c as u8] =~= nw@);
                    let m = node_at(root, w@)->0;
                    assert(node_at(m, seq![c as u8]) == Some(m.children->0.contents@[c as int]))
                        by {
                        assert(seq![c as u8].drop_first() =~= Seq::<u8>::empty());
                        assert(node_at(m.children->0.contents@[c as int], Seq::<u8>::empty())
                            == Some(m.children->0.contents@[c as int]));
                    }
                }
                // the fresh word is no prefix of anything queued, nor the
                // other way round
                assert forall|i: int| 0 <= i < elems0.len() implies !is_prefix_of(
                    #[trigger] elems0[i],
                    nw@,
                ) && !is_prefix_of(nw@, elems0[i]) by {
                    if i < base_elems.len() {
                        let u = base_elems[i];
                        if is_prefix_of(u, nw@) {
                            if u.len() <= w@.len() {
                                assert(u =~= w@.take(u.len() as int));
                                assert(false);
                            } else {
                                assert(u =~= nw@);
                                assert(is_prefix_of(w@, u));
                                assert(false);
                            }
                        }
                        if is_prefix_of(nw@, u) {
                            assert(w@ =~= u.take(w@.len() as int));
                            assert(false);
                        }
                    } else {
                        let j = i - base_elems.len();
                        let u = elems0[i];
                        assert(u == w@.push(j as u8));
                        assert(u.len() == nw@.len());
                        assert(u[w@.len() as int] != nw@[w@.len() as int]);
                        if is_prefix_of(u, nw@) {
                            assert(u =~= nw@);
                            assert(false);
                        }
                        if is_prefix_of(nw@, u) {
                            assert(nw@ =~= u);
                            assert(false);
                        }
                    }
                }
                assert(prefix_free(elems1));
                assert forall|i: int, k: int|
                    0 <= i < elems1.len() && 0 <= k < elems1[i].len() implies #[trigger] elems1[i][k]
                    < n_syms by {
                    if i < elems0.len() {
                        assert(elems0[i][k] < n_syms);
                    } else {
                        assert(elems1[i] == nw@);
                        if k < w@.len() {
                            assert(nw@[k] == w@[k]);
                        } else {
                            assert(nw@[k] == c as u8);
                        }
                    }
                }
                assert(multi_count(elems1) == multi_count(elems0) + if nw@.len() >= 2 {
                    1nat
                } else {
                    0nat
                });
            }
            c = c + 1;
            if word_queue_size(&q) >= max_chords || mc >= max_multichar {
                hit = true;
                break;
            }
        }
        if hit {
            break;
        }
    }
    let mut words: Vec<Vec<u8>> = Vec::new();
    let ghost final_elems = queue_elems(q);
    proof {
        assert(words_view(words) =~= Seq::<Seq<u8>>::empty());
        assert(words_view(words) + queue_elems(q) =~= final_elems);
    }
    loop
        invariant_except_break
            words_view(words) + queue_elems(q) =~= final_elems,
        ensures
            words_view(words) =~= final_elems,
        decreases queue_elems(q).len(),
    {
        let ghost pre_words = words_view(words);
        match word_queue_remove(&mut q) {
            Some(w) => {
                words.push(w);
                proof {
                    assert(words_view(words) =~= pre_words.push(w@));
                    assert(words_view(words) + queue_elems(q) =~= final_elems);
                }
            },
            None => {
                break;
            },
        }
    }
    proof {
        assert(words_view(words) == final_elems);
    }
    (root, words)
}

/// The hard caps a Twiddler configuration file imposes on the code.
pub const MAX_CHORDS: usize = 1020;

pub const MAX_MULTICHAR_CHORDS: usize = 256;

/// How many draws the samplers make before giving up on chance and settling
/// the result deterministically.
pub const SAMPLE_BUDGET: usize = 4096;

#[verifier::external_type_specification]
#[verifier::external_body]
pub struct ExThreadRng(rand::rngs::ThreadRng);

/// Relies on rand::Rng::gen_range over `0..n`: the sample lies in the range;
/// the call panics only on an empty range, which the precondition rules out.
#[verifier::external_body]
fn rng_below(rng: &mut rand::rngs::ThreadRng, n: usize) -> (r: usize)
    requires
        1 <= n,
    ensures
        r < n,
{
    rand::Rng::gen_range(rng, 0..n)
}

/// Relies on rand::Rng::gen_ratio: a random boolean that is true with
/// probability `num/den`; the call panics only when `den == 0` or
/// `num > den`, which the precondition rules out.
#[verifier::external_body]
fn rng_chance(rng: &mut rand::rngs::ThreadRng, num: u32, den: u32) -> bool
    requires
        1 <= den,
        num <= den,
{
    rand::Rng::gen_ratio(rng, num, den)
}

/// A uniformly random key.
fn random_key(rng: &mut rand::rngs::ThreadRng) -> crate::keyboard_config::TwiddlerKey {
    let i = rng_below(rng, crate::keyboard_config::KEY_COUNT);
    crate::keyboard_config::key_of_index(i)
}

/// Sample a chord whose key count is roughly geometric: starting from one
/// random key, each further random key is added with probability `num/den`.
pub fn random_chord_(rng: &mut rand::rngs::ThreadRng, num: u32, den: u32) -> (c:
    crate::keyboard_config::Chord)
    requires
        1 <= den,
        num <= den,
    ensures
        c.wf(),
        exists|i: int| 0 <= i < crate::keyboard_config::KEY_COUNT && c@[i],
{
    let mut c = crate::keyboard_config::Chord::new();
    let first = random_key(rng);
    c.add_key(first);
    proof {
        assert(c@[crate::keyboard_config::spec_key_index(first)]);
    }
    let mut tries: usize = 0;
    while tries < SAMPLE_BUDGET
        invariant
            1 <= den,
            num <= den,
            c.wf(),
            exists|i: int| 0 <= i < crate::keyboard_config::KEY_COUNT && c@[i],
        decreases SAMPLE_BUDGET - tries,
    {
        if !rng_chance(rng, num, den) {
            break;
        }
        let ghost pre = c@;
        let k = random_key(rng);
        c.add_key(k);
        proof {
            let i = choose|i: int| 0 <= i < crate::keyboard_config::KEY_COUNT && pre[i];
            assert(c@[crate::keyboard_config::spec_key_index(k)]);
        }
        tries = tries + 1;
    }
    c
}

/// A chord that is always valid: the single main key in the top-left slot.
fn fallback_chord() -> (c: crate::keyboard_config::Chord)
    ensures
        c.wf(),
        crate::keyboard_config::spec_is_valid(c@),
{
    let mut c = crate::keyboard_config::Chord::new();
    c.add_key(crate::keyboard_config::TwiddlerKey::L1);
    proof {
        assert(c@[4]);
        assert forall|x: int|
            crate::keyboard_config::spec_is_reserved_slot(x) implies !(c@
            =~= crate::keyboard_config::reserved_mask(x)) by {
            assert(crate::keyboard_config::reserved_mask(x)[0]);
            assert(!c@[0]);
        }
    }
    c
}

/// Draws chords with a roughly geometric key count, rejecting invalid ones.
pub struct TwiddlerExponentialSampler {
    rng: rand::rngs::ThreadRng,
}

impl TwiddlerExponentialSampler {
    pub fn new(rng: rand::rngs::ThreadRng) -> TwiddlerExponentialSampler {
        TwiddlerExponentialSampler { rng }
    }

    /// Rejection-sample a valid chord; each extra key is added with
    /// probability six in ten. If chance never yields a valid chord within
    /// the sampling budget, the fixed fallback chord is returned.
    pub fn sample_chord(&mut self) -> (c: crate::keyboard_config::Chord)
        ensures
            c.wf(),
            crate::keyboard_config::spec_is_valid(c@),
    {
        let mut tries: usize = 0;
        while tries < SAMPLE_BUDGET
            decreases SAMPLE_BUDGET - tries,
        {
            let attempt = random_chord_(&mut self.rng, 6, 10);
            if attempt.is_valid() {
                return attempt;
            }
            tries = tries + 1;
        }
        fallback_chord()
    }
}

/// Whether every character of the string is one the table produces.
pub open spec fn all_mappable(cs: Seq<char>) -> bool {
    forall|i: int| 0 <= i < cs.len() ==> spec_char_usb(#[trigger] cs[i]) is Some
}

/// The character index of a mappable character.
pub open spec fn spec_char_idx(c: char) -> int {
    let p = spec_char_usb(c)->0;
    spec_usb_idx(p.0, p.1)->0
}

/// The character indices of a string of mappable characters.
pub open spec fn chars_idxs(cs: Seq<char>) -> Seq<u8> {
    Seq::new(cs.len(), |i: int| spec_char_idx(cs[i]) as u8)
}

/// A mappable character's index lies in the table.
pub proof fn lemma_char_maps_to_idx(c: char)
    requires
        spec_char_usb(c) is Some,
    ensures
        0 <= spec_char_idx(c) < USB_HID_COUNT,
        spec_idx_char(spec_char_idx(c)) == c,
{
    let p = spec_char_usb(c)->0;
    lemma_usb_idx_round_trip(p.0, p.1);
}

/// A word's printable form has one character per index.
pub proof fn lemma_word_chars_len(w: Seq<u8>)
    ensures
        spec_word_chars(w).len() == w.len(),
    decreases w.len(),
{
    if w.len() > 0 {
        lemma_word_chars_len(w.drop_first());
    }
}

/// Every character of a word's printable form is mappable, and maps back to
/// the index it came from.
pub proof fn lemma_word_chars_mappable(w: Seq<u8>)
    requires
        forall|k: int| 0 <= k < w.len() ==> w[k] < USB_HID_COUNT,
    ensures
        all_mappable(spec_word_chars(w)),
        chars_idxs(spec_word_chars(w)) =~= w,
    decreases w.len(),
{
    lemma_word_chars_len(w);
    if w.len() > 0 {
        lemma_idx_usb_round_trip(w[0] as int);
        lemma_char_usb_round_trip(spec_idx_shifted(w[0] as int), spec_idx_usb(w[0] as int));
        assert(spec_word_chars(w)[0] == spec_idx_char(w[0] as int));
        assert(spec_char_idx(spec_word_chars(w)[0]) == w[0]);
        lemma_word_chars_mappable(w.drop_first());
        assert forall|i: int| 0 <= i < spec_word_chars(w).len() implies spec_char_usb(
            #[trigger] spec_word_chars(w)[i],
        ) is Some by {
            if i > 0 {
                assert(spec_word_chars(w)[i] == spec_word_chars(w.drop_first())[i - 1]);
                assert(spec_char_usb(spec_word_chars(w.drop_first())[i - 1]) is Some);
            }
        }
        assert forall|i: int| 0 <= i < w.len() implies chars_idxs(spec_word_chars(w))[i] == w[i]
            by {
            if i > 0 {
                assert(spec_word_chars(w)[i] == spec_word_chars(w.drop_first())[i - 1]);
                assert(chars_idxs(spec_word_chars(w.drop_first()))[i - 1] == w.drop_first()[i
                    - 1]);
            }
        }
    }
}

/// Two words with the same printable form are the same word: the character
/// table is injective.
pub proof fn lemma_word_chars_injective(a: Seq<u8>, b: Seq<u8>)
    requires
        forall|k: int| 0 <= k < a.len() ==> a[k] < USB_HID_COUNT,
        forall|k: int| 0 <= k < b.len() ==> b[k] < USB_HID_COUNT,
        spec_word_chars(a) == spec_word_chars(b),
    ensures
        a =~= b,
{
    lemma_word_chars_mappable(a);
    lemma_word_chars_mappable(b);
    assert(chars_idxs(spec_word_chars(a)) =~= chars_idxs(spec_word_chars(b)));
}

/// The views of a chord list.
pub open spec fn chords_view(v: Vec<Chord>) -> Seq<Seq<bool>> {
    Seq::new(v@.len(), |i: int| v@[i]@)
}

/// A session vocabulary: distinct valid chords bound to the code words of a
/// prefix tree, and the tree itself, used to decode typed trials.
pub struct TwiddlerChordTrialUtils {
    pub vocab: Vec<(Chord, String)>,
    pub code_tree: Node,
    pub words: Ghost<Seq<Seq<u8>>>,
}

impl TwiddlerChordTrialUtils {
    /// Everything the decoder relies on: the code words are a prefix code of
    /// leaves of the well-formed tree; each is bound to its printable string
    /// and to a distinct valid chord.
    pub open spec fn wf(self) -> bool {
        &&& tree_wf(self.code_tree, USB_HID_COUNT as int)
        &&& self.code_tree.children is Some
        &&& prefix_free(self.words@)
        &&& words_in_range(self.words@, USB_HID_COUNT as int)
        &&& forall|i: int|
            0 <= i < self.words@.len() ==> is_leaf_at(self.code_tree, #[trigger] self.words@[i])
        &&& forall|i: int| 0 <= i < self.words@.len() ==> 1 <= (#[trigger] self.words@[i]).len()
        &&& self.vocab@.len() == self.words@.len()
        &&& forall|i: int|
            0 <= i < self.vocab@.len() ==> (#[trigger] self.vocab@[i]).1@ == spec_word_chars(
                self.words@[i],
            )
        &&& forall|i: int| 0 <= i < self.vocab@.len() ==> (#[trigger] self.vocab@[i]).0.wf()
        &&& forall|i: int|
            0 <= i < self.vocab@.len() ==> crate::keyboard_config::spec_is_valid(
                (#[trigger] self.vocab@[i]).0@,
            )
        &&& forall|i: int, j: int|
            0 <= i < self.vocab@.len() && 0 <= j < self.vocab@.len() && i != j ==> (
            #[trigger] self.vocab@[i]).0@ != (#[trigger] self.vocab@[j]).0@
        &&& forall|i: int, j: int|
            0 <= i < self.vocab@.len() && 0 <= j < self.vocab@.len() && i != j ==> (
            #[trigger] self.vocab@[i]).1@ != (#[trigger] self.vocab@[j]).1@
    }

    /// The vocabulary: chords paired with the strings the keyboard emits.
    pub fn get_vocab(&self) -> (r: &Vec<(Chord, String)>)
        ensures
            r == &self.vocab,
    {
        &self.vocab
    }

    /// The string bound to a chord of the vocabulary, if the chord is bound.
    pub fn lookup_chord(&self, chord: &Chord) -> (r: Option<String>)
        requires
            self.wf(),
            chord.wf(),
        ensures
            match r {
                Some(st) => exists|i: int|
                    0 <= i < self.vocab@.len() && (#[trigger] self.vocab@[i]).0@ == chord@
                        && st@ == self.vocab@[i].1@,
                None => forall|i: int|
                    0 <= i < self.vocab@.len() ==> (#[trigger] self.vocab@[i]).0@ != chord@,
            },
    {
        let mut i: usize = 0;
        while i < self.vocab.len()
            invariant
                self.wf(),
                chord.wf(),
                i <= self.vocab@.len(),
                forall|j: int|
                    0 <= j < i ==> (#[trigger] self.vocab@[j]).0@ != chord@,
            decreases self.vocab@.len() - i,
        {
            let entry = &self.vocab[i];
            if entry.0 == *chord {
                return Some(entry.1.clone());
            }
            i = i + 1;
        }
        None
    }

    /// The chord bound to a string of the vocabulary, if the string is bound.
    pub fn lookup_string(&self, string: &String) -> (r: Option<Chord>)
        requires
            self.wf(),
        ensures
            match r {
                Some(c) => c.wf() && exists|i: int|
                    0 <= i < self.vocab@.len() && (#[trigger] self.vocab@[i]).1@ == string@
                        && c@ == self.vocab@[i].0@,
                None => forall|i: int|
                    0 <= i < self.vocab@.len() ==> (#[trigger] self.vocab@[i]).1@ != string@,
            },
    {
        let mut i: usize = 0;
        while i < self.vocab.len()
            invariant
                self.wf(),
                i <= self.vocab@.len(),
                forall|j: int|
                    0 <= j < i ==> (#[trigger] self.vocab@[j]).1@ != string@,
            decreases self.vocab@.len() - i,
        {
            let entry = &self.vocab[i];
            if entry.1.eq(string) {
                return Some(entry.0.duplicate());
            }
            i = i + 1;
        }
        None
    }

    /// Turn code words into their printable strings.
    fn words_to_strings(words: &Vec<Vec<u8>>) -> (r: Vec<String>)
        requires
            words_in_range(words_view(*words), USB_HID_COUNT as int),
        ensures
            r@.len() == words@.len(),
            forall|i: int|
                0 <= i < r@.len() ==> (#[trigger] r@[i])@ == spec_word_chars(words@[i]@),
    {
        let mut strings: Vec<String> = Vec::new();
        let mut i: usize = 0;
        while i < words.len()
            invariant
                words_in_range(words_view(*words), USB_HID_COUNT as int),
                i <= words@.len(),
                strings@.len() == i,
                forall|j: int|
                    0 <= j < i ==> (#[trigger] strings@[j])@ == spec_word_chars(words@[j]@),
            decreases words@.len() - i,
        {
            proof {
                assert forall|k: int| 0 <= k < words@[i as int]@.len() implies words@[i as int]@[k]
                    < USB_HID_COUNT by {
                    assert(words_view(*words)[i as int][k] < USB_HID_COUNT);
                }
            }
            let st = match Node::idxs_to_string(&words[i]) {
                Ok(st) => st,
                Err(_) => {
                    proof {
                        assert(false);
                    }
                    String::new()
                },
            };
            strings.push(st);
            i = i + 1;
        }
        strings
    }

    /// Sample distinct valid chords, one per string; `None` if chance does
    /// not produce enough distinct chords within the sampling budget.
    fn sample_distinct(sampler: &mut TwiddlerExponentialSampler, n: usize) -> (r: Option<
        Vec<Chord>,
    >)
        ensures
            r matches Some(v) ==> {
                &&& v@.len() == n
                &&& forall|i: int| 0 <= i < v@.len() ==> (#[trigger] v@[i]).wf()
                &&& forall|i: int|
                    0 <= i < v@.len() ==> crate::keyboard_config::spec_is_valid(
                        (#[trigger] v@[i])@,
                    )
                &&& forall|i: int, j: int|
                    0 <= i < v@.len() && 0 <= j < v@.len() && i != j ==> (#[trigger] v@[i])@ != (
                    #[trigger] v@[j])@
            },
    {
        let mut chords: Vec<Chord> = Vec::new();
        let mut attempts: usize = 0;
        while chords.len() < n && attempts < 1048576
            invariant
                chords@.len() <= n,
                forall|i: int| 0 <= i < chords@.len() ==> (#[trigger] chords@[i]).wf(),
                forall|i: int|
                    0 <= i < chords@.len() ==> crate::keyboard_config::spec_is_valid(
                        (#[trigger] chords@[i])@,
                    ),
                forall|i: int, j: int|
                    0 <= i < chords@.len() && 0 <= j < chords@.len() && i != j ==> (
                    #[trigger] chords@[i])@ != (#[trigger] chords@[j])@,
            decreases 1048576 - attempts,
        {
            let c = sampler.sample_chord();
            let mut seen: bool = false;
            let mut k: usize = 0;
            while k < chords.len()
                invariant
                    c.wf(),
                    forall|i: int| 0 <= i < chords@.len() ==> (#[trigger] chords@[i]).wf(),
                    k <= chords@.len(),
                    seen == (exists|i: int| 0 <= i < k && (#[trigger] chords@[i])@ == c@),
                decreases chords@.len() - k,
            {
                if chords[k] == c {
                    seen = true;
                }
                k = k + 1;
            }
            if !seen {
                chords.push(c);
            }
            attempts = attempts + 1;
        }
        if chords.len() == n {
            Some(chords)
        } else {
            None
        }
    }

    /// Zip chords and strings into a vocabulary list.
    fn zip_vocab(chords: Vec<Chord>, strings: Vec<String>) -> (r: Vec<(Chord, String)>)
        requires
            chords@.len() == strings@.len(),
            forall|i: int| 0 <= i < chords@.len() ==> (#[trigger] chords@[i]).wf(),
        ensures
            r@.len() == chords@.len(),
            forall|i: int|
                0 <= i < r@.len() ==> (#[trigger] r@[i]).0@ == chords@[i]@ && r@[i].1@
                    == strings@[i]@,
    {
        let ghost all_c = chords_view(chords);
        let ghost all_s = Seq::new(strings@.len(), |i: int| strings@[i]@);
        let mut chords = chords;
        let mut strings = strings;
        let mut vocab: Vec<(Chord, String)> = Vec::new();
        let mut i: usize = 0;
        while i < chords.len()
            invariant
                chords@.len() == strings@.len(),
                chords@.len() == all_c.len(),
                forall|j: int| 0 <= j < chords@.len() ==> (#[trigger] chords@[j]).wf(),
                i <= chords@.len(),
                vocab@.len() == i,
                forall|j: int| i <= j < chords@.len() ==> (#[trigger] chords@[j])@ == all_c[j],
                forall|j: int| i <= j < strings@.len() ==> (#[trigger] strings@[j])@ == all_s[j],
                forall|j: int|
                    0 <= j < i ==> (#[trigger] vocab@[j]).0@ == all_c[j] && vocab@[j].1@
                        == all_s[j],
            decreases chords@.len() - i,
        {
            let c = chords[i].duplicate();
            let st = strings[i].clone();
            vocab.push((c, st));
            i = i + 1;
        }
        vocab
    }

    /// Build a fresh vocabulary: grow the prefix code to the Twiddler's caps,
    /// print each code word, and bind each to a freshly sampled chord.
    /// `None` only if the sampler's budget runs out before enough distinct
    /// chords appear.
    pub fn new(sampler: TwiddlerExponentialSampler) -> (r: Option<TwiddlerChordTrialUtils>)
        ensures
            r matches Some(u) ==> u.wf() && code_ok(
                u.code_tree,
                u.words@,
                USB_HID_COUNT as int,
                MAX_CHORDS as int,
                MAX_MULTICHAR_CHORDS as int,
            ),
    {
        let mut sampler = sampler;
        let (tree, words) = build_code(USB_HID_COUNT as usize, MAX_CHORDS, MAX_MULTICHAR_CHORDS);
        let strings = Self::words_to_strings(&words);
        let chords = match Self::sample_distinct(&mut sampler, strings.len()) {
            Some(chords) => chords,
            None => {
                return None;
            },
        };
        let ghost ws = words_view(words);
        let vocab = Self::zip_vocab(chords, strings);
        let u = TwiddlerChordTrialUtils { vocab, code_tree: tree, words: Ghost(ws) };
        proof {
            assert forall|i: int, j: int|
                0 <= i < u.vocab@.len() && 0 <= j < u.vocab@.len() && i != j implies (
            #[trigger] u.vocab@[i]).1@ != (#[trigger] u.vocab@[j]).1@ by {
                if u.vocab@[i].1@ == u.vocab@[j].1@ {
                    assert forall|k: int| 0 <= k < ws[i].len() implies ws[i][k] < USB_HID_COUNT
                        by {}
                    assert forall|k: int| 0 <= k < ws[j].len() implies ws[j][k] < USB_HID_COUNT
                        by {}
                    lemma_word_chars_injective(ws[i], ws[j]);
                    assert(!is_prefix_of(ws[i], ws[j]));
                    assert(false);
                }
            }
        }
        Some(u)
    }

    /// Assemble a vocabulary from explicit parts; meant for building small
    /// known vocabularies by hand.
    pub fn from_parts(tree: Node, words: Vec<Vec<u8>>, chords: Vec<Chord>) -> (r:
        TwiddlerChordTrialUtils)
        requires
            tree_wf(tree, USB_HID_COUNT as int),
            tree.children is Some,
            prefix_free(words_view(words)),
            words_in_range(words_view(words), USB_HID_COUNT as int),
            forall|i: int|
                0 <= i < words@.len() ==> is_leaf_at(tree, #[trigger] words_view(words)[i]),
            forall|i: int| 0 <= i < words@.len() ==> 1 <= (#[trigger] words_view(words)[i]).len(),
            chords@.len() == words@.len(),
            forall|i: int| 0 <= i < chords@.len() ==> (#[trigger] chords@[i]).wf(),
            forall|i: int|
                0 <= i < chords@.len() ==> crate::keyboard_config::spec_is_valid(
                    (#[trigger] chords@[i])@,
                ),
            forall|i: int, j: int|
                0 <= i < chords@.len() && 0 <= j < chords@.len() && i != j ==> (
                #[trigger] chords@[i])@ != (#[trigger] chords@[j])@,
        ensures
            r.wf(),
            r.code_tree == tree,
            r.words@ == words_view(words),
            r.vocab@.len() == chords@.len(),
            forall|i: int| 0 <= i < r.vocab@.len() ==> (#[trigger] r.vocab@[i]).0@ == chords@[i]@,
    {
        let ghost ws = words_view(words);
        let strings = Self::words_to_strings(&words);
        let vocab = Self::zip_vocab(chords, strings);
        let u = TwiddlerChordTrialUtils { vocab, code_tree: tree, words: Ghost(ws) };
        proof {
            assert forall|i: int, j: int|
                0 <= i < u.vocab@.len() && 0 <= j < u.vocab@.len() && i != j implies (
            #[trigger] u.vocab@[i]).1@ != (#[trigger] u.vocab@[j]).1@ by {
                if u.vocab@[i].1@ == u.vocab@[j].1@ {
                    assert forall|k: int| 0 <= k < ws[i].len() implies ws[i][k] < USB_HID_COUNT
                        by {}
                    assert forall|k: int| 0 <= k < ws[j].len() implies ws[j][k] < USB_HID_COUNT
                        by {}
                    lemma_word_chars_injective(ws[i], ws[j]);
                    assert(!is_prefix_of(ws[i], ws[j]));
                    assert(false);
                }
            }
        }
        u
    }
}

/// The word the greedy walk consumes is the stream's own prefix.
pub proof fn lemma_take_word_prefix(n: Node, s: Seq<u8>)
    requires
        take_word(n, s) is Some,
    ensures
        take_word(n, s)->0 =~= s.take(take_word(n, s)->0.len() as int),
    decreases s.len(),
{
    lemma_take_word_len(n, s);
    match n.children {
        None => {},
        Some(cs) => {
            if s.len() > 0 && 0 <= s[0] < cs.contents@.len() {
                let child = cs.contents@[s[0] as int];
                lemma_take_word_prefix(child, s.drop_first());
                lemma_take_word_len(child, s.drop_first());
            }
        },
    }
}

/// Whether some code word of the list prints as the given string.
pub open spec fn some_word_prints(ws: Seq<Seq<u8>>, st: Seq<char>) -> bool {
    exists|k: int| 0 <= k < ws.len() && spec_word_chars(#[trigger] ws[k]) == st
}

impl TwiddlerChordTrialUtils {
    /// Whether some vocabulary entry owns this string.
    pub open spec fn spec_vocab_has_string(self, st: Seq<char>) -> bool {
        exists|i: int| 0 <= i < self.vocab@.len() && (#[trigger] self.vocab@[i]).1@ == st
    }

    /// The chord bound to this string; meaningful when the vocabulary owns
    /// the string, which under `wf` pins a single entry.
    pub open spec fn spec_chord_of_string(self, st: Seq<char>) -> Seq<bool> {
        let i = choose|i: int| 0 <= i < self.vocab@.len() && (#[trigger] self.vocab@[i]).1@ == st;
        self.vocab@[i].0@
    }

    /// Decode a typed trial string back into the chords that produced it:
    /// invert the character table in reading order, split the whole index
    /// stream into code words by walking the tree greedily, and only then
    /// look each word's string up in the vocabulary.
    #[verifier::rlimit(100)]
    #[verifier::spinoff_prover]
    pub fn parse_trial_string(&self, trial_string: &str) -> (r: Result<Vec<Chord>, DecodeError>)
        requires
            self.wf(),
        ensures
            match r {
                Ok(chords) => match tokenize(self.code_tree, chars_idxs(trial_string@)) {
                    Some(ws) => {
                        &&& all_mappable(trial_string@)
                        &&& chords@.len() == ws.len()
                        &&& forall|k: int|
                            0 <= k < ws.len() ==> self.spec_vocab_has_string(
                                spec_word_chars(#[trigger] ws[k]),
                            )
                        &&& forall|k: int|
                            0 <= k < ws.len() ==> (#[trigger] chords@[k]).wf() && chords@[k]@
                                == self.spec_chord_of_string(spec_word_chars(ws[k]))
                    },
                    None => false,
                },
                Err(e) => match e {
                    DecodeError::UnmappableChar(c) => !all_mappable(trial_string@)
                        && spec_char_usb(c) is None && exists|i: int|
                        #![auto]
                        0 <= i < trial_string@.len() && trial_string@[i] == c && (forall|j: int|
                            0 <= j < i ==> spec_char_usb(#[trigger] trial_string@[j]) is Some),
                    DecodeError::TruncatedInput => all_mappable(trial_string@) && tokenize(
                        self.code_tree,
                        chars_idxs(trial_string@),
                    ) is None,
                    DecodeError::UnknownWord(wst) => all_mappable(trial_string@)
                        && !self.spec_vocab_has_string(wst@) && match tokenize(
                        self.code_tree,
                        chars_idxs(trial_string@),
                    ) {
                        Some(ws) => some_word_prints(ws, wst@),
                        None => false,
                    },
                    DecodeError::OutOfRange(_) => false,
                },
            },
    {
        let ghost cs = trial_string@;
        let n = trial_string.unicode_len();
        // invert the character table in reading order: the first character
        // the table does not produce is the one reported
        let mut fwd: Vec<u8> = Vec::new();
        let mut i: usize = 0;
        while i < n
            invariant
                cs == trial_string@,
                n == cs.len(),
                i <= n,
                fwd@.len() == i,
                forall|j: int| 0 <= j < i ==> spec_char_usb(#[trigger] cs[j]) is Some,
                forall|j: int|
                    0 <= j < i ==> #[trigger] fwd@[j] == spec_char_idx(cs[j]) as u8 && fwd@[j]
                        < USB_HID_COUNT,
            decreases n - i,
        {
            let c = trial_string.get_char(i);
            let (shifted, usb) = match char_to_usb(c) {
                Some(p) => p,
                None => {
                    proof {
                        assert(spec_char_usb(cs[i as int]) is None);
                        assert(!all_mappable(cs));
                    }
                    return Err(DecodeError::UnmappableChar(c));
                },
            };
            proof {
                lemma_char_maps_to_idx(c);
            }
            let idx = match Node::usb_to_idx(shifted, usb) {
                Ok(idx) => idx,
                Err(_) => {
                    proof {
                        assert(false);
                    }
                    0
                },
            };
            fwd.push(idx);
            i = i + 1;
        }
        let ghost stream = chars_idxs(cs);
        proof {
            assert(all_mappable(cs));
            assert(fwd@ =~= stream);
        }
        // the tree reader consumes the stream from the back, so hand it the
        // stream reversed
        let mut value: Vec<u8> = Vec::new();
        let mut k: usize = fwd.len();
        while k > 0
            invariant
                fwd@ == stream,
                k <= fwd@.len(),
                value@.len() == fwd@.len() - k,
                forall|m: int|
                    0 <= m < value@.len() ==> #[trigger] value@[m] == fwd@[fwd@.len() - 1 - m],
                forall|m: int| 0 <= m < fwd@.len() ==> #[trigger] fwd@[m] < USB_HID_COUNT,
            decreases k,
        {
            k = k - 1;
            value.push(fwd[k]);
        }
        proof {
            assert(value@.reverse() =~= stream);
        }
        // split the whole stream into code words before any lookup, so an
        // input that ends inside a word fails as truncated whatever stands
        // before the truncated tail
        let mut words: Vec<Vec<u8>> = Vec::new();
        while value.len() > 0
            invariant
                self.wf(),
                cs == trial_string@,
                stream == chars_idxs(cs),
                all_mappable(cs),
                forall|m: int| 0 <= m < value@.len() ==> #[trigger] value@[m] < USB_HID_COUNT,
                match tokenize(self.code_tree, value@.reverse()) {
                    Some(ws_rem) => tokenize(self.code_tree, stream) == Some(
                        words_view(words) + ws_rem,
                    ),
                    None => tokenize(self.code_tree, stream) is None,
                },
                words_in_range(words_view(words), USB_HID_COUNT as int),
            decreases value@.len(),
        {
            let ghost rem = value@.reverse();
            let ghost pre_value = value@;
            let ghost pre_words = words_view(words);
            let w = match self.code_tree.read_last_word(&mut value) {
                Ok(w) => w,
                Err(_) => {
                    proof {
                        assert(tokenize(self.code_tree, rem) is None);
                    }
                    return Err(DecodeError::TruncatedInput);
                },
            };
            proof {
                let tw = take_word(self.code_tree, rem)->0;
                assert(w@ == tw);
                assert(1 <= w@.len()) by {
                    assert(self.code_tree.children is Some);
                }
                lemma_take_word_len(self.code_tree, rem);
                lemma_take_word_prefix(self.code_tree, rem);
                assert(value@.reverse() =~= rem.skip(w@.len() as int));
                assert forall|m: int| 0 <= m < w@.len() implies #[trigger] w@[m]
                    < USB_HID_COUNT by {
                    assert(w@[m] == rem[m]);
                    assert(rem[m] == pre_value[pre_value.len() - 1 - m]);
                }
                let rest = rem.skip(w@.len() as int);
                assert(value@.reverse() == rest);
                match tokenize(self.code_tree, rest) {
                    Some(ws_rest) => {
                        assert(tokenize(self.code_tree, rem) == Some(seq![w@] + ws_rest));
                        assert(pre_words.push(w@) + ws_rest =~= pre_words + (seq![w@] + ws_rest));
                    },
                    None => {
                        assert(tokenize(self.code_tree, rem) is None);
                    },
                }
            }
            words.push(w);
            proof {
                assert(words_view(words) =~= pre_words.push(words@.last()@));
            }
        }
        proof {
            assert(value@.reverse() =~= Seq::<u8>::empty());
            assert(tokenize(self.code_tree, value@.reverse()) == Some(Seq::<Seq<u8>>::empty()));
            assert(words_view(words) + Seq::<Seq<u8>>::empty() =~= words_view(words));
        }
        let ghost ws = words_view(words);
        // the stream tokenized completely; now bind each word's string
        let mut result: Vec<Chord> = Vec::new();
        let mut t: usize = 0;
        while t < words.len()
            invariant
                self.wf(),
                cs == trial_string@,
                stream == chars_idxs(cs),
                all_mappable(cs),
                ws == words_view(words),
                tokenize(self.code_tree, stream) == Some(ws),
                words_in_range(ws, USB_HID_COUNT as int),
                t <= words@.len(),
                result@.len() == t,
                forall|m: int|
                    0 <= m < t ==> self.spec_vocab_has_string(spec_word_chars(#[trigger] ws[m])),
                forall|m: int|
                    0 <= m < t ==> (#[trigger] result@[m]).wf() && result@[m]@
                        == self.spec_chord_of_string(spec_word_chars(ws[m])),
            decreases words@.len() - t,
        {
            proof {
                assert forall|m: int| 0 <= m < words@[t as int]@.len() implies words@[t as int]@[m]
                    < USB_HID_COUNT by {
                    assert(ws[t as int][m] < USB_HID_COUNT);
                }
            }
            let word_string = match Node::idxs_to_string(&words[t]) {
                Ok(st) => st,
                Err(_) => {
                    proof {
                        assert(false);
                    }
                    String::new()
                },
            };
            match self.lookup_string(&word_string) {
                Some(chord) => {
                    result.push(chord);
                    proof {
                        // the chord the lookup found is the chord of the
                        // string: vocabulary strings are distinct
                        let i1 = choose|v: int|
                            0 <= v < self.vocab@.len() && (#[trigger] self.vocab@[v]).1@
                                == word_string@ && chord@ == self.vocab@[v].0@;
                        let i0 = choose|v: int|
                            0 <= v < self.vocab@.len() && (#[trigger] self.vocab@[v]).1@
                                == word_string@;
                        assert(i0 == i1);
                    }
                },
                None => {
                    proof {
                        assert(spec_word_chars(ws[t as int]) == word_string@);
                        assert(!self.spec_vocab_has_string(word_string@));
                        assert(some_word_prints(ws, word_string@)) by {
                            assert(spec_word_chars(ws[t as int]) == word_string@);
                        }
                    }
                    return Err(DecodeError::UnknownWord(word_string));
                },
            }
            t = t + 1;
        }
        Ok(result)
    }
}

/// Splitting the character-table inversion over a concatenation.
proof fn lemma_chars_idxs_concat(a: Seq<char>, b: Seq<char>)
    ensures
        chars_idxs(a + b) =~= chars_idxs(a) + chars_idxs(b),
{
}

/// The printable forms of a list of code words, in order.
pub open spec fn strings_of_words(ws: Seq<Seq<u8>>) -> Seq<Seq<char>> {
    Seq::new(ws.len(), |k: int| spec_word_chars(ws[k]))
}

/// Inverting the character table over the concatenated printable forms of a
/// word list recovers the concatenated words.
pub proof fn lemma_strings_idxs(ws: Seq<Seq<u8>>)
    requires
        words_in_range(ws, USB_HID_COUNT as int),
    ensures
        all_mappable(strings_of_words(ws).flatten()),
        chars_idxs(strings_of_words(ws).flatten()) =~= ws.flatten(),
    decreases ws.len(),
{
    let ss = strings_of_words(ws);
    if ws.len() == 0 {
        assert(ss =~= Seq::<Seq<char>>::empty());
        assert(ss.flatten() =~= Seq::<char>::empty());
        assert(ws.flatten() =~= Seq::<u8>::empty());
    } else {
        let w0 = ws[0];
        let rest = ws.drop_first();
        assert forall|i: int, k: int|
            0 <= i < rest.len() && 0 <= k < rest[i].len() implies #[trigger] rest[i][k]
            < USB_HID_COUNT by {
            assert(ws[i + 1][k] < USB_HID_COUNT);
        }
        lemma_strings_idxs(rest);
        assert forall|k: int| 0 <= k < w0.len() implies w0[k] < USB_HID_COUNT by {
            assert(ws[0][k] < USB_HID_COUNT);
        }
        lemma_word_chars_mappable(w0);
        assert(ss.drop_first() =~= strings_of_words(rest));
        assert(ss.flatten() == ss[0] + ss.drop_first().flatten());
        assert(ss[0] == spec_word_chars(w0));
        let sa = spec_word_chars(w0);
        let sb = strings_of_words(rest).flatten();
        assert forall|i: int| 0 <= i < (sa + sb).len() implies spec_char_usb(
            #[trigger] (sa + sb)[i],
        ) is Some by {
            if i < sa.len() {
                assert((sa + sb)[i] == sa[i]);
            } else {
                assert((sa + sb)[i] == sb[i - sa.len()]);
            }
        }
        lemma_chars_idxs_concat(sa, sb);
        assert(ws.flatten() == w0 + rest.flatten());
        assert(chars_idxs(ss.flatten()) =~= ws.flatten());
    }
}

/// The decoder inverts the vocabulary: for any sequence of vocabulary picks,
/// the concatenation of the picked strings maps back onto exactly the picked
/// code words, and each word's string selects the picked chord. Together
/// with the decoder's own contract this says that decoding the string a
/// sequence of chord presses produces recovers that sequence of chords.
pub proof fn lemma_decode_round_trip(u: TwiddlerChordTrialUtils, picks: Seq<int>)
    requires
        u.wf(),
        forall|k: int| 0 <= k < picks.len() ==> 0 <= #[trigger] picks[k] < u.vocab@.len(),
    ensures
        ({
            let typed = Seq::new(picks.len(), |k: int| u.vocab@[picks[k]].1@).flatten();
            let ws = Seq::new(picks.len(), |k: int| u.words@[picks[k]]);
            &&& all_mappable(typed)
            &&& chars_idxs(typed) == ws.flatten()
            &&& tokenize(u.code_tree, chars_idxs(typed)) == Some(ws)
            &&& forall|k: int|
                0 <= k < ws.len() ==> u.spec_vocab_has_string(spec_word_chars(#[trigger] ws[k]))
                    && u.spec_chord_of_string(spec_word_chars(ws[k])) == u.vocab@[picks[k]].0@
        }),
{
    let typed = Seq::new(picks.len(), |k: int| u.vocab@[picks[k]].1@).flatten();
    let ws = Seq::new(picks.len(), |k: int| u.words@[picks[k]]);
    assert forall|i: int, k: int|
        0 <= i < ws.len() && 0 <= k < ws[i].len() implies #[trigger] ws[i][k]
        < USB_HID_COUNT by {
        assert(u.words@[picks[i]][k] < USB_HID_COUNT);
    }
    assert(strings_of_words(ws) =~= Seq::new(picks.len(), |k: int| u.vocab@[picks[k]].1@));
    lemma_strings_idxs(ws);
    assert(chars_idxs(typed) =~= ws.flatten());
    assert forall|i: int| 0 <= i < ws.len() implies is_leaf_at(u.code_tree, #[trigger] ws[i]) by {
        assert(is_leaf_at(u.code_tree, u.words@[picks[i]]));
    }
    lemma_tokenize_flatten(u.code_tree, ws);
    assert forall|k: int| 0 <= k < ws.len() implies u.spec_vocab_has_string(
        spec_word_chars(#[trigger] ws[k]),
    ) && u.spec_chord_of_string(spec_word_chars(ws[k])) == u.vocab@[picks[k]].0@ by {
        assert(u.vocab@[picks[k]].1@ == spec_word_chars(ws[k]));
        let i0 = choose|i: int|
            0 <= i < u.vocab@.len() && (#[trigger] u.vocab@[i]).1@ == spec_word_chars(ws[k]);
        assert(i0 == picks[k]);
    }
}

/// The configuration-writer name of the trial utilities: the same type seen
/// from the keyboard-configuration side.
pub type TwiddlerConfigWriterChordDecoder = TwiddlerChordTrialUtils;

} // verus!