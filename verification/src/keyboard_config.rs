use vstd::prelude::*;

verus! {

/// The sixteen keys of the Twiddler chording keyboard, in declaration order:
/// four thumb keys (`Z0`, `L0`, `M0`, `R0`), then four rows of three main keys.
#[derive(Clone, Copy, PartialEq, Eq, Structural, Debug)]
pub enum TwiddlerKey {
    Z0,
    L0,
    M0,
    R0,
    L1,
    M1,
    R1,
    L2,
    M2,
    R2,
    L3,
    M3,
    R3,
    L4,
    M4,
    R4,
}

/// Number of keys on the keyboard; every chord is a bitset of this length.
pub const KEY_COUNT: usize = 16;

/// Position of a key in declaration order.
pub open spec fn spec_key_index(k: TwiddlerKey) -> int {
    match k {
        TwiddlerKey::Z0 => 0,
        TwiddlerKey::L0 => 1,
        TwiddlerKey::M0 => 2,
        TwiddlerKey::R0 => 3,
        TwiddlerKey::L1 => 4,
        TwiddlerKey::M1 => 5,
        TwiddlerKey::R1 => 6,
        TwiddlerKey::L2 => 7,
        TwiddlerKey::M2 => 8,
        TwiddlerKey::R2 => 9,
        TwiddlerKey::L3 => 10,
        TwiddlerKey::M3 => 11,
        TwiddlerKey::R3 => 12,
        TwiddlerKey::L4 => 13,
        TwiddlerKey::M4 => 14,
        TwiddlerKey::R4 => 15,
    }
}

pub fn key_index(k: TwiddlerKey) -> (i: usize)
    ensures
        i == spec_key_index(k),
{
    match k {
        TwiddlerKey::Z0 => 0,
        TwiddlerKey::L0 => 1,
        TwiddlerKey::M0 => 2,
        TwiddlerKey::R0 => 3,
        TwiddlerKey::L1 => 4,
        TwiddlerKey::M1 => 5,
        TwiddlerKey::R1 => 6,
        TwiddlerKey::L2 => 7,
        TwiddlerKey::M2 => 8,
        TwiddlerKey::R2 => 9,
        TwiddlerKey::L3 => 10,
        TwiddlerKey::M3 => 11,
        TwiddlerKey::R3 => 12,
        TwiddlerKey::L4 => 13,
        TwiddlerKey::M4 => 14,
        TwiddlerKey::R4 => 15,
    }
}

pub fn key_of_index(i: usize) -> (k: TwiddlerKey)
    requires
        i < KEY_COUNT,
    ensures
        spec_key_index(k) == i,
{
    match i {
        0 => TwiddlerKey::Z0,
        1 => TwiddlerKey::L0,
        2 => TwiddlerKey::M0,
        3 => TwiddlerKey::R0,
        4 => TwiddlerKey::L1,
        5 => TwiddlerKey::M1,
        6 => TwiddlerKey::R1,
        7 => TwiddlerKey::L2,
        8 => TwiddlerKey::M2,
        9 => TwiddlerKey::R2,
        10 => TwiddlerKey::L3,
        11 => TwiddlerKey::M3,
        12 => TwiddlerKey::R3,
        13 => TwiddlerKey::L4,
        14 => TwiddlerKey::M4,
        _ => TwiddlerKey::R4,
    }
}

/// All sixteen keys, in declaration order.
pub fn all_keys() -> (v: Vec<TwiddlerKey>)
    ensures
        v@.len() == KEY_COUNT,
        forall|i: int| 0 <= i < KEY_COUNT ==> spec_key_index(#[trigger] v@[i]) == i,
{
    let mut v: Vec<TwiddlerKey> = Vec::new();
    let mut i: usize = 0;
    while i < KEY_COUNT
        invariant
            i <= KEY_COUNT,
            v@.len() == i,
            forall|j: int| 0 <= j < i ==> spec_key_index(#[trigger] v@[j]) == j,
        decreases KEY_COUNT - i,
    {
        v.push(key_of_index(i));
        i = i + 1;
    }
    v
}

/// A combination of keys pressed simultaneously, stored as a bitset in
/// key-declaration order.
#[derive(Debug)]
pub struct Chord {
    keys: Vec<bool>,
}

impl View for Chord {
    type V = Seq<bool>;

    closed spec fn view(&self) -> Seq<bool> {
        self.keys@
    }
}

/// The number of pressed keys in a key bitset.
pub open spec fn count_on(s: Seq<bool>) -> nat
    decreases s.len(),
{
    if s.len() == 0 {
        0
    } else {
        count_on(s.drop_last()) + if s.last() {
            1nat
        } else {
            0nat
        }
    }
}

/// The key bitset of the reserved chord holding `Z0`, `R0` and the key at
/// position `x`.
pub open spec fn reserved_mask(x: int) -> Seq<bool> {
    Seq::new(KEY_COUNT as nat, |i: int| i == 0 || i == 3 || i == x)
}

/// Key positions `x` for which `{Z0, R0, x}` is a chord the hardware reserves.
pub open spec fn spec_is_reserved_slot(x: int) -> bool {
    x == 5 || x == 6 || x == 8 || x == 9 || x == 11 || x == 12 || x == 14 || x == 15
}

/// A key bitset the hardware refuses to rebind: `{Z0, R0, k}` for every main
/// key `k` in the middle or right column.
pub open spec fn spec_is_reserved(s: Seq<bool>) -> bool {
    exists|x: int| spec_is_reserved_slot(x) && s =~= reserved_mask(x)
}

/// A chord is valid when it presses at least one main-row key and is not one
/// of the reserved chords.
pub open spec fn spec_is_valid(s: Seq<bool>) -> bool {
    &&& exists|i: int| 4 <= i < KEY_COUNT && s[i]
    &&& !spec_is_reserved(s)
}

impl Chord {
    /// Every chord built by this module's constructors has a bitset of exactly
    /// the keyboard's key count; the methods below preserve this.
    pub open spec fn wf(self) -> bool {
        self@.len() == KEY_COUNT
    }

    /// The empty chord: no key pressed.
    pub fn new() -> (c: Chord)
        ensures
            c.wf(),
            c@ == Seq::new(KEY_COUNT as nat, |i: int| false),
    {
        let keys: Vec<bool> = vec![false; KEY_COUNT];
        let c = Chord { keys };
        proof {
            assert(c@ =~= Seq::new(KEY_COUNT as nat, |i: int| false));
        }
        c
    }

    /// Build a chord from an explicit key bitset; rejects bitsets whose length
    /// is not the keyboard's key count.
    pub fn from_keys(keys: Vec<bool>) -> (r: Option<Chord>)
        ensures
            keys@.len() == KEY_COUNT ==> (r matches Some(c) && c.wf() && c@ == keys@),
            keys@.len() != KEY_COUNT ==> r is None,
    {
        if keys.len() == KEY_COUNT {
            Some(Chord { keys })
        } else {
            None
        }
    }

    pub fn contains(&self, key: TwiddlerKey) -> (b: bool)
        requires
            self.wf(),
        ensures
            b == self@[spec_key_index(key)],
    {
        let i = key_index(key);
        self.keys[i]
    }

    /// Press `key`; pressing an already-pressed key changes nothing.
    pub fn add_key(&mut self, key: TwiddlerKey)
        requires
            old(self).wf(),
        ensures
            final(self).wf(),
            final(self)@ == old(self)@.update(spec_key_index(key), true),
    {
        let i = key_index(key);
        self.keys.set(i, true);
    }

    /// The number of pressed keys.
    pub fn n_keys(&self) -> (n: usize)
        requires
            self.wf(),
        ensures
            n == count_on(self@),
    {
        let mut n: usize = 0;
        let mut i: usize = 0;
        while i < KEY_COUNT
            invariant
                i <= KEY_COUNT,
                self@.len() == KEY_COUNT,
                n == count_on(self@.take(i as int)),
                n <= i,
            decreases KEY_COUNT - i,
        {
            proof {
                assert(self@.take(i + 1).drop_last() =~= self@.take(i as int));
            }
            if self.keys[i] {
                n = n + 1;
            }
            i = i + 1;
        }
        proof {
            assert(self@.take(KEY_COUNT as int) =~= self@);
        }
        n
    }

    /// The key bitset as a plain vector.
    pub fn to_vector(&self) -> (v: Vec<bool>)
        requires
            self.wf(),
        ensures
            v@ == self@,
    {
        let mut v: Vec<bool> = Vec::new();
        let mut i: usize = 0;
        while i < KEY_COUNT
            invariant
                i <= KEY_COUNT,
                self@.len() == KEY_COUNT,
                v@ =~= self@.take(i as int),
            decreases KEY_COUNT - i,
        {
            v.push(self.keys[i]);
            i = i + 1;
        }
        proof {
            assert(self@.take(KEY_COUNT as int) =~= self@);
        }
        v
    }

    /// An exact copy of the chord.
    pub fn duplicate(&self) -> (c: Chord)
        requires
            self.wf(),
        ensures
            c.wf(),
            c@ == self@,
    {
        let keys = self.to_vector();
        Chord { keys }
    }

    /// Whether the chord's bitset equals the reserved mask for slot `x`.
    fn matches_reserved(&self, x: usize) -> (b: bool)
        requires
            self.wf(),
            x < KEY_COUNT,
        ensures
            b == (self@ =~= reserved_mask(x as int)),
    {
        let mut i: usize = 0;
        let mut b: bool = true;
        while i < KEY_COUNT
            invariant
                i <= KEY_COUNT,
                x < KEY_COUNT,
                self@.len() == KEY_COUNT,
                b == (forall|j: int| 0 <= j < i ==> self@[j] == reserved_mask(x as int)[j]),
            decreases KEY_COUNT - i,
        {
            let expected = i == 0 || i == 3 || i == x;
            if self.keys[i] != expected {
                b = false;
            }
            i = i + 1;
        }
        b
    }

    /// Validity per the keyboard: at least one main-row key is pressed and the
    /// chord is not reserved.
    pub fn is_valid(&self) -> (b: bool)
        requires
            self.wf(),
        ensures
            b == spec_is_valid(self@),
    {
        let mut has_main: bool = false;
        let mut i: usize = 4;
        while i < KEY_COUNT
            invariant
                4 <= i <= KEY_COUNT,
                self@.len() == KEY_COUNT,
                has_main == (exists|j: int| 4 <= j < i && self@[j]),
            decreases KEY_COUNT - i,
        {
            if self.keys[i] {
                has_main = true;
            }
            i = i + 1;
        }
        if !has_main {
            return false;
        }
        let slots: Vec<usize> = vec![5, 6, 8, 9, 11, 12, 14, 15];
        let mut k: usize = 0;
        while k < slots.len()
            invariant
                k <= slots@.len(),
                slots@ =~= seq![5usize, 6, 8, 9, 11, 12, 14, 15],
                self@.len() == KEY_COUNT,
                forall|j: int|
                    0 <= j < k ==> !(self@ =~= reserved_mask(#[trigger] slots@[j] as int)),
            decreases slots@.len() - k,
        {
            if self.matches_reserved(slots[k]) {
                proof {
                    assert(spec_is_reserved_slot(slots@[k as int] as int));
                }
                return false;
            }
            k = k + 1;
        }
        proof {
            assert forall|x: int| spec_is_reserved_slot(x) implies !(self@ =~= reserved_mask(x)) by {
                if x == 5 {
                    assert(!(self@ =~= reserved_mask(slots@[0] as int)));
                } else if x == 6 {
                    assert(!(self@ =~= reserved_mask(slots@[1] as int)));
                } else if x == 8 {
                    assert(!(self@ =~= reserved_mask(slots@[2] as int)));
                } else if x == 9 {
                    assert(!(self@ =~= reserved_mask(slots@[3] as int)));
                } else if x == 11 {
                    assert(!(self@ =~= reserved_mask(slots@[4] as int)));
                } else if x == 12 {
                    assert(!(self@ =~= reserved_mask(slots@[5] as int)));
                } else if x == 14 {
                    assert(!(self@ =~= reserved_mask(slots@[6] as int)));
                } else {
                    assert(!(self@ =~= reserved_mask(slots@[7] as int)));
                }
            }
        }
        true
    }
}

impl PartialEq for Chord {
    fn eq(&self, other: &Chord) -> (b: bool) {
        let n = self.keys.len();
        if n != other.keys.len() {
            return false;
        }
        let mut i: usize = 0;
        let mut same: bool = true;
        while i < n
            invariant
                i <= n,
                self@.len() == n,
                other@.len() == n,
                same == (forall|j: int| 0 <= j < i ==> self@[j] == other@[j]),
            decreases n - i,
        {
            if self.keys[i] != other.keys[i] {
                same = false;
            }
            i = i + 1;
        }
        proof {
            if same {
                assert(self@ =~= other@);
            }
        }
        same
    }
}

impl vstd::std_specs::cmp::PartialEqSpecImpl for Chord {
    open spec fn obeys_eq_spec() -> bool {
        true
    }

    open spec fn eq_spec(&self, other: &Chord) -> bool {
        self@ == other@
    }
}

impl Eq for Chord {}

/// The eight reserved chords, as chords.
pub fn reserved_chords() -> (v: Vec<Chord>)
    ensures
        v@.len() == 8,
        forall|j: int| 0 <= j < 8 ==> (#[trigger] v@[j]).wf(),
        forall|j: int| 0 <= j < 8 ==> spec_is_reserved(#[trigger] v@[j]@),
        forall|s: Seq<bool>|
            spec_is_reserved(s) ==> exists|j: int| 0 <= j < 8 && #[trigger] v@[j]@ =~= s,
{
    let slots: Vec<usize> = vec![5, 6, 8, 9, 11, 12, 14, 15];
    let mut v: Vec<Chord> = Vec::new();
    let mut k: usize = 0;
    while k < slots.len()
        invariant
            k <= slots@.len(),
            slots@ =~= seq![5usize, 6, 8, 9, 11, 12, 14, 15],
            v@.len() == k,
            forall|j: int| 0 <= j < k ==> (#[trigger] v@[j]).wf(),
            forall|j: int| 0 <= j < k ==> #[trigger] v@[j]@ =~= reserved_mask(slots@[j] as int),
        decreases slots@.len() - k,
    {
        let mut c = Chord::new();
        c.add_key(TwiddlerKey::Z0);
        c.add_key(TwiddlerKey::R0);
        c.add_key(key_of_index(slots[k]));
        proof {
            assert(c@ =~= reserved_mask(slots@[k as int] as int));
        }
        v.push(c);
        k = k + 1;
    }
    proof {
        assert forall|j: int| 0 <= j < 8 implies spec_is_reserved(#[trigger] v@[j]@) by {
            assert(spec_is_reserved_slot(slots@[j] as int) && v@[j]@ =~= reserved_mask(
                slots@[j] as int,
            ));
        }
        assert forall|s: Seq<bool>| spec_is_reserved(s) implies exists|j: int|
            0 <= j < 8 && #[trigger] v@[j]@ =~= s by {
            let x = choose|x: int| spec_is_reserved_slot(x) && s =~= reserved_mask(x);
            if x == 5 {
                assert(v@[0]@ =~= s);
            } else if x == 6 {
                assert(v@[1]@ =~= s);
            } else if x == 8 {
                assert(v@[2]@ =~= s);
            } else if x == 9 {
                assert(v@[3]@ =~= s);
            } else if x == 11 {
                assert(v@[4]@ =~= s);
            } else if x == 12 {
                assert(v@[5]@ =~= s);
            } else if x == 14 {
                assert(v@[6]@ =~= s);
            } else {
                assert(v@[7]@ =~= s);
            }
        }
    }
    v
}

/// Relies on std's String::push, which vstd leaves unspecified: appends the
/// character to the end of the string.
#[verifier::external_body]
pub(crate) fn push_char(s: &mut String, c: char)
    ensures
        final(s)@ == old(s)@.push(c),
{
    s.push(c);
}

/// The symbol drawn for one key: filled when pressed, hollow otherwise.
pub open spec fn key_symbol(pressed: bool) -> char {
    if pressed {
        '#'
    } else {
        '.'
    }
}

/// One drawn row of the chord picture: the keys in `[lo, hi)`.
pub open spec fn spec_row_chars(s: Seq<bool>, lo: int, hi: int) -> Seq<char>
    decreases hi - lo,
{
    if hi <= lo {
        Seq::empty()
    } else {
        spec_row_chars(s, lo, hi - 1).push(key_symbol(s[hi - 1]))
    }
}

/// The whole chord picture: the four thumb keys on one line, then the four
/// main rows of three keys, each indented by one space.
pub open spec fn spec_chord_picture(s: Seq<bool>) -> Seq<char> {
    spec_chord_picture_rows(s, 4)
}

/// The reference keyboard's layout: which chords it accepts and how a chord
/// is drawn for the user.
pub struct TwiddlerLayout;

impl TwiddlerLayout {
    /// Validity per the keyboard: at least one main-row key is pressed and
    /// the chord is not reserved.
    pub fn is_valid(chord: &Chord) -> (b: bool)
        requires
            chord.wf(),
        ensures
            b == spec_is_valid(chord@),
    {
        chord.is_valid()
    }

    /// Draw the chord as rows of filled and hollow key marks, thumb row
    /// first.
    pub fn chord_picture(chord: &Chord) -> (r: String)
        requires
            chord.wf(),
        ensures
            r@ == spec_chord_picture(chord@),
    {
        let mut out = String::new();
        let keys = chord.to_vector();
        let mut i: usize = 0;
        while i < 4
            invariant
                keys@ == chord@,
                keys@.len() == KEY_COUNT,
                i <= 4,
                out@ == spec_row_chars(chord@, 0, i as int),
            decreases 4 - i,
        {
            if keys[i] {
                push_char(&mut out, '#');
            } else {
                push_char(&mut out, '.');
            }
            i = i + 1;
        }
        push_char(&mut out, '\n');
        let mut row: usize = 0;
        while row < 4
            invariant
                keys@ == chord@,
                keys@.len() == KEY_COUNT,
                row <= 4,
                out@ == spec_chord_picture_rows(chord@, row as int),
            decreases 4 - row,
        {
            push_char(&mut out, ' ');
            let lo = 4 + 3 * row;
            let mut i: usize = lo;
            while i < lo + 3
                invariant
                    keys@ == chord@,
                    keys@.len() == KEY_COUNT,
                    row < 4,
                    lo == 4 + 3 * row,
                    lo <= i <= lo + 3,
                    lo + 3 <= KEY_COUNT,
                    out@ == spec_chord_picture_rows(chord@, row as int) + seq![' ']
                        + spec_row_chars(chord@, lo as int, i as int),
                decreases lo + 3 - i,
            {
                if keys[i] {
                    push_char(&mut out, '#');
                } else {
                    push_char(&mut out, '.');
                }
                proof {
                    assert(out@ =~= spec_chord_picture_rows(chord@, row as int) + seq![' ']
                        + spec_row_chars(chord@, lo as int, i + 1));
                }
                i = i + 1;
            }
            push_char(&mut out, '\n');
            proof {
                assert(out@ =~= spec_chord_picture_rows(chord@, row + 1));
            }
            row = row + 1;
        }
        proof {
            assert(out@ =~= spec_chord_picture(chord@));
        }
        out
    }
}

/// The picture truncated to its thumb line and the first `rows` main rows.
pub open spec fn spec_chord_picture_rows(s: Seq<bool>, rows: int) -> Seq<char>
    decreases rows,
{
    if rows <= 0 {
        spec_row_chars(s, 0, 4) + seq!['\n']
    } else {
        spec_chord_picture_rows(s, rows - 1) + seq![' '] + spec_row_chars(
            s,
            4 + 3 * (rows - 1),
            4 + 3 * rows,
        ) + seq!['\n']
    }
}

/// The hardware's own number for the key at declaration position `i`.
pub open spec fn spec_hw_key_number(i: int) -> int {
    if i == 0 {
        0
    } else if i == 1 {
        4
    } else if i == 2 {
        8
    } else if i == 3 {
        12
    } else if i == 4 {
        1
    } else if i == 5 {
        2
    } else if i == 6 {
        3
    } else if i == 7 {
        5
    } else if i == 8 {
        6
    } else if i == 9 {
        7
    } else if i == 10 {
        9
    } else if i == 11 {
        10
    } else if i == 12 {
        11
    } else if i == 13 {
        13
    } else if i == 14 {
        14
    } else {
        15
    }
}

/// The hardware numbers of the pressed keys among the first `n` positions,
/// in declaration order.
pub open spec fn spec_hw_key_numbers(s: Seq<bool>, n: int) -> Seq<u16>
    decreases n,
{
    if n <= 0 {
        Seq::empty()
    } else {
        spec_hw_key_numbers(s, n - 1) + if s[n - 1] {
            seq![spec_hw_key_number(n - 1) as u16]
        } else {
            Seq::empty()
        }
    }
}

/// The pressed keys of a chord in the hardware's own numbering, as a
/// configuration file lists them.
pub fn chord_to_key_numbers(chord: &Chord) -> (r: Vec<u16>)
    requires
        chord.wf(),
    ensures
        r@ == spec_hw_key_numbers(chord@, KEY_COUNT as int),
{
    let numbers: Vec<u16> = vec![0, 4, 8, 12, 1, 2, 3, 5, 6, 7, 9, 10, 11, 13, 14, 15];
    let keys = chord.to_vector();
    let mut r: Vec<u16> = Vec::new();
    let mut i: usize = 0;
    proof {
        assert(numbers@ =~= seq![
            0u16, 4, 8, 12, 1, 2, 3, 5, 6, 7, 9, 10, 11, 13, 14, 15,
        ]);
    }
    while i < KEY_COUNT
        invariant
            keys@ == chord@,
            keys@.len() == KEY_COUNT,
            numbers@ =~= seq![0u16, 4, 8, 12, 1, 2, 3, 5, 6, 7, 9, 10, 11, 13, 14, 15],
            i <= KEY_COUNT,
            r@ == spec_hw_key_numbers(chord@, i as int),
        decreases KEY_COUNT - i,
    {
        if keys[i] {
            r.push(numbers[i]);
            proof {
                assert(numbers@[i as int] == spec_hw_key_number(i as int) as u16);
                assert(r@ =~= spec_hw_key_numbers(chord@, i + 1));
            }
        } else {
            proof {
                assert(r@ =~= spec_hw_key_numbers(chord@, i + 1));
            }
        }
        i = i + 1;
    }
    r
}

} // verus!