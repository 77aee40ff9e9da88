use crate::keyboard_config::{Chord, KEY_COUNT};
use crate::logic::{results_wf, trial_wf, ErrCode, TrialData, TrialResults};
use crate::twiddler::chords_view;
use vstd::prelude::*;

verus! {

// The persisted form of a result list is one JSON object,
//   {"data":[ trial, ... ]}
// where each trial is
//   {"chord_pair":[chord,chord],"n_repetitions":N,"input":IN},
// each chord is {"keys":[...]} with one comma-separated boolean per key, and IN is
// {"Ok":[chord,...]} for a decoded trial or {"Err":"Impossible"} for an
// impossible pair. The functions below write exactly this form and read
// exactly this form back.
/// The ghost shape of one trial: the two key bitsets, the repetition count,
/// and the typed bitsets when the trial was decoded.
pub struct TrialView {
    pub first: Seq<bool>,
    pub second: Seq<bool>,
    pub reps: int,
    pub typed: Option<Seq<Seq<bool>>>,
}

/// The ghost shape of one recorded trial.
pub open spec fn trial_view(t: TrialData) -> TrialView {
    TrialView {
        first: t.chord_pair.0@,
        second: t.chord_pair.1@,
        reps: t.n_repetitions as int,
        typed: match t.input {
            Ok(v) => Some(chords_view(v)),
            Err(_) => None,
        },
    }
}

/// The ghost shape of a result list.
pub open spec fn results_view(r: TrialResults) -> Seq<TrialView> {
    Seq::new(r.data@.len(), |k: int| trial_view(r.data@[k]))
}

/// A view that some well-formed result list can take.
pub open spec fn view_wf(t: TrialView) -> bool {
    &&& t.first.len() == KEY_COUNT
    &&& t.second.len() == KEY_COUNT
    &&& 0 <= t.reps <= usize::MAX
    &&& match t.typed {
        Some(vs) => forall|k: int| 0 <= k < vs.len() ==> (#[trigger] vs[k]).len() == KEY_COUNT,
        None => true,
    }
}

pub open spec fn views_wf(ts: Seq<TrialView>) -> bool {
    forall|k: int| 0 <= k < ts.len() ==> view_wf(#[trigger] ts[k])
}

/// The decimal digit character of `d`.
pub open spec fn digit_char(d: int) -> char {
    ((48 + d) as u8) as char
}

/// The decimal representation of `n`, most significant digit first.
pub open spec fn dec_rep(n: int) -> Seq<char>
    decreases n,
{
    if n < 10 {
        seq![digit_char(if n < 0 {
            0
        } else {
            n
        })]
    } else {
        dec_rep(n / 10).push(digit_char(n % 10))
    }
}

pub open spec fn ser_bool(b: bool) -> Seq<char> {
    if b {
        "true"@
    } else {
        "false"@
    }
}

/// A comma-separated list of booleans.
pub open spec fn ser_bools(s: Seq<bool>) -> Seq<char>
    decreases s.len(),
{
    if s.len() == 0 {
        Seq::empty()
    } else if s.len() == 1 {
        ser_bool(s[0])
    } else {
        ser_bools(s.drop_last()) + seq![','] + ser_bool(s.last())
    }
}

pub open spec fn ser_chord(s: Seq<bool>) -> Seq<char> {
    "{\"keys\":["@ + ser_bools(s) + "]}"@
}

/// A comma-separated list of chords.
pub open spec fn ser_chords(s: Seq<Seq<bool>>) -> Seq<char>
    decreases s.len(),
{
    if s.len() == 0 {
        Seq::empty()
    } else if s.len() == 1 {
        ser_chord(s[0])
    } else {
        ser_chords(s.drop_last()) + seq![','] + ser_chord(s.last())
    }
}

pub open spec fn ser_input(t: Option<Seq<Seq<bool>>>) -> Seq<char> {
    match t {
        Some(vs) => "{\"Ok\":["@ + ser_chords(vs) + "]}"@,
        None => "{\"Err\":\"Impossible\"}"@,
    }
}

pub open spec fn ser_trial(t: TrialView) -> Seq<char> {
    "{\"chord_pair\":["@ + ser_chord(t.first) + seq![','] + ser_chord(t.second)
        + "],\"n_repetitions\":"@ + dec_rep(t.reps) + ",\"input\":"@ + ser_input(t.typed)
        + seq!['}']
}

pub open spec fn ser_trials(ts: Seq<TrialView>) -> Seq<char>
    decreases ts.len(),
{
    if ts.len() == 0 {
        Seq::empty()
    } else if ts.len() == 1 {
        ser_trial(ts[0])
    } else {
        ser_trials(ts.drop_last()) + seq![','] + ser_trial(ts.last())
    }
}

pub open spec fn ser_results(ts: Seq<TrialView>) -> Seq<char> {
    "{\"data\":["@ + ser_trials(ts) + "]}"@
}

fn push_str_lit(s: &mut String, lit: &str)
    ensures
        final(s)@ == old(s)@ + lit@,
{
    s.append(lit);
}

/// Append the decimal representation of `n`.
fn push_dec(s: &mut String, n: usize)
    ensures
        final(s)@ == old(s)@ + dec_rep(n as int),
    decreases n,
{
    if n < 10 {
        crate::keyboard_config::push_char(s, (48 + n as u8) as char);
        proof {
            assert(s@ =~= old(s)@ + dec_rep(n as int));
        }
    } else {
        push_dec(s, n / 10);
        crate::keyboard_config::push_char(s, (48 + (n % 10) as u8) as char);
        proof {
            assert(s@ =~= old(s)@ + dec_rep(n as int));
        }
    }
}

/// Append the comma-separated booleans of a chord's bitset.
fn push_bools(s: &mut String, c: &Chord)
    requires
        c.wf(),
    ensures
        final(s)@ == old(s)@ + ser_bools(c@),
{
    let v = c.to_vector();
    let mut k: usize = 0;
    while k < v.len()
        invariant
            v@ == c@,
            v@.len() == KEY_COUNT,
            k <= v@.len(),
            s@ == old(s)@ + ser_bools(c@.take(k as int)),
        decreases v@.len() - k,
    {
        if k > 0 {
            crate::keyboard_config::push_char(s, ',');
        }
        if v[k] {
            push_str_lit(s, "true");
        } else {
            push_str_lit(s, "false");
        }
        proof {
            lemma_ser_bools_take_step(c@, k as int);
            if k == 0 {
                assert(c@.take(1) =~= seq![c@[0]]);
                assert(s@ =~= old(s)@ + ser_bools(c@.take(1)));
            } else {
                assert(s@ =~= old(s)@ + ser_bools(c@.take(k + 1)));
            }
        }
        k = k + 1;
    }
    proof {
        assert(c@.take(KEY_COUNT as int) =~= c@);
    }
}

/// One more list element extends the comma-separated form by a comma and the
/// element, or is the whole form for the first element.
proof fn lemma_ser_bools_take_step(s: Seq<bool>, k: int)
    requires
        0 <= k < s.len(),
    ensures
        k == 0 ==> ser_bools(s.take(1)) == ser_bool(s[0]),
        k > 0 ==> ser_bools(s.take(k + 1)) == ser_bools(s.take(k)) + seq![','] + ser_bool(s[k]),
{
    if k == 0 {
        assert(s.take(1) =~= seq![s[0]]);
    } else {
        assert(s.take(k + 1).drop_last() =~= s.take(k));
        assert(s.take(k + 1).last() == s[k]);
        assert(s.take(k + 1).len() == k + 1 >= 2);
    }
}

proof fn lemma_ser_chords_take_step(s: Seq<Seq<bool>>, k: int)
    requires
        0 <= k < s.len(),
    ensures
        k == 0 ==> ser_chords(s.take(1)) == ser_chord(s[0]),
        k > 0 ==> ser_chords(s.take(k + 1)) == ser_chords(s.take(k)) + seq![','] + ser_chord(s[k]),
{
    if k == 0 {
        assert(s.take(1) =~= seq![s[0]]);
    } else {
        assert(s.take(k + 1).drop_last() =~= s.take(k));
        assert(s.take(k + 1).last() == s[k]);
        assert(s.take(k + 1).len() == k + 1 >= 2);
    }
}

proof fn lemma_ser_trials_take_step(s: Seq<TrialView>, k: int)
    requires
        0 <= k < s.len(),
    ensures
        k == 0 ==> ser_trials(s.take(1)) == ser_trial(s[0]),
        k > 0 ==> ser_trials(s.take(k + 1)) == ser_trials(s.take(k)) + seq![','] + ser_trial(s[k]),
{
    if k == 0 {
        assert(s.take(1) =~= seq![s[0]]);
    } else {
        assert(s.take(k + 1).drop_last() =~= s.take(k));
        assert(s.take(k + 1).last() == s[k]);
        assert(s.take(k + 1).len() == k + 1 >= 2);
    }
}

fn push_chord(s: &mut String, c: &Chord)
    requires
        c.wf(),
    ensures
        final(s)@ == old(s)@ + ser_chord(c@),
{
    push_str_lit(s, "{\"keys\":[");
    push_bools(s, c);
    push_str_lit(s, "]}");
    proof {
        assert(s@ =~= old(s)@ + ser_chord(c@));
    }
}

fn push_chord_list(s: &mut String, v: &Vec<Chord>)
    requires
        forall|k: int| 0 <= k < v@.len() ==> (#[trigger] v@[k]).wf(),
    ensures
        final(s)@ == old(s)@ + ser_chords(chords_view(*v)),
{
    let mut k: usize = 0;
    proof {
        assert(chords_view(*v).take(0) =~= Seq::<Seq<bool>>::empty());
        assert(s@ =~= old(s)@ + ser_chords(chords_view(*v).take(0)));
    }
    while k < v.len()
        invariant
            forall|m: int| 0 <= m < v@.len() ==> (#[trigger] v@[m]).wf(),
            k <= v@.len(),
            s@ == old(s)@ + ser_chords(chords_view(*v).take(k as int)),
        decreases v@.len() - k,
    {
        if k > 0 {
            crate::keyboard_config::push_char(s, ',');
        }
        push_chord(s, &v[k]);
        proof {
            lemma_ser_chords_take_step(chords_view(*v), k as int);
            assert(chords_view(*v)[k as int] == v@[k as int]@);
            assert(s@ =~= old(s)@ + ser_chords(chords_view(*v).take(k + 1)));
        }
        k = k + 1;
    }
    proof {
        assert(chords_view(*v).take(v@.len() as int) =~= chords_view(*v));
    }
}

fn push_trial(s: &mut String, t: &TrialData)
    requires
        trial_wf(*t),
    ensures
        final(s)@ == old(s)@ + ser_trial(trial_view(*t)),
{
    push_str_lit(s, "{\"chord_pair\":[");
    push_chord(s, &t.chord_pair.0);
    crate::keyboard_config::push_char(s, ',');
    push_chord(s, &t.chord_pair.1);
    push_str_lit(s, "],\"n_repetitions\":");
    push_dec(s, t.n_repetitions);
    push_str_lit(s, ",\"input\":");
    match &t.input {
        Ok(v) => {
            push_str_lit(s, "{\"Ok\":[");
            push_chord_list(s, v);
            push_str_lit(s, "]}");
        },
        Err(_) => {
            push_str_lit(s, "{\"Err\":\"Impossible\"}");
        },
    }
    crate::keyboard_config::push_char(s, '}');
    proof {
        assert(s@ =~= old(s)@ + ser_trial(trial_view(*t)));
    }
}

/// Serialize a result list to its JSON text.
pub fn results_to_json(r: &TrialResults) -> (s: String)
    requires
        results_wf(*r),
    ensures
        s@ == ser_results(results_view(*r)),
{
    let mut s = String::new();
    push_str_lit(&mut s, "{\"data\":[");
    let mut k: usize = 0;
    while k < r.data.len()
        invariant
            results_wf(*r),
            k <= r.data@.len(),
            s@ == "{\"data\":["@ + ser_trials(results_view(*r).take(k as int)),
        decreases r.data@.len() - k,
    {
        if k > 0 {
            crate::keyboard_config::push_char(&mut s, ',');
        }
        push_trial(&mut s, &r.data[k]);
        proof {
            lemma_ser_trials_take_step(results_view(*r), k as int);
        }
        k = k + 1;
    }
    push_str_lit(&mut s, "]}");
    proof {
        assert(results_view(*r).take(r.data@.len() as int) =~= results_view(*r));
        assert(s@ =~= ser_results(results_view(*r)));
    }
    s
}

// ---- reading the text back ----
pub open spec fn is_digit(c: char) -> bool {
    48 <= c as int <= 57
}

pub open spec fn digit_val(c: char) -> int {
    c as int - 48
}

/// Consume the literal `lit` at `pos`.
pub open spec fn p_lit(cs: Seq<char>, pos: int, lit: Seq<char>) -> Option<int> {
    if 0 <= pos && pos + lit.len() <= cs.len() && cs.subrange(pos, pos + lit.len()) == lit {
        Some(pos + lit.len())
    } else {
        None
    }
}

/// Consume one boolean literal.
pub open spec fn p_bool(cs: Seq<char>, pos: int) -> Option<(bool, int)> {
    match p_lit(cs, pos, "true"@) {
        Some(e) => Some((true, e)),
        None => match p_lit(cs, pos, "false"@) {
            Some(e) => Some((false, e)),
            None => None,
        },
    }
}

/// Consume a run of digits, most significant first, folding up its value.
pub open spec fn scan_val(cs: Seq<char>, pos: int, acc: int) -> (int, int)
    decreases cs.len() - pos,
{
    if 0 <= pos < cs.len() && is_digit(cs[pos]) {
        scan_val(cs, pos + 1, acc * 10 + digit_val(cs[pos]))
    } else {
        (acc, pos)
    }
}

/// Consume a decimal number.
pub open spec fn p_dec(cs: Seq<char>, pos: int) -> Option<(int, int)> {
    if 0 <= pos < cs.len() && is_digit(cs[pos]) {
        Some(scan_val(cs, pos, 0))
    } else {
        None
    }
}

/// Consume exactly `n` comma-separated booleans.
pub open spec fn p_bools(cs: Seq<char>, pos: int, n: int) -> Option<(Seq<bool>, int)>
    decreases n,
{
    if n <= 0 {
        None
    } else {
        match p_bool(cs, pos) {
            None => None,
            Some((b, e1)) => if n == 1 {
                Some((seq![b], e1))
            } else {
                match p_lit(cs, e1, seq![',']) {
                    None => None,
                    Some(e2) => match p_bools(cs, e2, n - 1) {
                        None => None,
                        Some((rest, e3)) => Some((seq![b] + rest, e3)),
                    },
                }
            },
        }
    }
}

/// Consume one chord object.
pub open spec fn p_chord(cs: Seq<char>, pos: int) -> Option<(Seq<bool>, int)> {
    match p_lit(cs, pos, "{\"keys\":["@) {
        None => None,
        Some(e1) => match p_bools(cs, e1, KEY_COUNT as int) {
            None => None,
            Some((ks, e2)) => match p_lit(cs, e2, "]}"@) {
                None => None,
                Some(e3) => Some((ks, e3)),
            },
        },
    }
}

/// Consume a possibly empty comma-separated chord list, stopping before a
/// closing bracket.
pub open spec fn p_chord_list(cs: Seq<char>, pos: int) -> Option<(Seq<Seq<bool>>, int)>
    decreases cs.len() - pos,
{
    if 0 <= pos < cs.len() && cs[pos] == ']' {
        Some((Seq::empty(), pos))
    } else {
        match p_chord(cs, pos) {
            None => None,
            Some((c, e1)) => if pos < e1 <= cs.len() {
                if e1 < cs.len() && cs[e1] == ',' {
                    match p_chord_list(cs, e1 + 1) {
                        None => None,
                        Some((rest, e2)) => if rest.len() >= 1 {
                            Some((seq![c] + rest, e2))
                        } else {
                            None
                        },
                    }
                } else {
                    Some((seq![c], e1))
                }
            } else {
                None
            },
        }
    }
}

/// Consume the input field: a decoded chord list or the impossibility mark.
pub open spec fn p_input(cs: Seq<char>, pos: int) -> Option<(Option<Seq<Seq<bool>>>, int)> {
    match p_lit(cs, pos, "{\"Ok\":["@) {
        Some(e1) => match p_chord_list(cs, e1) {
            None => None,
            Some((vs, e2)) => match p_lit(cs, e2, "]}"@) {
                None => None,
                Some(e3) => Some((Some(vs), e3)),
            },
        },
        None => match p_lit(cs, pos, "{\"Err\":\"Impossible\"}"@) {
            Some(e1) => Some((None, e1)),
            None => None,
        },
    }
}

/// Consume one trial object.
pub open spec fn p_trial(cs: Seq<char>, pos: int) -> Option<(TrialView, int)> {
    match p_lit(cs, pos, "{\"chord_pair\":["@) {
        None => None,
        Some(e1) => match p_chord(cs, e1) {
            None => None,
            Some((a, e2)) => match p_lit(cs, e2, seq![',']) {
                None => None,
                Some(e3) => match p_chord(cs, e3) {
                    None => None,
                    Some((b, e4)) => match p_lit(cs, e4, "],\"n_repetitions\":"@) {
                        None => None,
                        Some(e5) => match p_dec(cs, e5) {
                            None => None,
                            Some((n, e6)) => match p_lit(cs, e6, ",\"input\":"@) {
                                None => None,
                                Some(e7) => match p_input(cs, e7) {
                                    None => None,
                                    Some((t, e8)) => match p_lit(cs, e8, seq!['}']) {
                                        None => None,
                                        Some(e9) => Some(
                                            (
                                                TrialView {
                                                    first: a,
                                                    second: b,
                                                    reps: n,
                                                    typed: t,
                                                },
                                                e9,
                                            ),
                                        ),
                                    },
                                },
                            },
                        },
                    },
                },
            },
        },
    }
}

/// Consume a possibly empty comma-separated trial list, stopping before a
/// closing bracket.
pub open spec fn p_trial_list(cs: Seq<char>, pos: int) -> Option<(Seq<TrialView>, int)>
    decreases cs.len() - pos,
{
    if 0 <= pos < cs.len() && cs[pos] == ']' {
        Some((Seq::empty(), pos))
    } else {
        match p_trial(cs, pos) {
            None => None,
            Some((t, e1)) => if pos < e1 <= cs.len() {
                if e1 < cs.len() && cs[e1] == ',' {
                    match p_trial_list(cs, e1 + 1) {
                        None => None,
                        Some((rest, e2)) => if rest.len() >= 1 {
                            Some((seq![t] + rest, e2))
                        } else {
                            None
                        },
                    }
                } else {
                    Some((seq![t], e1))
                }
            } else {
                None
            },
        }
    }
}

/// Consume a whole persisted result list; the text must end with it.
pub open spec fn p_results(cs: Seq<char>) -> Option<Seq<TrialView>> {
    match p_lit(cs, 0, "{\"data\":["@) {
        None => None,
        Some(e1) => match p_trial_list(cs, e1) {
            None => None,
            Some((ts, e2)) => match p_lit(cs, e2, "]}"@) {
                None => None,
                Some(e3) => if e3 == cs.len() {
                    Some(ts)
                } else {
                    None
                },
            },
        },
    }
}

// ---- reading back what was written yields the written list ----
/// Splitting a known subrange of the text into its two parts.
proof fn lemma_sub_split(cs: Seq<char>, pos: int, a: Seq<char>, b: Seq<char>)
    requires
        0 <= pos,
        pos + a.len() + b.len() <= cs.len(),
        cs.subrange(pos, pos + a.len() + b.len()) == a + b,
    ensures
        cs.subrange(pos, pos + a.len()) == a,
        cs.subrange(pos + a.len(), pos + a.len() + b.len()) == b,
{
    assert(cs.subrange(pos, pos + a.len()) =~= a) by {
        assert forall|k: int| 0 <= k < a.len() implies cs.subrange(pos, pos + a.len())[k] == a[k]
            by {
            assert((a + b)[k] == a[k]);
            assert(cs.subrange(pos, pos + a.len() + b.len())[k] == cs[pos + k]);
        }
    }
    assert(cs.subrange(pos + a.len(), pos + a.len() + b.len()) =~= b) by {
        assert forall|k: int|
            0 <= k < b.len() implies cs.subrange(pos + a.len(), pos + a.len() + b.len())[k] == b[k]
            by {
            assert((a + b)[a.len() + k] == b[k]);
            assert(cs.subrange(pos, pos + a.len() + b.len())[a.len() + k] == cs[pos + a.len()
                + k]);
        }
    }
}

proof fn lemma_rt_bool(cs: Seq<char>, pos: int, b: bool)
    requires
        0 <= pos,
        pos + ser_bool(b).len() <= cs.len(),
        cs.subrange(pos, pos + ser_bool(b).len()) == ser_bool(b),
    ensures
        p_bool(cs, pos) == Some((b, pos + ser_bool(b).len())),
{
    reveal_strlit("true");
    reveal_strlit("false");
    if b {
        assert(p_lit(cs, pos, "true"@) == Some(pos + 4));
    } else {
        if p_lit(cs, pos, "true"@) is Some {
            assert(cs.subrange(pos, pos + 4)[0] == 't');
            assert(cs.subrange(pos, pos + 5)[0] == 'f');
            assert(false);
        }
        assert(p_lit(cs, pos, "false"@) == Some(pos + 5));
    }
}

pub open spec fn pow10(k: int) -> int
    decreases k,
{
    if k <= 0 {
        1
    } else {
        10 * pow10(k - 1)
    }
}

/// The value of the digit run `cs[pos..end]`, folding from the last digit.
pub open spec fn val_of(cs: Seq<char>, pos: int, end: int) -> int
    decreases end - pos,
{
    if end <= pos {
        0
    } else {
        val_of(cs, pos, end - 1) * 10 + digit_val(cs[end - 1])
    }
}

proof fn lemma_dec_rep_digits(n: int)
    requires
        0 <= n,
    ensures
        dec_rep(n).len() >= 1,
        forall|k: int| 0 <= k < dec_rep(n).len() ==> is_digit(#[trigger] dec_rep(n)[k]),
    decreases n,
{
    if n < 10 {
        assert(dec_rep(n)[0] == digit_char(n));
        assert(is_digit(digit_char(n)));
    } else {
        lemma_dec_rep_digits(n / 10);
        assert forall|k: int| 0 <= k < dec_rep(n).len() implies is_digit(
            #[trigger] dec_rep(n)[k],
        ) by {
            if k < dec_rep(n / 10).len() {
                assert(dec_rep(n)[k] == dec_rep(n / 10)[k]);
            } else {
                assert(dec_rep(n)[k] == digit_char(n % 10));
            }
        }
    }
}

proof fn lemma_val_of_dec(cs: Seq<char>, pos: int, n: int)
    requires
        0 <= n,
        0 <= pos,
        pos + dec_rep(n).len() <= cs.len(),
        cs.subrange(pos, pos + dec_rep(n).len()) == dec_rep(n),
    ensures
        val_of(cs, pos, pos + dec_rep(n).len()) == n,
    decreases n,
{
    let l = dec_rep(n).len() as int;
    if n < 10 {
        assert(cs[pos] == dec_rep(n)[0]) by {
            assert(cs.subrange(pos, pos + l)[0] == cs[pos]);
        }
        assert(val_of(cs, pos, pos) == 0);
        assert(val_of(cs, pos, pos + 1) == digit_val(digit_char(n)));
        assert(digit_val(digit_char(n)) == n);
    } else {
        assert(dec_rep(n) == dec_rep(n / 10).push(digit_char(n % 10)));
        let l0 = dec_rep(n / 10).len() as int;
        assert(cs.subrange(pos, pos + l0) =~= dec_rep(n / 10)) by {
            assert forall|k: int| 0 <= k < l0 implies #[trigger] cs.subrange(pos, pos + l0)[k]
                == dec_rep(n / 10)[k] by {
                assert(cs.subrange(pos, pos + l)[k] == dec_rep(n)[k]);
                assert(dec_rep(n)[k] == dec_rep(n / 10)[k]);
            }
        }
        lemma_val_of_dec(cs, pos, n / 10);
        assert(cs[pos + l - 1] == dec_rep(n)[l - 1]);
        assert(dec_rep(n)[l - 1] == digit_char(n % 10));
        assert(val_of(cs, pos, pos + l) == (n / 10) * 10 + (n % 10));
        assert((n / 10) * 10 + (n % 10) == n) by (nonlinear_arith)
            requires
                n >= 10,
        ;
    }
}

proof fn lemma_val_peel_first(cs: Seq<char>, pos: int, end: int)
    requires
        pos < end,
    ensures
        val_of(cs, pos, end) == digit_val(cs[pos]) * pow10(end - pos - 1) + val_of(
            cs,
            pos + 1,
            end,
        ),
    decreases end - pos,
{
    if end == pos + 1 {
        assert(val_of(cs, pos, pos) == 0);
        assert(val_of(cs, pos + 1, end) == 0);
        assert(pow10(0) == 1);
    } else {
        lemma_val_peel_first(cs, pos, end - 1);
        assert(val_of(cs, pos + 1, end) == val_of(cs, pos + 1, end - 1) * 10 + digit_val(
            cs[end - 1],
        ));
        let d0 = digit_val(cs[pos]);
        let k = end - pos - 2;
        assert(pow10(k + 1) == 10 * pow10(k));
        assert((d0 * pow10(k) + val_of(cs, pos + 1, end - 1)) * 10 + digit_val(cs[end - 1]) == d0
            * pow10(k + 1) + (val_of(cs, pos + 1, end - 1) * 10 + digit_val(cs[end - 1])))
            by (nonlinear_arith)
            requires
                pow10(k + 1) == 10 * pow10(k),
        ;
    }
}

proof fn lemma_scan(cs: Seq<char>, pos: int, end: int, acc: int)
    requires
        0 <= pos <= end <= cs.len(),
        forall|k: int| pos <= k < end ==> is_digit(#[trigger] cs[k]),
        end == cs.len() || !is_digit(cs[end]),
    ensures
        scan_val(cs, pos, acc) == (acc * pow10(end - pos) + val_of(cs, pos, end), end),
    decreases end - pos,
{
    if pos == end {
        assert(pow10(0) == 1);
    } else {
        assert(is_digit(cs[pos]));
        lemma_scan(cs, pos + 1, end, acc * 10 + digit_val(cs[pos]));
        lemma_val_peel_first(cs, pos, end);
        let l1 = end - pos - 1;
        assert((acc * 10 + digit_val(cs[pos])) * pow10(l1) == acc * pow10(l1 + 1) + digit_val(
            cs[pos],
        ) * pow10(l1)) by (nonlinear_arith)
            requires
                pow10(l1 + 1) == 10 * pow10(l1),
        ;
    }
}

proof fn lemma_rt_dec(cs: Seq<char>, pos: int, n: int)
    requires
        0 <= n,
        0 <= pos,
        pos + dec_rep(n).len() <= cs.len(),
        cs.subrange(pos, pos + dec_rep(n).len()) == dec_rep(n),
        pos + dec_rep(n).len() == cs.len() || !is_digit(cs[pos + dec_rep(n).len()]),
    ensures
        p_dec(cs, pos) == Some((n, pos + dec_rep(n).len())),
{
    let l = dec_rep(n).len() as int;
    lemma_dec_rep_digits(n);
    assert forall|k: int| pos <= k < pos + l implies is_digit(#[trigger] cs[k]) by {
        assert(cs[k] == cs.subrange(pos, pos + l)[k - pos]);
        assert(is_digit(dec_rep(n)[k - pos]));
    }
    assert(is_digit(cs[pos]));
    lemma_scan(cs, pos, pos + l, 0);
    lemma_val_of_dec(cs, pos, n);
}

proof fn lemma_ser_bools_unfold_first(s: Seq<bool>)
    requires
        s.len() >= 2,
    ensures
        ser_bools(s) == ser_bool(s[0]) + seq![','] + ser_bools(s.drop_first()),
    decreases s.len(),
{
    if s.len() == 2 {
        assert(s.drop_last() =~= seq![s[0]]);
        assert(ser_bools(seq![s[0]]) == ser_bool(s[0]));
        assert(s.drop_first() =~= seq![s[1]]);
        assert(ser_bools(s.drop_first()) == ser_bool(s[1]));
        assert(ser_bools(s) =~= ser_bool(s[0]) + seq![','] + ser_bools(s.drop_first()));
    } else {
        lemma_ser_bools_unfold_first(s.drop_last());
        assert(s.drop_last()[0] == s[0]);
        assert(s.drop_last().drop_first() =~= s.drop_first().drop_last());
        assert(s.drop_first().last() == s.last());
        assert(ser_bools(s) =~= ser_bool(s[0]) + seq![','] + ser_bools(s.drop_first()));
    }
}

proof fn lemma_rt_bools(cs: Seq<char>, pos: int, v: Seq<bool>)
    requires
        v.len() >= 1,
        0 <= pos,
        pos + ser_bools(v).len() <= cs.len(),
        cs.subrange(pos, pos + ser_bools(v).len()) == ser_bools(v),
    ensures
        p_bools(cs, pos, v.len() as int) == Some((v, pos + ser_bools(v).len())),
    decreases v.len(),
{
    if v.len() == 1 {
        assert(ser_bools(v) == ser_bool(v[0]));
        lemma_rt_bool(cs, pos, v[0]);
        assert(seq![v[0]] =~= v);
    } else {
        lemma_ser_bools_unfold_first(v);
        let a = ser_bool(v[0]);
        let rest = ser_bools(v.drop_first());
        assert(a + seq![','] + rest =~= a + (seq![','] + rest));
        lemma_sub_split(cs, pos, a, seq![','] + rest);
        lemma_rt_bool(cs, pos, v[0]);
        lemma_sub_split(cs, pos + a.len(), seq![','], rest);
        assert(p_lit(cs, pos + a.len(), seq![',']) == Some(pos + a.len() + 1));
        lemma_rt_bools(cs, pos + a.len() + 1, v.drop_first());
        assert(seq![v[0]] + v.drop_first() =~= v);
    }
}

proof fn lemma_rt_chord(cs: Seq<char>, pos: int, v: Seq<bool>)
    requires
        v.len() == KEY_COUNT,
        0 <= pos,
        pos + ser_chord(v).len() <= cs.len(),
        cs.subrange(pos, pos + ser_chord(v).len()) == ser_chord(v),
    ensures
        p_chord(cs, pos) == Some((v, pos + ser_chord(v).len())),
{
    let h = "{\"keys\":["@;
    let m = ser_bools(v);
    let t = "]}"@;
    reveal_strlit("{\"keys\":[");
    reveal_strlit("]}");
    assert(h + m + t =~= h + (m + t));
    lemma_sub_split(cs, pos, h, m + t);
    lemma_sub_split(cs, pos + h.len(), m, t);
    assert(p_lit(cs, pos, h) == Some(pos + h.len()));
    lemma_rt_bools(cs, pos + h.len(), v);
    assert(p_lit(cs, pos + h.len() + m.len(), t) == Some(pos + h.len() + m.len() + t.len()));
}

proof fn lemma_ser_chords_unfold_first(s: Seq<Seq<bool>>)
    requires
        s.len() >= 2,
    ensures
        ser_chords(s) == ser_chord(s[0]) + seq![','] + ser_chords(s.drop_first()),
    decreases s.len(),
{
    if s.len() == 2 {
        assert(s.drop_last() =~= seq![s[0]]);
        assert(s.drop_first() =~= seq![s[1]]);
        assert(ser_chords(s) =~= ser_chord(s[0]) + seq![','] + ser_chords(s.drop_first()));
    } else {
        lemma_ser_chords_unfold_first(s.drop_last());
        assert(s.drop_last()[0] == s[0]);
        assert(s.drop_last().drop_first() =~= s.drop_first().drop_last());
        assert(s.drop_first().last() == s.last());
        assert(s.drop_first().len() >= 2);
        assert(ser_chords(s) == ser_chords(s.drop_last()) + seq![','] + ser_chord(s.last()));
        assert(ser_chords(s.drop_first()) == ser_chords(s.drop_first().drop_last()) + seq![',']
            + ser_chord(s.drop_first().last()));
        assert(ser_chords(s.drop_last()) == ser_chord(s[0]) + seq![','] + ser_chords(
            s.drop_first().drop_last(),
        ));
        assert(ser_chords(s) =~= ser_chord(s[0]) + seq![','] + ser_chords(s.drop_first()));
    }
}

proof fn lemma_ser_trials_unfold_first(s: Seq<TrialView>)
    requires
        s.len() >= 2,
    ensures
        ser_trials(s) == ser_trial(s[0]) + seq![','] + ser_trials(s.drop_first()),
    decreases s.len(),
{
    if s.len() == 2 {
        assert(s.drop_last() =~= seq![s[0]]);
        assert(s.drop_first() =~= seq![s[1]]);
        assert(ser_trials(s) =~= ser_trial(s[0]) + seq![','] + ser_trials(s.drop_first()));
    } else {
        lemma_ser_trials_unfold_first(s.drop_last());
        assert(s.drop_last()[0] == s[0]);
        assert(s.drop_last().drop_first() =~= s.drop_first().drop_last());
        assert(s.drop_first().last() == s.last());
        assert(s.drop_first().len() >= 2);
        assert(ser_trials(s) == ser_trials(s.drop_last()) + seq![','] + ser_trial(s.last()));
        assert(ser_trials(s.drop_first()) == ser_trials(s.drop_first().drop_last()) + seq![',']
            + ser_trial(s.drop_first().last()));
        assert(ser_trials(s.drop_last()) == ser_trial(s[0]) + seq![','] + ser_trials(
            s.drop_first().drop_last(),
        ));
        assert(ser_trials(s) =~= ser_trial(s[0]) + seq![','] + ser_trials(s.drop_first()));
    }
}

proof fn lemma_rt_chord_list(cs: Seq<char>, pos: int, vs: Seq<Seq<bool>>)
    requires
        forall|k: int| 0 <= k < vs.len() ==> (#[trigger] vs[k]).len() == KEY_COUNT,
        0 <= pos,
        pos + ser_chords(vs).len() < cs.len(),
        cs.subrange(pos, pos + ser_chords(vs).len()) == ser_chords(vs),
        cs[pos + ser_chords(vs).len()] == ']',
    ensures
        p_chord_list(cs, pos) == Some((vs, pos + ser_chords(vs).len())),
    decreases vs.len(),
{
    reveal_strlit("{\"keys\":[");
    if vs.len() == 0 {
        assert(ser_chords(vs).len() == 0);
        assert(cs[pos] == ']');
        assert(Seq::<Seq<bool>>::empty() =~= vs);
    } else if vs.len() == 1 {
        assert(ser_chords(vs) == ser_chord(vs[0]));
        lemma_rt_chord(cs, pos, vs[0]);
        let e1 = pos + ser_chord(vs[0]).len() as int;
        assert(cs[pos] == ser_chord(vs[0])[0]) by {
            assert(cs.subrange(pos, pos + ser_chords(vs).len())[0] == cs[pos]);
        }
        assert(ser_chord(vs[0])[0] == '{');
        assert(cs[pos] != ']');
        assert(cs[e1] == ']');
        assert(seq![vs[0]] =~= vs);
    } else {
        lemma_ser_chords_unfold_first(vs);
        let a = ser_chord(vs[0]);
        let rest = ser_chords(vs.drop_first());
        assert(a + seq![','] + rest =~= a + (seq![','] + rest));
        lemma_sub_split(cs, pos, a, seq![','] + rest);
        lemma_sub_split(cs, pos + a.len(), seq![','], rest);
        lemma_rt_chord(cs, pos, vs[0]);
        let e1 = pos + a.len() as int;
        assert(cs[pos] == a[0]) by {
            assert(cs.subrange(pos, pos + a.len())[0] == cs[pos]);
        }
        assert(cs[pos] != ']');
        assert(cs[e1] == ',') by {
            assert(cs.subrange(e1, e1 + 1)[0] == cs[e1]);
        }
        lemma_rt_chord_list(cs, e1 + 1, vs.drop_first());
        assert(seq![vs[0]] + vs.drop_first() =~= vs);
    }
}

proof fn lemma_rt_input(cs: Seq<char>, pos: int, t: Option<Seq<Seq<bool>>>)
    requires
        match t {
            Some(vs) => forall|k: int| 0 <= k < vs.len() ==> (#[trigger] vs[k]).len() == KEY_COUNT,
            None => true,
        },
        0 <= pos,
        pos + ser_input(t).len() <= cs.len(),
        cs.subrange(pos, pos + ser_input(t).len()) == ser_input(t),
    ensures
        p_input(cs, pos) == Some((t, pos + ser_input(t).len())),
{
    reveal_strlit("{\"Ok\":[");
    reveal_strlit("{\"Err\":\"Impossible\"}");
    reveal_strlit("]}");
    let okh = "{\"Ok\":["@;
    match t {
        Some(vs) => {
            let m = ser_chords(vs);
            let tl = "]}"@;
            assert(okh + m + tl =~= okh + (m + tl));
            lemma_sub_split(cs, pos, okh, m + tl);
            lemma_sub_split(cs, pos + okh.len(), m, tl);
            assert(p_lit(cs, pos, okh) == Some(pos + okh.len()));
            let e1 = pos + okh.len() as int;
            assert(cs[e1 + m.len()] == ']') by {
                assert(cs.subrange(e1 + m.len(), e1 + m.len() + tl.len())[0] == cs[e1 + m.len()]);
            }
            lemma_rt_chord_list(cs, e1, vs);
            assert(p_lit(cs, e1 + m.len(), tl) == Some(e1 + m.len() + tl.len()));
        },
        None => {
            let lit = "{\"Err\":\"Impossible\"}"@;
            assert(p_lit(cs, pos, lit) == Some(pos + lit.len()));
            if p_lit(cs, pos, okh) is Some {
                assert(cs.subrange(pos, pos + okh.len())[2] == cs[pos + 2]);
                assert(cs.subrange(pos, pos + lit.len())[2] == cs[pos + 2]);
                assert(okh[2] == 'O' && lit[2] == 'E');
                assert(false);
            }
        },
    }
}

#[verifier::rlimit(80)]
proof fn lemma_rt_trial(cs: Seq<char>, pos: int, t: TrialView)
    requires
        view_wf(t),
        0 <= pos,
        pos + ser_trial(t).len() <= cs.len(),
        cs.subrange(pos, pos + ser_trial(t).len()) == ser_trial(t),
    ensures
        p_trial(cs, pos) == Some((t, pos + ser_trial(t).len())),
{
    reveal_strlit("{\"chord_pair\":[");
    reveal_strlit("],\"n_repetitions\":");
    reveal_strlit(",\"input\":");
    let h = "{\"chord_pair\":["@;
    let ca = ser_chord(t.first);
    let comma = seq![','];
    let cb = ser_chord(t.second);
    let mid = "],\"n_repetitions\":"@;
    let num = dec_rep(t.reps);
    let inl = ",\"input\":"@;
    let inp = ser_input(t.typed);
    let close = seq!['}'];
    let whole = ser_trial(t);
    assert(whole =~= h + (ca + (comma + (cb + (mid + (num + (inl + (inp + close))))))));
    lemma_sub_split(cs, pos, h, ca + (comma + (cb + (mid + (num + (inl + (inp + close)))))));
    let p1 = pos + h.len() as int;
    lemma_sub_split(cs, p1, ca, comma + (cb + (mid + (num + (inl + (inp + close))))));
    let p2 = p1 + ca.len() as int;
    lemma_sub_split(cs, p2, comma, cb + (mid + (num + (inl + (inp + close)))));
    let p3 = p2 + 1;
    lemma_sub_split(cs, p3, cb, mid + (num + (inl + (inp + close))));
    let p4 = p3 + cb.len() as int;
    lemma_sub_split(cs, p4, mid, num + (inl + (inp + close)));
    let p5 = p4 + mid.len() as int;
    lemma_sub_split(cs, p5, num, inl + (inp + close));
    let p6 = p5 + num.len() as int;
    lemma_sub_split(cs, p6, inl, inp + close);
    let p7 = p6 + inl.len() as int;
    lemma_sub_split(cs, p7, inp, close);
    let p8 = p7 + inp.len() as int;
    assert(p_lit(cs, pos, h) == Some(p1));
    lemma_rt_chord(cs, p1, t.first);
    assert(p_lit(cs, p2, comma) == Some(p3));
    lemma_rt_chord(cs, p3, t.second);
    assert(p_lit(cs, p4, mid) == Some(p5));
    assert(cs[p6] == inl[0]) by {
        assert(cs.subrange(p6, p6 + inl.len())[0] == cs[p6]);
    }
    assert(!is_digit(cs[p6]));
    lemma_rt_dec(cs, p5, t.reps);
    assert(p_lit(cs, p6, inl) == Some(p7));
    lemma_rt_input(cs, p7, t.typed);
    assert(p_lit(cs, p8, close) == Some(p8 + 1));
    assert(p8 + 1 == pos + whole.len());
}

#[verifier::rlimit(80)]
proof fn lemma_rt_trial_list(cs: Seq<char>, pos: int, ts: Seq<TrialView>)
    requires
        views_wf(ts),
        0 <= pos,
        pos + ser_trials(ts).len() < cs.len(),
        cs.subrange(pos, pos + ser_trials(ts).len()) == ser_trials(ts),
        cs[pos + ser_trials(ts).len()] == ']',
    ensures
        p_trial_list(cs, pos) == Some((ts, pos + ser_trials(ts).len())),
    decreases ts.len(),
{
    reveal_strlit("{\"chord_pair\":[");
    if ts.len() == 0 {
        assert(cs[pos] == ']');
        assert(Seq::<TrialView>::empty() =~= ts);
    } else if ts.len() == 1 {
        assert(ser_trials(ts) == ser_trial(ts[0]));
        assert(view_wf(ts[0]));
        lemma_rt_trial(cs, pos, ts[0]);
        let e1 = pos + ser_trial(ts[0]).len() as int;
        assert(cs[pos] == ser_trial(ts[0])[0]) by {
            assert(cs.subrange(pos, pos + ser_trials(ts).len())[0] == cs[pos]);
        }
        assert(ser_trial(ts[0])[0] == '{');
        assert(cs[pos] != ']');
        assert(cs[e1] == ']');
        assert(seq![ts[0]] =~= ts);
    } else {
        lemma_ser_trials_unfold_first(ts);
        let a = ser_trial(ts[0]);
        let rest = ser_trials(ts.drop_first());
        assert(a + seq![','] + rest =~= a + (seq![','] + rest));
        lemma_sub_split(cs, pos, a, seq![','] + rest);
        lemma_sub_split(cs, pos + a.len(), seq![','], rest);
        assert(view_wf(ts[0]));
        lemma_rt_trial(cs, pos, ts[0]);
        let e1 = pos + a.len() as int;
        assert(cs[pos] == a[0]) by {
            assert(cs.subrange(pos, pos + a.len())[0] == cs[pos]);
        }
        assert(cs[pos] != ']');
        assert(cs[e1] == ',') by {
            assert(cs.subrange(e1, e1 + 1)[0] == cs[e1]);
        }
        assert(views_wf(ts.drop_first())) by {
            assert forall|k: int| 0 <= k < ts.drop_first().len() implies view_wf(
                #[trigger] ts.drop_first()[k],
            ) by {
                assert(view_wf(ts[k + 1]));
            }
        }
        lemma_rt_trial_list(cs, e1 + 1, ts.drop_first());
        assert(seq![ts[0]] + ts.drop_first() =~= ts);
    }
}

/// Reading back a written result list yields exactly the written trials:
/// persistence round-trips for every well-formed result list.
pub proof fn lemma_json_round_trip(ts: Seq<TrialView>)
    requires
        views_wf(ts),
    ensures
        p_results(ser_results(ts)) == Some(ts),
{
    reveal_strlit("{\"data\":[");
    reveal_strlit("]}");
    let cs = ser_results(ts);
    let h = "{\"data\":["@;
    let m = ser_trials(ts);
    let tl = "]}"@;
    assert(cs =~= h + (m + tl));
    assert(cs.subrange(0, cs.len() as int) =~= cs);
    lemma_sub_split(cs, 0, h, m + tl);
    lemma_sub_split(cs, h.len() as int, m, tl);
    assert(p_lit(cs, 0, h) == Some(h.len() as int));
    let e1 = h.len() as int;
    assert(cs[e1 + m.len()] == ']') by {
        assert(cs.subrange(e1 + m.len(), e1 + m.len() + tl.len())[0] == cs[e1 + m.len()]);
    }
    lemma_rt_trial_list(cs, e1, ts);
    assert(p_lit(cs, e1 + m.len(), tl) == Some(cs.len() as int));
}

/// Any change to a well-formed result list is detectable: the stored text of
/// one list never reads back as a different list.
pub proof fn lemma_json_detects_change(t1: Seq<TrialView>, t2: Seq<TrialView>)
    requires
        views_wf(t1),
        t1 != t2,
    ensures
        p_results(ser_results(t1)) != Some(t2),
{
    lemma_json_round_trip(t1);
}

// ---- the executable reader ----
fn parse_lit(s: &str, pos: usize, lit: &str) -> (r: Option<usize>)
    ensures
        match r {
            Some(e) => p_lit(s@, pos as int, lit@) == Some(e as int) && pos <= e <= s@.len(),
            None => p_lit(s@, pos as int, lit@) is None,
        },
{
    let n = lit.unicode_len();
    let total = s.unicode_len();
    if pos > total || n > total - pos {
        return None;
    }
    let mut k: usize = 0;
    while k < n
        invariant
            n == lit@.len(),
            total == s@.len(),
            pos + n <= total,
            k <= n,
            forall|m: int| 0 <= m < k ==> s@[pos + m] == lit@[m],
        decreases n - k,
    {
        if s.get_char(pos + k) != lit.get_char(k) {
            proof {
                if p_lit(s@, pos as int, lit@) is Some {
                    assert(s@.subrange(pos as int, pos + lit@.len())[k as int] == s@[pos + k]);
                }
            }
            return None;
        }
        k = k + 1;
    }
    proof {
        assert(s@.subrange(pos as int, pos + lit@.len()) =~= lit@);
    }
    Some(pos + n)
}

fn parse_bool(s: &str, pos: usize) -> (r: Option<(bool, usize)>)
    ensures
        match r {
            Some((b, e)) => p_bool(s@, pos as int) == Some((b, e as int)) && pos <= e <= s@.len(),
            None => p_bool(s@, pos as int) is None,
        },
{
    match parse_lit(s, pos, "true") {
        Some(e) => Some((true, e)),
        None => match parse_lit(s, pos, "false") {
            Some(e) => Some((false, e)),
            None => None,
        },
    }
}

/// The folded value only grows as more digits are taken in.
proof fn lemma_scan_val_ge(cs: Seq<char>, pos: int, acc: int)
    requires
        0 <= acc,
    ensures
        scan_val(cs, pos, acc).0 >= acc,
    decreases cs.len() - pos,
{
    if 0 <= pos < cs.len() && is_digit(cs[pos]) {
        lemma_scan_val_ge(cs, pos + 1, acc * 10 + digit_val(cs[pos]));
    }
}

fn parse_dec(s: &str, pos: usize) -> (r: Option<(usize, usize)>)
    ensures
        match r {
            Some((n, e)) => p_dec(s@, pos as int) == Some((n as int, e as int)) && pos <= e
                <= s@.len(),
            None => match p_dec(s@, pos as int) {
                Some(p) => p.0 > usize::MAX,
                None => true,
            },
        },
{
    let total = s.unicode_len();
    if pos >= total {
        return None;
    }
    let c0 = s.get_char(pos);
    let d0 = c0 as u32;
    if !(48 <= d0 && d0 <= 57) {
        return None;
    }
    proof {
        assert(is_digit(s@[pos as int]));
    }
    let mut cur: usize = pos;
    let mut acc: usize = 0;
    loop
        invariant_except_break
            total == s@.len(),
            pos <= cur <= total,
            scan_val(s@, pos as int, 0) == scan_val(s@, cur as int, acc as int),
        ensures
            pos <= cur <= total,
            total == s@.len(),
            scan_val(s@, pos as int, 0) == (acc as int, cur as int),
        decreases total - cur,
    {
        if cur >= total {
            proof {
                assert(scan_val(s@, cur as int, acc as int) == (acc as int, cur as int));
            }
            break;
        }
        let c = s.get_char(cur);
        if !(48 <= c as u32 && c as u32 <= 57) {
            proof {
                assert(!is_digit(s@[cur as int]));
                assert(scan_val(s@, cur as int, acc as int) == (acc as int, cur as int));
            }
            break;
        }
        let d = (c as u32 - 48) as usize;
        if acc > (usize::MAX - d) / 10 {
            proof {
                assert(scan_val(s@, cur as int, acc as int) == scan_val(
                    s@,
                    cur + 1,
                    acc * 10 + digit_val(s@[cur as int]),
                ));
                lemma_scan_val_ge(s@, cur + 1, acc * 10 + digit_val(s@[cur as int]));
                assert(acc * 10 + d > usize::MAX);
            }
            return None;
        }
        acc = acc * 10 + d;
        cur = cur + 1;
    }
    Some((acc, cur))
}

fn parse_bools(s: &str, pos: usize, n: usize) -> (r: Option<(Vec<bool>, usize)>)
    ensures
        match r {
            Some((v, e)) => p_bools(s@, pos as int, n as int) == Some((v@, e as int)) && v@.len()
                == n && pos <= e <= s@.len(),
            None => p_bools(s@, pos as int, n as int) is None,
        },
    decreases n,
{
    if n == 0 {
        return None;
    }
    let (b, e1) = match parse_bool(s, pos) {
        Some(p) => p,
        None => {
            return None;
        },
    };
    if n == 1 {
        let v = vec![b];
        proof {
            assert(v@ =~= seq![b]);
        }
        Some((v, e1))
    } else {
        proof {
            reveal_strlit(",");
            assert(","@ =~= seq![',']);
        }
        let e2 = match parse_lit(s, e1, ",") {
            Some(e) => e,
            None => {
                return None;
            },
        };
        match parse_bools(s, e2, n - 1) {
            Some((rest, e3)) => {
                let mut v = vec![b];
                let mut rest = rest;
                let ghost rest0 = rest@;
                v.append(&mut rest);
                proof {
                    assert(v@ =~= seq![b] + rest0);
                }
                Some((v, e3))
            },
            None => None,
        }
    }
}

fn parse_chord(s: &str, pos: usize) -> (r: Option<(Chord, usize)>)
    ensures
        match r {
            Some((c, e)) => c.wf() && p_chord(s@, pos as int) == Some((c@, e as int)) && pos <= e
                <= s@.len(),
            None => p_chord(s@, pos as int) is None,
        },
{
    let e1 = match parse_lit(s, pos, "{\"keys\":[") {
        Some(e) => e,
        None => {
            return None;
        },
    };
    let (ks, e2) = match parse_bools(s, e1, KEY_COUNT) {
        Some(p) => p,
        None => {
            return None;
        },
    };
    let e3 = match parse_lit(s, e2, "]}") {
        Some(e) => e,
        None => {
            return None;
        },
    };
    let c = match Chord::from_keys(ks) {
        Some(c) => c,
        None => {
            proof {
                assert(false);
            }
            return None;
        },
    };
    Some((c, e3))
}

fn parse_chord_list(s: &str, pos: usize) -> (r: Option<(Vec<Chord>, usize)>)
    ensures
        match r {
            Some((v, e)) => p_chord_list(s@, pos as int) == Some((chords_view(v), e as int)) && (
            forall|k: int| 0 <= k < v@.len() ==> (#[trigger] v@[k]).wf()) && pos <= e <= s@.len(),
            None => p_chord_list(s@, pos as int) is None,
        },
    decreases s@.len() - pos,
{
    let total = s.unicode_len();
    if pos < total && s.get_char(pos) == ']' {
        let v: Vec<Chord> = Vec::new();
        proof {
            assert(chords_view(v) =~= Seq::<Seq<bool>>::empty());
        }
        return Some((v, pos));
    }
    let (c, e1) = match parse_chord(s, pos) {
        Some(p) => p,
        None => {
            return None;
        },
    };
    if !(pos < e1 && e1 <= total) {
        return None;
    }
    if e1 < total && s.get_char(e1) == ',' {
        match parse_chord_list(s, e1 + 1) {
            Some((rest, e2)) => {
                if rest.len() >= 1 {
                    let mut v = Vec::new();
                    v.push(c);
                    let mut rest = rest;
                    let ghost rvw = chords_view(rest);
                    v.append(&mut rest);
                    proof {
                        assert(chords_view(v) =~= seq![c@] + rvw);
                    }
                    Some((v, e2))
                } else {
                    None
                }
            },
            None => None,
        }
    } else {
        let mut v = Vec::new();
        v.push(c);
        proof {
            assert(chords_view(v) =~= seq![c@]);
        }
        Some((v, e1))
    }
}

fn parse_input(s: &str, pos: usize) -> (r: Option<(Result<Vec<Chord>, ErrCode>, usize)>)
    ensures
        match r {
            Some((inp, e)) => pos <= e <= s@.len() && match inp {
                Ok(v) => p_input(s@, pos as int) == Some((Some(chords_view(v)), e as int)) && (
                forall|k: int| 0 <= k < v@.len() ==> (#[trigger] v@[k]).wf()),
                Err(_) => p_input(s@, pos as int) == Some(
                    (None::<Seq<Seq<bool>>>, e as int),
                ),
            },
            None => p_input(s@, pos as int) is None,
        },
{
    match parse_lit(s, pos, "{\"Ok\":[") {
        Some(e1) => {
            let (v, e2) = match parse_chord_list(s, e1) {
                Some(p) => p,
                None => {
                    return None;
                },
            };
            let e3 = match parse_lit(s, e2, "]}") {
                Some(e) => e,
                None => {
                    return None;
                },
            };
            Some((Ok(v), e3))
        },
        None => {
            match parse_lit(s, pos, "{\"Err\":\"Impossible\"}") {
                Some(e1) => Some((Err(ErrCode::Impossible), e1)),
                None => None,
            }
        },
    }
}

fn parse_trial(s: &str, pos: usize) -> (r: Option<(TrialData, usize)>)
    ensures
        match r {
            Some((t, e)) => trial_wf(t) && p_trial(s@, pos as int) == Some(
                (trial_view(t), e as int),
            ) && pos <= e <= s@.len(),
            None => match p_trial(s@, pos as int) {
                Some(p) => !view_wf(p.0),
                None => true,
            },
        },
{
    let e1 = match parse_lit(s, pos, "{\"chord_pair\":[") {
        Some(e) => e,
        None => {
            return None;
        },
    };
    let (a, e2) = match parse_chord(s, e1) {
        Some(p) => p,
        None => {
            return None;
        },
    };
    proof {
        reveal_strlit(",");
        assert(","@ =~= seq![',']);
    }
    let e3 = match parse_lit(s, e2, ",") {
        Some(e) => e,
        None => {
            return None;
        },
    };
    let (b, e4) = match parse_chord(s, e3) {
        Some(p) => p,
        None => {
            return None;
        },
    };
    let e5 = match parse_lit(s, e4, "],\"n_repetitions\":") {
        Some(e) => e,
        None => {
            return None;
        },
    };
    let (reps, e6) = match parse_dec(s, e5) {
        Some(p) => p,
        None => {
            return None;
        },
    };
    let e7 = match parse_lit(s, e6, ",\"input\":") {
        Some(e) => e,
        None => {
            return None;
        },
    };
    let (inp, e8) = match parse_input(s, e7) {
        Some(p) => p,
        None => {
            return None;
        },
    };
    proof {
        reveal_strlit("}");
        assert("}"@ =~= seq!['}']);
    }
    let e9 = match parse_lit(s, e8, "}") {
        Some(e) => e,
        None => {
            return None;
        },
    };
    let t = TrialData { chord_pair: (a, b), n_repetitions: reps, input: inp };
    Some((t, e9))
}

fn parse_trial_list(s: &str, pos: usize) -> (r: Option<(Vec<TrialData>, usize)>)
    ensures
        match r {
            Some((v, e)) => pos <= e <= s@.len() && (forall|k: int|
                0 <= k < v@.len() ==> trial_wf(#[trigger] v@[k])) && p_trial_list(
                s@,
                pos as int,
            ) == Some((Seq::new(v@.len(), |k: int| trial_view(v@[k])), e as int)),
            None => match p_trial_list(s@, pos as int) {
                Some(p) => !views_wf(p.0),
                None => true,
            },
        },
    decreases s@.len() - pos,
{
    let total = s.unicode_len();
    if pos < total && s.get_char(pos) == ']' {
        let v: Vec<TrialData> = Vec::new();
        proof {
            assert(Seq::new(v@.len(), |k: int| trial_view(v@[k])) =~= Seq::<TrialView>::empty());
        }
        return Some((v, pos));
    }
    let (t, e1) = match parse_trial(s, pos) {
        Some(p) => p,
        None => {
            proof {
                match p_trial_list(s@, pos as int) {
                    Some(p) => {
                        match p_trial(s@, pos as int) {
                            Some(pt) => {
                                assert(p.0[0] == pt.0);
                                assert(!view_wf(p.0[0]));
                            },
                            None => {
                                assert(false);
                            },
                        }
                    },
                    None => {},
                }
            }
            return None;
        },
    };
    if !(pos < e1 && e1 <= total) {
        return None;
    }
    if e1 < total && s.get_char(e1) == ',' {
        match parse_trial_list(s, e1 + 1) {
            Some((rest, e2)) => {
                if rest.len() >= 1 {
                    let mut v = Vec::new();
                    v.push(t);
                    let mut rest = rest;
                    let ghost rvw = Seq::new(rest@.len(), |k: int| trial_view(rest@[k]));
                    v.append(&mut rest);
                    proof {
                        assert(Seq::new(v@.len(), |k: int| trial_view(v@[k])) =~= seq![
                            trial_view(t),
                        ] + rvw);
                    }
                    Some((v, e2))
                } else {
                    None
                }
            },
            None => {
                proof {
                    match p_trial_list(s@, pos as int) {
                        Some(p) => {
                            match p_trial_list(s@, e1 + 1) {
                                Some(pr) => {
                                    assert forall|k: int| 0 <= k < pr.0.len() implies view_wf(
                                        #[trigger] pr.0[k],
                                    ) || !views_wf(p.0) by {
                                        assert(p.0[k + 1] == pr.0[k]);
                                    }
                                },
                                None => {
                                    assert(false);
                                },
                            }
                        },
                        None => {},
                    }
                }
                None
            },
        }
    } else {
        let mut v = Vec::new();
        v.push(t);
        proof {
            assert(Seq::new(v@.len(), |k: int| trial_view(v@[k])) =~= seq![trial_view(t)]);
        }
        Some((v, e1))
    }
}

/// Read a persisted result list back from its JSON text. `None` when the
/// text is not exactly the persisted form of some result list this build can
/// represent.
pub fn results_from_json(s: &str) -> (r: Option<TrialResults>)
    ensures
        match r {
            Some(res) => results_wf(res) && p_results(s@) == Some(results_view(res)),
            None => match p_results(s@) {
                Some(ts) => !views_wf(ts),
                None => true,
            },
        },
{
    let e1 = match parse_lit(s, 0, "{\"data\":[") {
        Some(e) => e,
        None => {
            return None;
        },
    };
    let (data, e2) = match parse_trial_list(s, e1) {
        Some(p) => p,
        None => {
            return None;
        },
    };
    let e3 = match parse_lit(s, e2, "]}") {
        Some(e) => e,
        None => {
            return None;
        },
    };
    if e3 != s.unicode_len() {
        return None;
    }
    let res = TrialResults { data };
    proof {
        assert(results_view(res) =~= Seq::new(res.data@.len(), |k: int| trial_view(res.data@[k])));
    }
    Some(res)
}

/// Well-formed results have well-formed views.
pub proof fn lemma_results_view_wf(r: TrialResults)
    requires
        results_wf(r),
    ensures
        views_wf(results_view(r)),
{
    assert forall|k: int| 0 <= k < results_view(r).len() implies view_wf(
        #[trigger] results_view(r)[k],
    ) by {
        assert(trial_wf(r.data@[k]));
        assert(r.data@[k].chord_pair.0.wf());
        match r.data@[k].input {
            Ok(v) => {
                assert forall|m: int|
                    0 <= m < chords_view(v).len() implies (#[trigger] chords_view(v)[m]).len()
                    == KEY_COUNT by {
                    assert(v@[m].wf());
                }
            },
            Err(_) => {},
        }
    }
}

/// Result lists with the same view are structurally equal: together with
/// the round trip above, reading a saved list back yields an equal list.
pub proof fn lemma_view_eq_results_eq(a: TrialResults, b: TrialResults)
    requires
        results_view(a) == results_view(b),
    ensures
        crate::logic::results_eq(a, b),
{
    assert(results_view(a).len() == a.data@.len());
    assert(results_view(b).len() == b.data@.len());
    assert forall|k: int| 0 <= k < a.data@.len() implies crate::logic::trial_eq(
        #[trigger] a.data@[k],
        b.data@[k],
    ) by {
        assert(results_view(a)[k] == trial_view(a.data@[k]));
        assert(results_view(b)[k] == trial_view(b.data@[k]));
        assert(results_view(a)[k] == results_view(b)[k]);
        let ta = trial_view(a.data@[k]);
        let tb = trial_view(b.data@[k]);
        assert(ta.first == tb.first && ta.second == tb.second && ta.reps == tb.reps && ta.typed
            == tb.typed);
        match (a.data@[k].input, b.data@[k].input) {
            (Ok(x), Ok(y)) => {
                assert(ta.typed == Some(chords_view(x)) && tb.typed == Some(chords_view(y)));
            },
            (Err(_), Err(_)) => {},
            (Ok(x), Err(_)) => {
                assert(ta.typed is Some && tb.typed is None);
            },
            (Err(_), Ok(y)) => {
                assert(ta.typed is None && tb.typed is Some);
            },
        }
    }
}

/// The persistence law in one piece: the saved text of any well-formed
/// result list parses back to exactly that list's view.
pub proof fn lemma_save_load_identity(r: TrialResults)
    requires
        results_wf(r),
    ensures
        p_results(ser_results(results_view(r))) == Some(results_view(r)),
{
    lemma_results_view_wf(r);
    lemma_json_round_trip(results_view(r));
}

} // verus!