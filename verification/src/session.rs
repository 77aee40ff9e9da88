use crate::keyboard_config::Chord;
use crate::logic::{
    alignment_quality, best_of, cells, results_wf, ErrCode, TrialData, TrialResults,
};
use crate::twiddler::{
    all_mappable, chars_idxs, chords_view, spec_word_chars, tokenize, DecodeError,
    TwiddlerChordTrialUtils,
};
use vstd::prelude::*;
use vstd::std_specs::cmp::PartialEqSpec;

verus! {

/// How many times the prompted pair is to be typed in one trial.
pub const N_REPETITIONS_PER_TRIAL: usize = 5;

/// Where the data-collection loop stands between two lines of input.
#[derive(Clone, Copy, PartialEq, Eq, Structural, Debug)]
pub enum SessionMode {
    /// Waiting for one of the session commands.
    AwaitCommand,
    /// The user typed the go command; the next line is the timed trial.
    Timing,
    /// A trial was decoded; waiting for the user to accept or retry.
    Accept,
}

/// What the caller should report to the user after a step.
pub enum StepOutcome {
    /// Nothing to report beyond the next prompt.
    Quiet,
    /// The decoded trial's alignment against the expected sequence.
    Stats { correct: u8, incorrect: u8 },
    /// The trial line could not be decoded; the pair stays up for retry.
    DecodeFailed(DecodeError),
}

/// The chords the user is expected to type: the prompted pair, alternating,
/// each repetition contributing one press of each chord.
pub open spec fn spec_expected(a: Seq<bool>, b: Seq<bool>, n: int) -> Seq<Seq<bool>> {
    Seq::new((2 * n) as nat, |k: int| if k % 2 == 0 { a } else { b })
}

/// The chord values the user is expected to type, alternating the pair.
pub open spec fn spec_expected_chords(a: Chord, b: Chord, n: int) -> Seq<Chord> {
    Seq::new((2 * n) as nat, |k: int| if k % 2 == 0 { a } else { b })
}

/// What a trial line decodes to, if it decodes: the key bitsets of the
/// chords bound to the code words read from the typed characters.
pub open spec fn spec_decoded(u: TwiddlerChordTrialUtils, cs: Seq<char>) -> Option<Seq<Seq<bool>>> {
    if all_mappable(cs) {
        match tokenize(u.code_tree, chars_idxs(cs)) {
            Some(ws) => {
                if forall|k: int|
                    0 <= k < ws.len() ==> u.spec_vocab_has_string(spec_word_chars(#[trigger] ws[k])) {
                    Some(
                        Seq::new(
                            ws.len(),
                            |k: int| u.spec_chord_of_string(spec_word_chars(ws[k])),
                        ),
                    )
                } else {
                    None
                }
            },
            None => None,
        }
    } else {
        None
    }
}

/// The state the data-collection loop owns between lines of input.
pub struct Session {
    pub utils: TwiddlerChordTrialUtils,
    pub results: TrialResults,
    pub pair: (Chord, Chord),
    pub pending: Option<Vec<Chord>>,
    pub mode: SessionMode,
    pub finished: bool,
}

impl Session {
    /// The session's standing invariant.
    pub open spec fn wf(self) -> bool {
        &&& self.utils.wf()
        &&& self.utils.vocab@.len() >= 1
        &&& self.pair.0.wf()
        &&& self.pair.1.wf()
        &&& results_wf(self.results)
        &&& match self.pending {
            Some(v) => forall|k: int| 0 <= k < v@.len() ==> (#[trigger] v@[k]).wf(),
            None => true,
        }
        &&& (self.mode is Accept ==> self.pending is Some)
    }

    /// Start a session over a vocabulary, prompting the given first pair.
    pub fn new(utils: TwiddlerChordTrialUtils, first_i: usize, first_j: usize) -> (s: Session)
        requires
            utils.wf(),
            utils.vocab@.len() >= 1,
            first_i < utils.vocab@.len(),
            first_j < utils.vocab@.len(),
        ensures
            s.wf(),
            s.utils == utils,
            s.results.data@.len() == 0,
            !s.finished,
            s.mode is AwaitCommand,
            s.pair.0@ == utils.vocab@[first_i as int].0@,
            s.pair.1@ == utils.vocab@[first_j as int].0@,
    {
        let a = utils.vocab[first_i].0.duplicate();
        let b = utils.vocab[first_j].0.duplicate();
        Session {
            utils,
            results: TrialResults::new(),
            pair: (a, b),
            pending: None,
            mode: SessionMode::AwaitCommand,
            finished: false,
        }
    }

    /// Whether the line holds exactly the given command word.
    fn line_is(line: &String, word: &str) -> (b: bool)
        ensures
            b == (line@ == word@),
    {
        let w = word.to_owned();
        line.eq(&w)
    }

    /// The expected chord sequence for the current pair.
    fn expected_chords(&self) -> (v: Vec<Chord>)
        requires
            self.wf(),
        ensures
            chords_view(v) == spec_expected(
                self.pair.0@,
                self.pair.1@,
                N_REPETITIONS_PER_TRIAL as int,
            ),
            forall|k: int| 0 <= k < v@.len() ==> (#[trigger] v@[k]).wf(),
    {
        let mut v: Vec<Chord> = Vec::new();
        let mut k: usize = 0;
        while k < 2 * N_REPETITIONS_PER_TRIAL
            invariant
                self.wf(),
                k <= 2 * N_REPETITIONS_PER_TRIAL,
                v@.len() == k,
                forall|m: int|
                    0 <= m < k ==> chords_view(v)[m] == (if m % 2 == 0 {
                        self.pair.0@
                    } else {
                        self.pair.1@
                    }),
                forall|m: int| 0 <= m < k ==> (#[trigger] v@[m]).wf(),
            decreases 2 * N_REPETITIONS_PER_TRIAL - k,
        {
            let ghost pre = chords_view(v);
            if k % 2 == 0 {
                v.push(self.pair.0.duplicate());
            } else {
                v.push(self.pair.1.duplicate());
            }
            proof {
                assert(chords_view(v) =~= pre.push(v@[k as int]@));
            }
            k = k + 1;
        }
        proof {
            assert(chords_view(v) =~= spec_expected(
                self.pair.0@,
                self.pair.1@,
                N_REPETITIONS_PER_TRIAL as int,
            ));
        }
        v
    }

    /// Drive the session by one line of input. `next_i` and `next_j` choose
    /// the next prompted pair for the transitions that move on to a new one.
    pub fn step(&mut self, line: &String, next_i: usize, next_j: usize) -> (out: StepOutcome)
        requires
            old(self).wf(),
            !old(self).finished,
            next_i < old(self).utils.vocab@.len(),
            next_j < old(self).utils.vocab@.len(),
        ensures
            final(self).wf(),
            final(self).utils == old(self).utils,
            match old(self).mode {
                SessionMode::AwaitCommand => {
                    &&& (line@ == "GO"@ ==> final(self).mode is Timing && final(self).results
                        == old(self).results && final(self).pair == old(self).pair && !final(self).finished)
                    &&& (line@ == "IMP"@ ==> {
                        &&& final(self).mode is AwaitCommand
                        &&& final(self).results.data@.len() == old(self).results.data@.len() + 1
                        &&& final(self).results.data@.take(old(self).results.data@.len() as int)
                            == old(self).results.data@
                        &&& final(self).results.data@.last().chord_pair.0@ == old(self).pair.0@
                        &&& final(self).results.data@.last().chord_pair.1@ == old(self).pair.1@
                        &&& final(self).results.data@.last().n_repetitions
                            == N_REPETITIONS_PER_TRIAL
                        &&& (final(self).results.data@.last().input matches Err(e) && e
                            is Impossible)
                        &&& final(self).pair.0@ == old(self).utils.vocab@[next_i as int].0@
                        &&& final(self).pair.1@ == old(self).utils.vocab@[next_j as int].0@
                        &&& !final(self).finished
                    })
                    &&& (line@ == "SKIP"@ ==> final(self).mode is AwaitCommand && final(self).results == old(self).results && final(self).pair.0@ == old(self).utils.vocab@[next_i as int].0@ && final(self).pair.1@ == old(self).utils.vocab@[next_j as int].0@ && !final(self).finished)
                    &&& (line@ == "QUIT"@ ==> final(self).finished && final(self).results == old(self).results)
                    &&& (line@ != "GO"@ && line@ != "IMP"@ && line@ != "SKIP"@ && line@ != "QUIT"@
                        ==> *final(self) == *old(self))
                },
                SessionMode::Timing => {
                    &&& final(self).results == old(self).results
                    &&& final(self).pair == old(self).pair
                    &&& !final(self).finished
                    &&& match spec_decoded(old(self).utils, line@) {
                        Some(cviews) => {
                            &&& final(self).mode is Accept
                            &&& (final(self).pending matches Some(v) && chords_view(v) == cviews)
                            &&& (cviews.len() <= 245 ==> out is Stats)
                            &&& match out {
                                StepOutcome::Stats { correct, incorrect } => {
                                    let b = best_of(
                                        cells(
                                            spec_expected_chords(
                                                old(self).pair.0,
                                                old(self).pair.1,
                                                N_REPETITIONS_PER_TRIAL as int,
                                            ),
                                            final(self).pending->0@,
                                            true,
                                            2 * N_REPETITIONS_PER_TRIAL as int,
                                            final(self).pending->0@.len() as int,
                                        ),
                                    );
                                    correct == b.0 && incorrect == b.1
                                },
                                _ => true,
                            }
                        },
                        None => final(self).mode is AwaitCommand && out is DecodeFailed,
                    }
                },
                SessionMode::Accept => {
                    &&& (line@ == "Y"@ ==> {
                        &&& final(self).mode is AwaitCommand
                        &&& final(self).results.data@.len() == old(self).results.data@.len() + 1
                        &&& final(self).results.data@.take(old(self).results.data@.len() as int)
                            == old(self).results.data@
                        &&& final(self).results.data@.last().chord_pair.0@ == old(self).pair.0@
                        &&& final(self).results.data@.last().chord_pair.1@ == old(self).pair.1@
                        &&& final(self).results.data@.last().n_repetitions
                            == N_REPETITIONS_PER_TRIAL
                        &&& (final(self).results.data@.last().input matches Ok(v) && chords_view(
                            v,
                        ) == chords_view(old(self).pending->0))
                        &&& final(self).pair.0@ == old(self).utils.vocab@[next_i as int].0@
                        &&& final(self).pair.1@ == old(self).utils.vocab@[next_j as int].0@
                        &&& !final(self).finished
                    })
                    &&& (line@ == "N"@ ==> final(self).mode is AwaitCommand && final(self).results
                        == old(self).results && final(self).pair == old(self).pair && !final(self).finished)
                    &&& (line@ != "Y"@ && line@ != "N"@ ==> *final(self) == *old(self))
                },
            },
    {
        proof {
            reveal_strlit("GO");
            reveal_strlit("IMP");
            reveal_strlit("SKIP");
            reveal_strlit("QUIT");
            reveal_strlit("Y");
            reveal_strlit("N");
        }
        match self.mode {
            SessionMode::AwaitCommand => {
                if Self::line_is(line, "GO") {
                    self.mode = SessionMode::Timing;
                    StepOutcome::Quiet
                } else if Self::line_is(line, "IMP") {
                    let trial = TrialData {
                        chord_pair: (self.pair.0.duplicate(), self.pair.1.duplicate()),
                        n_repetitions: N_REPETITIONS_PER_TRIAL,
                        input: Err(ErrCode::Impossible),
                    };
                    let ghost pre = self.results.data@;
                    self.results.push(trial);
                    let a = self.utils.vocab[next_i].0.duplicate();
                    let b = self.utils.vocab[next_j].0.duplicate();
                    self.pair = (a, b);
                    proof {
                        assert(self.results.data@.take(pre.len() as int) =~= pre);
                    }
                    StepOutcome::Quiet
                } else if Self::line_is(line, "SKIP") {
                    let a = self.utils.vocab[next_i].0.duplicate();
                    let b = self.utils.vocab[next_j].0.duplicate();
                    self.pair = (a, b);
                    StepOutcome::Quiet
                } else if Self::line_is(line, "QUIT") {
                    self.finished = true;
                    StepOutcome::Quiet
                } else {
                    StepOutcome::Quiet
                }
            },
            SessionMode::Timing => {
                match self.utils.parse_trial_string(line.as_str()) {
                    Ok(parsed) => {
                        let expected = self.expected_chords();
                        proof {
                            assert(chords_view(expected).len() == spec_expected(
                                self.pair.0@,
                                self.pair.1@,
                                N_REPETITIONS_PER_TRIAL as int,
                            ).len());
                            assert(expected@.len() == 2 * N_REPETITIONS_PER_TRIAL);
                        }
                        let out = if parsed.len() <= 245 {
                            let (correct, incorrect) = alignment_quality(&expected, &parsed);
                            proof {
                                let ec = spec_expected_chords(
                                    self.pair.0,
                                    self.pair.1,
                                    N_REPETITIONS_PER_TRIAL as int,
                                );
                                assert forall|a: int, b: int|
                                    0 <= a < expected@.len() && 0 <= b < parsed@.len()
                                    implies #[trigger] expected@[a].eq_spec(&parsed@[b])
                                    == ec[a].eq_spec(&parsed@[b]) by {
                                    assert(chords_view(expected)[a] == expected@[a]@);
                                    assert(ec[a]@ == expected@[a]@);
                                }
                                crate::logic::lemma_cells_congruent(
                                    expected@,
                                    parsed@,
                                    ec,
                                    parsed@,
                                    true,
                                    2 * N_REPETITIONS_PER_TRIAL as int,
                                    parsed@.len() as int,
                                );
                            }
                            StepOutcome::Stats { correct, incorrect }
                        } else {
                            StepOutcome::Quiet
                        };
                        proof {
                            let cviews = spec_decoded(self.utils, line@)->0;
                            assert(chords_view(parsed) =~= cviews);
                        }
                        self.pending = Some(parsed);
                        self.mode = SessionMode::Accept;
                        out
                    },
                    Err(e) => {
                        self.mode = SessionMode::AwaitCommand;
                        proof {
                            assert(spec_decoded(self.utils, line@) is None);
                        }
                        StepOutcome::DecodeFailed(e)
                    },
                }
            },
            SessionMode::Accept => {
                if Self::line_is(line, "Y") {
                    let parsed = match self.pending.take() {
                        Some(v) => v,
                        None => {
                            proof {
                                assert(false);
                            }
                            Vec::new()
                        },
                    };
                    let trial = TrialData {
                        chord_pair: (self.pair.0.duplicate(), self.pair.1.duplicate()),
                        n_repetitions: N_REPETITIONS_PER_TRIAL,
                        input: Ok(parsed),
                    };
                    let ghost pre = self.results.data@;
                    self.results.push(trial);
                    let a = self.utils.vocab[next_i].0.duplicate();
                    let b = self.utils.vocab[next_j].0.duplicate();
                    self.pair = (a, b);
                    self.mode = SessionMode::AwaitCommand;
                    proof {
                        assert(self.results.data@.take(pre.len() as int) =~= pre);
                    }
                    StepOutcome::Quiet
                } else if Self::line_is(line, "N") {
                    self.mode = SessionMode::AwaitCommand;
                    self.pending = None;
                    StepOutcome::Quiet
                } else {
                    StepOutcome::Quiet
                }
            },
        }
    }
}

} // verus!
