//! The pairing window: a six-digit code drawn from a CSPRNG, valid for ten
//! minutes, with three tries for the whole window. A successful pairing uses
//! the window up; the phone is then authorised by its TLS-verified endpoint
//! id and the code is void.
use vstd::prelude::*;

use rand::Rng;

use crate::text::{all_digits, chars_of, decimal, eq_range, push_zero_padded, string_of, zero_padded};
use crate::wire::{PAIR_BAD_CODE, PAIR_EXPIRED, PAIR_NO_WINDOW, PAIR_TOO_MANY_ATTEMPTS};

verus! {

broadcast use vstd::string::group_string_axioms;

/// How long a pairing window stays open, in milliseconds.
pub const PAIRING_TTL_MS: u64 = 600_000;

/// How long a pairing window stays open, in seconds (as reported to the
/// plugin).
pub const PAIRING_TTL_SECS: u64 = 600;

/// Tries allowed for one window: with a code space of one million, a window
/// admits three guesses.
pub const PAIRING_MAX_ATTEMPTS: u32 = 3;

/// The number of distinct pairing codes.
pub const PAIRING_CODE_SPACE: u32 = 1_000_000;

/// An open pairing window. Times are milliseconds on the host's monotonic
/// clock.
pub struct PairingWindow {
    pub code: String,
    pub deadline: u64,
    pub attempts: u32,
}

/// Why a pairing request is refused.
#[derive(Clone, Copy, Debug, PartialEq, Eq, Structural)]
pub enum PairRefusal {
    NoWindow,
    Expired,
    TooManyAttempts,
    BadCode,
}

impl PairRefusal {
    pub open spec fn spec_code(self) -> Seq<char> {
        match self {
            PairRefusal::NoWindow => PAIR_NO_WINDOW@,
            PairRefusal::Expired => PAIR_EXPIRED@,
            PairRefusal::TooManyAttempts => PAIR_TOO_MANY_ATTEMPTS@,
            PairRefusal::BadCode => PAIR_BAD_CODE@,
        }
    }

    /// The reason code that travels to the phone.
    pub fn code(self) -> (r: &'static str)
        ensures
            r@ == self.spec_code(),
    {
        match self {
            PairRefusal::NoWindow => PAIR_NO_WINDOW,
            PairRefusal::Expired => PAIR_EXPIRED,
            PairRefusal::TooManyAttempts => PAIR_TOO_MANY_ATTEMPTS,
            PairRefusal::BadCode => PAIR_BAD_CODE,
        }
    }
}

/// The outcome of one pairing request.
#[derive(Clone, Copy, Debug, PartialEq, Eq, Structural)]
pub enum PairOutcome {
    /// The code matched: the device is to be recorded and the window is gone.
    Paired,
    /// The request is refused for the reason code; `window_closed` tells that
    /// this refusal used up the last try and closed the window.
    Refused { reason: PairRefusal, window_closed: bool },
}

/// The six characters of a pairing code.
pub open spec fn is_pairing_code(code: Seq<char>) -> bool {
    code.len() == 6 && all_digits(code)
}

/// One pairing request with `code` at time `now` against the window state:
/// no window, an expired window, or a window whose tries are spent refuses
/// without a try; otherwise the try is counted, and a matching code pairs and
/// closes the window. A window is closed as soon as its tries are spent.
pub open spec fn attempt_spec(p: Option<PairingWindow>, code: Seq<char>, now: u64) -> (
    Option<PairingWindow>,
    PairOutcome,
) {
    match p {
        None => (None, PairOutcome::Refused { reason: PairRefusal::NoWindow, window_closed: false }),
        Some(w) => if now > w.deadline {
            if w.attempts >= PAIRING_MAX_ATTEMPTS {
                (None, PairOutcome::Refused { reason: PairRefusal::Expired, window_closed: true })
            } else {
                (Some(w), PairOutcome::Refused { reason: PairRefusal::Expired, window_closed: false })
            }
        } else if w.attempts >= PAIRING_MAX_ATTEMPTS {
            (None, PairOutcome::Refused { reason: PairRefusal::TooManyAttempts, window_closed: true })
        } else if w.code@ == code {
            (None, PairOutcome::Paired)
        } else if w.attempts + 1 >= PAIRING_MAX_ATTEMPTS {
            (None, PairOutcome::Refused { reason: PairRefusal::BadCode, window_closed: true })
        } else {
            (
                Some(
                    PairingWindow {
                        code: w.code,
                        deadline: w.deadline,
                        attempts: (w.attempts + 1) as u32,
                    },
                ),
                PairOutcome::Refused { reason: PairRefusal::BadCode, window_closed: false },
            )
        },
    }
}

/// Whether the request was compared with the window's code (a try).
pub open spec fn attempt_is_try(p: Option<PairingWindow>, now: u64) -> bool {
    p is Some && now <= p->0.deadline && p->0.attempts < PAIRING_MAX_ATTEMPTS
}

/// Calls `rand::rng().random_range(0..bound)` of the rand crate: a number
/// from the thread-local CSPRNG, uniform over `0..bound`. Nothing is claimed
/// of which number comes out, only that it is below `bound`; rand panics on
/// an empty range, hence `bound > 0`.
#[verifier::external_body]
fn random_below(bound: u32) -> (n: u32)
    requires
        bound > 0,
    ensures
        n < bound,
{
    rand::rng().random_range(0..bound)
}

/// A pairing code: `n` in six digits with leading zeros.
pub fn format_pairing_code(n: u32) -> (code: String)
    requires
        n < PAIRING_CODE_SPACE,
    ensures
        code@ == zero_padded(n as nat, 6),
        is_pairing_code(code@),
{
    let mut v: Vec<char> = Vec::new();
    push_zero_padded(&mut v, n as u64, 6);
    proof {
        crate::text::lemma_decimal_len_small(n as nat);
        crate::text::lemma_decimal_digits(n as nat);
        let d = decimal(n as nat);
        let z = zero_padded(n as nat, 6);
        assert(v@ =~= z);
        let pad = Seq::new((6 - d.len()) as nat, |_i: int| '0');
        assert(z =~= pad + d);
        assert forall|i: int| 0 <= i < z.len() implies crate::text::is_ascii_digit(#[trigger] z[i]) by {
            if i >= pad.len() {
                assert(z[i] == d[i - pad.len()]);
            }
        }
    }
    string_of(&v)
}

/// Opens a new pairing window at time `now`. The code is drawn uniformly
/// from the whole code space, `000000` to `999999`, by the CSPRNG; which code
/// comes out is chance, so the contract states its shape (six digits) and
/// not its value. `requires`: the deadline must fit the clock's range.
pub fn new_pairing_window(now: u64) -> (w: PairingWindow)
    requires
        now <= u64::MAX - PAIRING_TTL_MS,
    ensures
        is_pairing_code(w.code@),
        w.deadline == now + PAIRING_TTL_MS,
        w.attempts == 0,
{
    // The whole code space, so that three guesses per window stay three in a
    // million.
    let n = random_below(PAIRING_CODE_SPACE);
    PairingWindow { code: format_pairing_code(n), deadline: now + PAIRING_TTL_MS, attempts: 0 }
}

/// Handles one pairing request with `code` at time `now`. The returned
/// reason code is what travels to the phone.
pub fn pair_attempt(pairing: &mut Option<PairingWindow>, code: &str, now: u64) -> (r: PairOutcome)
    ensures
        (*final(pairing), r) == attempt_spec(*old(pairing), code@, now),
{
    let c = chars_of(code);
    let mut closed = false;
    let outcome;
    match pairing {
        None => {
            return PairOutcome::Refused { reason: PairRefusal::NoWindow, window_closed: false };
        },
        Some(w) => {
            if now > w.deadline {
                outcome = PairOutcome::Refused { reason: PairRefusal::Expired, window_closed: false };
            } else if w.attempts >= PAIRING_MAX_ATTEMPTS {
                outcome = PairOutcome::Refused { reason: PairRefusal::TooManyAttempts, window_closed: false };
            } else {
                w.attempts = w.attempts + 1;
                let wc = chars_of(w.code.as_str());
                if eq_range(&wc, 0, wc.len(), &c) {
                    assert(wc@.subrange(0, wc.len() as int) =~= wc@);
                    *pairing = None;
                    return PairOutcome::Paired;
                }
                assert(wc@.subrange(0, wc.len() as int) =~= wc@);
                outcome = PairOutcome::Refused { reason: PairRefusal::BadCode, window_closed: false };
            }
            if w.attempts >= PAIRING_MAX_ATTEMPTS {
                closed = true;
            }
        },
    }
    if closed {
        *pairing = None;
    }
    match outcome {
        PairOutcome::Refused { reason, .. } => PairOutcome::Refused { reason, window_closed: closed },
        PairOutcome::Paired => PairOutcome::Paired,
    }
}

// ---------------------------------------------------------------------------
// Laws
// ---------------------------------------------------------------------------

/// Running a sequence of pairing requests (code, time) against the window
/// state: the number of tries made and the number of pairings granted.
pub open spec fn run_attempts(p: Option<PairingWindow>, reqs: Seq<(Seq<char>, u64)>) -> (nat, nat)
    decreases reqs.len(),
{
    if reqs.len() == 0 {
        (0, 0)
    } else {
        let (next, out) = attempt_spec(p, reqs[0].0, reqs[0].1);
        let (tries, paired) = run_attempts(next, reqs.drop_first());
        (
            tries + if attempt_is_try(p, reqs[0].1) {
                1nat
            } else {
                0nat
            },
            paired + if out == PairOutcome::Paired {
                1nat
            } else {
                0nat
            },
        )
    }
}

/// The tries that a window state still allows.
pub open spec fn tries_left(p: Option<PairingWindow>) -> nat {
    match p {
        None => 0,
        Some(w) => if w.attempts >= PAIRING_MAX_ATTEMPTS {
            0
        } else {
            (PAIRING_MAX_ATTEMPTS - w.attempts) as nat
        },
    }
}

/// Law of the pairing window: whatever requests arrive, in whatever order
/// and at whatever times, one window admits at most three tries of its code
/// (fewer when tries were made already) and grants at most one pairing.
pub proof fn law_window_bounds_tries(p: Option<PairingWindow>, reqs: Seq<(Seq<char>, u64)>)
    ensures
        run_attempts(p, reqs).0 <= tries_left(p),
        run_attempts(p, reqs).1 <= 1,
        p is None ==> run_attempts(p, reqs) == (0nat, 0nat),
    decreases reqs.len(),
{
    if reqs.len() > 0 {
        let (next, out) = attempt_spec(p, reqs[0].0, reqs[0].1);
        law_window_bounds_tries(next, reqs.drop_first());
        if out == PairOutcome::Paired {
            assert(next is None);
        }
    }
}

/// Law: a fresh window grants at most three tries in all.
pub proof fn law_fresh_window_three_tries(w: PairingWindow, reqs: Seq<(Seq<char>, u64)>)
    requires
        w.attempts == 0,
    ensures
        run_attempts(Some(w), reqs).0 <= PAIRING_MAX_ATTEMPTS,
        run_attempts(Some(w), reqs).1 <= 1,
{
    law_window_bounds_tries(Some(w), reqs);
}

/// Law: a request after the deadline never pairs, and a pairing uses the
/// window up, so the same code cannot pair a second device.
pub proof fn law_expired_refused_and_success_consumes(
    p: Option<PairingWindow>,
    code: Seq<char>,
    now: u64,
)
    ensures
        p is Some && now > p->0.deadline ==> attempt_spec(p, code, now).1 != PairOutcome::Paired,
        attempt_spec(p, code, now).1 == PairOutcome::Paired ==> attempt_spec(p, code, now).0 is None
            && attempt_spec(attempt_spec(p, code, now).0, code, now).1 == (PairOutcome::Refused {
            reason: PairRefusal::NoWindow,
            window_closed: false,
        }),
{
}

/// Law of the code check: while a window is open and has a try left, the
/// right code pairs, whatever try it is (the third included), and uses the
/// window up; a wrong code is refused as `bad-code`. And `bad-code` is never
/// the answer to the right code.
pub proof fn law_right_code_pairs(w: PairingWindow, code: Seq<char>, now: u64)
    requires
        now <= w.deadline,
        w.attempts < PAIRING_MAX_ATTEMPTS,
    ensures
        w.code@ == code ==> attempt_spec(Some(w), code, now) == (
            None::<PairingWindow>,
            PairOutcome::Paired,
        ),
        w.code@ != code ==> attempt_spec(Some(w), code, now).1 matches PairOutcome::Refused {
            reason: PairRefusal::BadCode,
            ..
        },
{
}

/// Law: a refusal for a bad code comes only from a window whose code differs
/// from the one sent.
pub proof fn law_bad_code_means_wrong_code(p: Option<PairingWindow>, code: Seq<char>, now: u64)
    ensures
        attempt_spec(p, code, now).1 matches PairOutcome::Refused {
            reason: PairRefusal::BadCode,
            ..
        } ==> p is Some && p->0.code@ != code,
{
}

} // verus!
