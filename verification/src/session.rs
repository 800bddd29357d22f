//! The decisions of one phone connection: what its first line earns it, when
//! the path it runs over is reported, and the one-time announcement that the
//! proxy is in use. The host performs each action and reports back what
//! happened; nothing here waits or does I/O.
use vstd::prelude::*;

use crate::devices::{paired_at_spec, paired_at_stamp, PairedDevice, PairedStore};
use crate::pairing::{attempt_spec, pair_attempt, PairOutcome, PairRefusal, PairingWindow};
use crate::wire::{admit_first_line, first_line_of, FirstLine, Wire};

verus! {

broadcast use vstd::string::group_string_axioms;

/// What the host does with a connection once its first line is read.
pub enum FirstAction {
    /// A paired phone said hello: register the connection under `name`.
    Admit { name: String },
    /// The code matched: the phone is now on the paired list; answer
    /// `pair-ok`, tell the plugin, and register the connection under `name`.
    PairAndAdmit { name: String },
    /// The pairing is refused: answer `pair-fail` with the reason code and
    /// close. `window_closed`: this refusal closed the pairing window, which
    /// the plugin is told.
    RefusePairing { reason: PairRefusal, window_closed: bool },
    /// The first line breaks the protocol: close the connection.
    Close,
}

/// The effect of the first line `first` of a connection from `remote`, at
/// `now_ms` on the monotonic clock and `now_secs` since the Unix epoch:
/// `(devices, pairing)` before and `(devices2, pairing2)` after, and the
/// action `r`.
pub open spec fn first_line_effect(
    devices: Seq<PairedDevice>,
    pairing: Option<PairingWindow>,
    paired: bool,
    remote: Seq<char>,
    first: Wire,
    now_ms: u64,
    now_secs: u64,
    devices2: Seq<PairedDevice>,
    pairing2: Option<PairingWindow>,
    r: FirstAction,
) -> bool {
    match first_line_of(paired, first) {
        FirstLine::Hello { name } => {
            &&& r == FirstAction::Admit { name }
            &&& devices2 == devices
            &&& pairing2 == pairing
        },
        FirstLine::PairRequest { code, name } => {
            let (p, outcome) = attempt_spec(pairing, code@, now_ms);
            &&& pairing2 == p
            &&& match outcome {
                PairOutcome::Paired => {
                    &&& r == FirstAction::PairAndAdmit { name }
                    &&& devices2.len() == devices.len() + 1
                    &&& devices2.drop_last() == devices
                    &&& devices2.last().id@ == remote
                    &&& devices2.last().name == name
                    &&& devices2.last().paired_at@ == paired_at_spec(now_secs as nat)
                },
                PairOutcome::Refused { reason, window_closed } => {
                    &&& r == FirstAction::RefusePairing { reason, window_closed }
                    &&& devices2 == devices
                },
            }
        },
        FirstLine::Refused => {
            &&& r == FirstAction::Close
            &&& devices2 == devices
            &&& pairing2 == pairing
        },
    }
}

/// Decides what the first line `first` of a connection from `remote` earns
/// it. `paired` is whether `remote` was on the paired list when it
/// connected (it also chose the bound on the first line). A matching code
/// records the phone on the list and uses the window up.
pub fn first_line_action(
    store: &mut PairedStore,
    pairing: &mut Option<PairingWindow>,
    paired: bool,
    remote: &str,
    first: Wire,
    now_ms: u64,
    now_secs: u64,
) -> (r: FirstAction)
    ensures
        first_line_effect(
            old(store).devices@,
            *old(pairing),
            paired,
            remote@,
            first,
            now_ms,
            now_secs,
            final(store).devices@,
            *final(pairing),
            r,
        ),
{
    match admit_first_line(paired, first) {
        FirstLine::Hello { name } => FirstAction::Admit { name },
        FirstLine::PairRequest { code, name } => {
            match pair_attempt(pairing, code.as_str(), now_ms) {
                PairOutcome::Paired => {
                    let device = PairedDevice {
                        id: remote.to_owned(),
                        name: name.clone(),
                        paired_at: paired_at_stamp(now_secs),
                    };
                    let ghost before = store.devices@;
                    store.add(device);
                    assert(store.devices@.drop_last() =~= before);
                    FirstAction::PairAndAdmit { name }
                },
                PairOutcome::Refused { reason, window_closed } => FirstAction::RefusePairing {
                    reason,
                    window_closed,
                },
            }
        },
        FirstLine::Refused => FirstAction::Close,
    }
}

/// Whether an action registers the connection, which makes its later
/// streams eligible for the proxy.
pub open spec fn registers(r: FirstAction) -> bool {
    r is Admit || r is PairAndAdmit
}

/// Law of access control: a connection is registered only after a hello from
/// a phone that was paired when it connected, or after a pairing request
/// whose code matched the open window in time; and the paired list changes
/// only by that pairing. Every other first line (too long lines never get
/// here) leaves the list as it was and ends the connection.
pub proof fn law_admission_needs_hello_or_pairing(
    devices: Seq<PairedDevice>,
    pairing: Option<PairingWindow>,
    paired: bool,
    remote: Seq<char>,
    first: Wire,
    now_ms: u64,
    now_secs: u64,
    devices2: Seq<PairedDevice>,
    pairing2: Option<PairingWindow>,
    r: FirstAction,
)
    requires
        first_line_effect(
            devices,
            pairing,
            paired,
            remote,
            first,
            now_ms,
            now_secs,
            devices2,
            pairing2,
            r,
        ),
    ensures
        registers(r) ==> (paired && first is Hello) || (!paired && first is Pair && attempt_spec(
            pairing,
            first->Pair_code@,
            now_ms,
        ).1 is Paired),
        devices2 != devices ==> r is PairAndAdmit,
        !registers(r) ==> devices2 == devices,
        r is PairAndAdmit ==> devices2.last().id@ == remote && devices2.drop_last() == devices,
{
}

// ---------------------------------------------------------------------------
// Path report
// ---------------------------------------------------------------------------

/// The kind of network path a connection runs over.
#[derive(Clone, Copy, Debug, PartialEq, Eq, Structural)]
pub enum PathKind {
    /// A direct UDP path (hole punching succeeded).
    Direct,
    /// Through the relay server.
    Relay,
}

impl PathKind {
    pub open spec fn spec_name(self) -> Seq<char> {
        match self {
            PathKind::Direct => "direct"@,
            PathKind::Relay => "relay"@,
        }
    }

    /// The name reported to the plugin.
    pub fn name(self) -> (r: &'static str)
        ensures
            r@ == self.spec_name(),
    {
        match self {
            PathKind::Direct => "direct",
            PathKind::Relay => "relay",
        }
    }
}

/// One look at a fresh connection's path.
#[derive(Clone, Copy, Debug, PartialEq, Eq, Structural)]
pub enum PathStep {
    /// Report this path and stop looking.
    Report(PathKind),
    /// The deadline passed with no path selected: stop without a report.
    GiveUp,
    /// Look again later.
    Wait,
}

/// A fresh connection usually starts on the relay, so hole punching gets
/// until the deadline: a direct path is reported as soon as it is selected,
/// a relay path only once the deadline has passed, and nothing at all when
/// no path is selected by then.
pub open spec fn path_step_spec(selected: Option<PathKind>, deadline_passed: bool) -> PathStep {
    match selected {
        Some(PathKind::Direct) => PathStep::Report(PathKind::Direct),
        Some(PathKind::Relay) => if deadline_passed {
            PathStep::Report(PathKind::Relay)
        } else {
            PathStep::Wait
        },
        None => if deadline_passed {
            PathStep::GiveUp
        } else {
            PathStep::Wait
        },
    }
}

/// One look at the path of a fresh connection.
pub fn path_report_step(selected: Option<PathKind>, deadline_passed: bool) -> (r: PathStep)
    ensures
        r == path_step_spec(selected, deadline_passed),
{
    match selected {
        Some(PathKind::Direct) => PathStep::Report(PathKind::Direct),
        Some(PathKind::Relay) => if deadline_passed {
            PathStep::Report(PathKind::Relay)
        } else {
            PathStep::Wait
        },
        None => if deadline_passed {
            PathStep::GiveUp
        } else {
            PathStep::Wait
        },
    }
}

/// Law: the looking ends at the deadline at the latest, before the deadline
/// only a direct path is ever reported, and what is reported is the path
/// that was selected.
pub proof fn law_path_report(selected: Option<PathKind>, deadline_passed: bool)
    ensures
        deadline_passed ==> path_step_spec(selected, deadline_passed) !is Wait,
        !deadline_passed ==> (path_step_spec(selected, deadline_passed) is Report
            ==> path_step_spec(selected, deadline_passed) == PathStep::Report(PathKind::Direct)),
        path_step_spec(selected, deadline_passed) matches PathStep::Report(k) ==> selected == Some(
            k,
        ),
{
}

// ---------------------------------------------------------------------------
// Proxy streams
// ---------------------------------------------------------------------------

/// What the host does with a stream that a registered phone opens after its
/// control stream.
#[derive(Clone, Copy, Debug, PartialEq, Eq, Structural)]
pub struct ProxyAccept {
    /// Tell the plugin that the proxy is in use (first such stream only).
    pub announce: bool,
    /// Serve the stream: only when a proxy target is configured.
    pub serve: bool,
}

/// One proxy stream: the plugin is told at the first stream only, and the
/// stream is served when a proxy target is configured. Returns whether the
/// plugin has been told afterwards, and the action.
pub open spec fn proxy_step(announced: bool, has_target: bool) -> (bool, ProxyAccept) {
    (true, ProxyAccept { announce: !announced, serve: has_target })
}

/// Accepts one proxy stream of a connection; `announced` records whether the
/// plugin has been told already.
pub fn accept_proxy_stream(announced: &mut bool, has_target: bool) -> (r: ProxyAccept)
    ensures
        (*final(announced), r) == proxy_step(*old(announced), has_target),
{
    let announce = !*announced;
    *announced = true;
    ProxyAccept { announce, serve: has_target }
}

/// The number of announcements made over the proxy streams of a connection,
/// `targets[i]` telling whether a target was configured at stream `i`,
/// starting with `announced`.
pub open spec fn announcements(announced: bool, targets: Seq<bool>) -> nat
    decreases targets.len(),
{
    if targets.len() == 0 {
        0
    } else {
        let (next, r) = proxy_step(announced, targets[0]);
        (if r.announce {
            1nat
        } else {
            0nat
        }) + announcements(next, targets.drop_first())
    }
}

/// Law: however many proxy streams a connection opens, the plugin is told
/// exactly once, at the first.
pub proof fn law_proxy_announced_once(targets: Seq<bool>)
    ensures
        announcements(false, targets) == (if targets.len() > 0 {
            1nat
        } else {
            0nat
        }),
{
    if targets.len() > 0 {
        lemma_no_announcements_after(targets.drop_first());
    }
}

proof fn lemma_no_announcements_after(targets: Seq<bool>)
    ensures
        announcements(true, targets) == 0,
    decreases targets.len(),
{
    if targets.len() > 0 {
        lemma_no_announcements_after(targets.drop_first());
    }
}

} // verus!
