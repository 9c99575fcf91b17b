//! # airlock-core
//!
//! The authorization and dataflow model at the centre of Airlock. Pure logic:
//! no I/O, no clock, no network. Everything here is a total function of its
//! arguments.
//!
//! - [`capability`] — *what may this agent do?* Authority that can only ever
//!   be narrowed as it is delegated.
//! - [`label`] — *given what this session has read, where may data go?* A
//!   taint lattice whose restrictiveness only ever increases.

pub mod capability;
pub mod label;
pub mod text;

pub use capability::{Attenuation, Capability, Denial, Method, Request, Scope};
pub use label::{Confidentiality, Integrity, Label, Refusal, SessionLabel, SinkClearance};

use vstd::prelude::*;

use capability::{AttenuationModel, CapabilityModel, RequestModel};
use capability::lemma_attenuation_never_widens;
use label::lemma_admission_is_downward_closed;
use label::lemma_refusal_names_each_failed_rule;

verus! {

/// Why a tool call was refused.
///
/// `Unauthorized` means the agent never had this authority, `IllegalFlow`
/// means it had the authority but the data it is carrying may not go there.
#[derive(Debug, Clone, Copy, PartialEq, Eq, Structural)]
pub enum Refused {
    Unauthorized(Denial),
    IllegalFlow(Refusal),
}

impl Refused {
    /// The message for this refusal, naming which mechanism refused.
    pub open spec fn message(self) -> Seq<char> {
        match self {
            Refused::Unauthorized(denial) => "unauthorized: "@ + denial.message(),
            Refused::IllegalFlow(refusal) => "illegal flow: "@ + refusal.message(),
        }
    }

    pub fn to_string(&self) -> (r: String)
        ensures
            r@ == self.message(),
    {
        match self {
            Refused::Unauthorized(denial) => {
                let mut r = String::from_str("unauthorized: ");
                r.append(denial.to_string().as_str());
                r
            },
            Refused::IllegalFlow(refusal) => {
                let mut r = String::from_str("illegal flow: ");
                r.append(refusal.to_string().as_str());
                r
            },
        }
    }
}

impl From<Denial> for Refused {
    fn from(denial: Denial) -> (r: Self) {
        Refused::Unauthorized(denial)
    }
}

impl vstd::std_specs::convert::FromSpecImpl<Denial> for Refused {
    open spec fn obeys_from_spec() -> bool {
        true
    }

    open spec fn from_spec(denial: Denial) -> Self {
        Refused::Unauthorized(denial)
    }
}

impl From<Refusal> for Refused {
    fn from(refusal: Refusal) -> (r: Self) {
        Refused::IllegalFlow(refusal)
    }
}

impl vstd::std_specs::convert::FromSpecImpl<Refusal> for Refused {
    open spec fn obeys_from_spec() -> bool {
        true
    }

    open spec fn from_spec(refusal: Refusal) -> Self {
        Refused::IllegalFlow(refusal)
    }
}

/// The outcome of the egress check for a capability, a session label, a
/// request and a sink: capability first, taint second.
pub open spec fn verdict(
    cap: CapabilityModel,
    label: Label,
    req: RequestModel,
    sink: SinkClearance,
    now: u64,
    spent_micros: u64,
) -> Result<(), Refused> {
    match cap.permission(req, now, spent_micros) {
        Err(denial) => Err(Refused::Unauthorized(denial)),
        Ok(_) => match sink.refusal_of(label) {
            Some(refusal) => Err(Refused::IllegalFlow(refusal)),
            None => Ok(()),
        },
    }
}

/// The complete egress check.
///
/// Ordering is deliberate: capability first, taint second. A request the
/// agent was never authorized to make is reported as unauthorized even if it
/// would also have been an illegal flow.
pub fn decide(
    capability: &Capability,
    session: &SessionLabel,
    req: &Request,
    sink: SinkClearance,
    now: u64,
    spent_micros: u64,
) -> (r: Result<(), Refused>)
    ensures
        r == verdict(capability@, session.current_label(), req@, sink, now, spent_micros),
{
    match capability.permits(req, now, spent_micros) {
        Err(denial) => return Err(Refused::Unauthorized(denial)),
        Ok(()) => {},
    }
    match session.check_egress(sink) {
        Err(refusal) => return Err(Refused::IllegalFlow(refusal)),
        Ok(()) => {},
    }
    Ok(())
}

/// A decision plus the reason, for the audit ledger.
#[derive(Debug, Clone, Copy, PartialEq, Eq, Structural)]
pub struct Decision {
    pub allowed: bool,
    pub reason: Option<Refused>,
    /// The session label at decision time, so that a later replay can
    /// reconstruct exactly why this call went the way it did.
    pub label_at_decision: Label,
}

impl Decision {
    pub fn evaluate(
        capability: &Capability,
        session: &SessionLabel,
        req: &Request,
        sink: SinkClearance,
        now: u64,
        spent_micros: u64,
    ) -> (r: Self)
        ensures
            r.allowed == (verdict(capability@, session.current_label(), req@, sink, now, spent_micros) is Ok),
            r.reason == (match verdict(capability@, session.current_label(), req@, sink, now, spent_micros) {
                Ok(_) => None,
                Err(refused) => Some(refused),
            }),
            r.label_at_decision == session.current_label(),
    {
        match decide(capability, session, req, sink, now, spent_micros) {
            Ok(()) => Decision { allowed: true, reason: None, label_at_decision: session.label() },
            Err(e) => Decision { allowed: false, reason: Some(e), label_at_decision: session.label() },
        }
    }
}

/// A call is allowed exactly when the capability permits the request and the
/// sink admits the session's label; when the capability refuses, that
/// refusal is what is reported, whatever the label.
pub proof fn lemma_decision_is_both_checks(
    cap: CapabilityModel,
    label: Label,
    req: RequestModel,
    sink: SinkClearance,
    now: u64,
    spent_micros: u64,
)
    ensures
        (verdict(cap, label, req, sink, now, spent_micros) is Ok) <==> (cap.permission(
            req,
            now,
            spent_micros,
        ) is Ok && sink.accepts(label)),
        cap.permission(req, now, spent_micros) is Err ==> verdict(
            cap,
            label,
            req,
            sink,
            now,
            spent_micros,
        ) == Err::<(), Refused>(Refused::Unauthorized(cap.permission(req, now, spent_micros)->Err_0)),
{
}

/// When the capability permits the request, the egress check reports the
/// sink's own refusal of the session's label, unchanged: no refusal gives
/// `Ok`, and a refusal `r` gives `IllegalFlow(r)`. In particular a label that
/// is both more secret than the sink accepts and less trusted than it
/// requires is reported as `TooConfidentialAndTainted`, with the label's
/// and the sink's confidentiality.
pub proof fn lemma_flow_refusal_is_passed_through(
    cap: CapabilityModel,
    label: Label,
    req: RequestModel,
    sink: SinkClearance,
    now: u64,
    spent_micros: u64,
)
    requires
        cap.permission(req, now, spent_micros) is Ok,
    ensures
        sink.refusal_of(label) is None ==> verdict(cap, label, req, sink, now, spent_micros)
            == Ok::<(), Refused>(()),
        sink.refusal_of(label) is Some ==> verdict(cap, label, req, sink, now, spent_micros)
            == Err::<(), Refused>(Refused::IllegalFlow(sink.refusal_of(label)->0)),
        label.confidentiality.rank() > sink.max_confidentiality.rank()
            && label.integrity.rank() < sink.min_integrity.rank() ==> verdict(
            cap,
            label,
            req,
            sink,
            now,
            spent_micros,
        ) == Err::<(), Refused>(
            Refused::IllegalFlow(
                Refusal::TooConfidentialAndTainted {
                    data: label.confidentiality,
                    sink_accepts: sink.max_confidentiality,
                },
            ),
        ),
{
    lemma_refusal_names_each_failed_rule(sink, label);
}

/// Narrowing authority and reading more can only turn allowed calls into
/// refused ones: if a call is allowed under an attenuated capability and a
/// session label, it is allowed under the parent capability and any label
/// below that one.
pub proof fn lemma_decisions_only_get_stricter(
    cap: CapabilityModel,
    a: AttenuationModel,
    low: Label,
    high: Label,
    req: RequestModel,
    sink: SinkClearance,
    now: u64,
    spent_micros: u64,
)
    requires
        low.below(high),
        verdict(cap.attenuated(a), high, req, sink, now, spent_micros) is Ok,
    ensures
        verdict(cap, low, req, sink, now, spent_micros) is Ok,
{
    lemma_attenuation_never_widens(cap, a, req, now, spent_micros);
    lemma_admission_is_downward_closed(sink, low, high);
}

} // verus!
