use airlock_core::{
    decide, Attenuation, Capability, Confidentiality, Decision, Denial, Integrity, Label, Method,
    Refusal, Refused, Request, Scope, SessionLabel, SinkClearance,
};

#[test]
fn capability_denial_reported_before_flow_violation() {
    // Tainted session AND a request outside scope: the unauthorized verdict wins.
    let cap = Capability::new(vec![Scope::new(Method::Get, "api.internal", "/v1/")], 1_000, 1_000);
    let mut session = SessionLabel::new();
    session.observe(Label::new(Confidentiality::Public, Integrity::Untrusted));

    let d = Decision::evaluate(
        &cap,
        &session,
        &Request::new(Method::Post, "evil.example", "/steal"),
        SinkClearance::public_egress(),
        0,
        0,
    );
    assert!(!d.allowed);
    assert_eq!(d.reason, Some(Refused::Unauthorized(Denial::OutOfScope)));
}

#[test]
fn authorized_but_tainted_is_an_illegal_flow() {
    let cap = Capability::new(vec![Scope::new(Method::Post, "hooks.example", "/")], 1_000, 1_000);
    let mut session = SessionLabel::new();
    session.observe(Label::new(Confidentiality::Public, Integrity::Untrusted));

    let d = Decision::evaluate(
        &cap,
        &session,
        &Request::new(Method::Post, "hooks.example", "/notify"),
        SinkClearance::public_egress(),
        0,
        0,
    );
    assert!(!d.allowed);
    assert_eq!(d.reason, Some(Refused::IllegalFlow(Refusal::Tainted)));
}

// ------------------------------------------------------------------ more cases

fn tickets() -> Capability {
    Capability::new(
        vec![Scope::new(Method::Post, "api.internal", "/v1/tickets")],
        u64::MAX,
        1_000_000,
    )
}

#[test]
fn clean_session_in_scope_is_allowed() {
    let mut session = SessionLabel::new();
    session.observe(Label::new(Confidentiality::Internal, Integrity::Trusted));
    let req = Request::new(Method::Post, "api.internal", "/v1/tickets/new");
    assert_eq!(decide(&tickets(), &session, &req, SinkClearance::internal(), 0, 0), Ok(()));
    let d = Decision::evaluate(&tickets(), &session, &req, SinkClearance::internal(), 0, 0);
    assert_eq!(
        d,
        Decision {
            allowed: true,
            reason: None,
            label_at_decision: Label::new(Confidentiality::Internal, Integrity::Trusted),
        }
    );
    // The same session may not send internal data to the public internet.
    assert_eq!(
        decide(&tickets(), &session, &req, SinkClearance::public_egress(), 0, 0),
        Err(Refused::IllegalFlow(Refusal::TooConfidential {
            data: Confidentiality::Internal,
            sink_accepts: Confidentiality::Public,
        }))
    );
}

#[test]
fn expiry_and_budget_are_unauthorized() {
    let session = SessionLabel::new();
    let req = Request::new(Method::Post, "api.internal", "/v1/tickets");
    assert_eq!(
        decide(&tickets(), &session, &req, SinkClearance::internal(), 0, 1_000_000),
        Err(Refused::Unauthorized(Denial::BudgetExhausted))
    );
    let short = tickets().attenuate(&Attenuation::new().not_after(5));
    let d = Decision::evaluate(&short, &session, &req, SinkClearance::internal(), 5, 0);
    assert_eq!(d.reason, Some(Refused::Unauthorized(Denial::Expired)));
    assert_eq!(d.label_at_decision, Label::bottom());
}

#[test]
fn refused_converts_from_both_mechanisms() {
    assert_eq!(Refused::from(Denial::Expired), Refused::Unauthorized(Denial::Expired));
    assert_eq!(Refused::from(Refusal::Tainted), Refused::IllegalFlow(Refusal::Tainted));
}

#[test]
fn refused_messages() {
    assert_eq!(
        Refused::Unauthorized(Denial::OutOfScope).to_string(),
        "unauthorized: no scope in the capability matches this request"
    );
    assert_eq!(
        Refused::IllegalFlow(Refusal::Tainted).to_string(),
        "illegal flow: session has read untrusted input; sink requires trusted integrity"
    );
}
