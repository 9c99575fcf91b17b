use airlock_core::{Confidentiality, Integrity, Label, Refusal, SessionLabel, SinkClearance};

/// The attack Airlock exists to stop, as a unit test.
#[test]
fn injected_page_blocks_later_exfiltration() {
    let mut session = SessionLabel::new();

    // A benign start: the agent may reach the public internet.
    assert!(session.check_egress(SinkClearance::public_egress()).is_ok());

    // It reads a web page carrying an injected instruction.
    session.observe(Label::new(Confidentiality::Public, Integrity::Untrusted));

    // ...and then reads an internal secret it is legitimately allowed to read.
    session.observe(Label::new(Confidentiality::Secret, Integrity::Trusted));

    // Exfiltration now fails on both axes at once.
    assert_eq!(
        session.check_egress(SinkClearance::public_egress()),
        Err(Refusal::TooConfidentialAndTainted {
            data: Confidentiality::Secret,
            sink_accepts: Confidentiality::Public,
        })
    );
}

#[test]
fn taint_is_irreversible() {
    let mut session = SessionLabel::new();
    session.observe(Label::new(Confidentiality::Public, Integrity::Untrusted));
    // Reading a hundred trustworthy things does not launder the taint.
    for _ in 0..100 {
        session.observe(Label::bottom());
    }
    assert!(session.label().is_tainted());
}

#[test]
fn incomparable_labels_do_not_flow_either_way() {
    let secret_trusted = Label::new(Confidentiality::Secret, Integrity::Trusted);
    let public_tainted = Label::new(Confidentiality::Public, Integrity::Untrusted);
    assert!(!secret_trusted.flows_to(public_tainted));
    assert!(!public_tainted.flows_to(secret_trusted));
}

// ------------------------------------------------------------------ more cases

fn all_labels() -> Vec<Label> {
    let mut out = Vec::new();
    for c in [Confidentiality::Public, Confidentiality::Internal, Confidentiality::Secret] {
        for i in [Integrity::Untrusted, Integrity::Trusted] {
            out.push(Label::new(c, i));
        }
    }
    out
}

#[test]
fn join_takes_max_confidentiality_and_min_integrity() {
    let a = Label::new(Confidentiality::Internal, Integrity::Trusted);
    let b = Label::new(Confidentiality::Public, Integrity::Untrusted);
    assert_eq!(a.join(b), Label::new(Confidentiality::Internal, Integrity::Untrusted));
    assert_eq!(Label::bottom(), Label::new(Confidentiality::Public, Integrity::Trusted));
    assert_eq!(Label::top(), Label::new(Confidentiality::Secret, Integrity::Untrusted));
    assert_eq!(Label::default(), Label::bottom());
    assert_eq!(Confidentiality::default(), Confidentiality::Public);
    assert_eq!(Integrity::default(), Integrity::Trusted);
}

#[test]
fn join_is_a_semilattice_on_every_label() {
    let all = all_labels();
    for &a in &all {
        assert_eq!(a.join(a), a, "idempotence");
        assert_eq!(a.join(Label::bottom()), a, "bottom is identity");
        assert_eq!(a.join(Label::top()), Label::top(), "top absorbs");
        for &b in &all {
            assert_eq!(a.join(b), b.join(a), "commutativity");
            assert!(a.flows_to(a.join(b)));
            assert!(b.flows_to(a.join(b)));
            for &c in &all {
                assert_eq!(a.join(b).join(c), a.join(b.join(c)), "associativity");
                if a.flows_to(c) && b.flows_to(c) {
                    assert!(a.join(b).flows_to(c), "least upper bound");
                }
                if a.flows_to(b) && b.flows_to(c) {
                    assert!(a.flows_to(c), "transitivity");
                }
            }
            if a.flows_to(b) && b.flows_to(a) {
                assert_eq!(a, b, "antisymmetry");
            }
        }
    }
}

#[test]
fn is_tainted_means_untrusted() {
    for l in all_labels() {
        assert_eq!(l.is_tainted(), l.integrity == Integrity::Untrusted);
    }
}

#[test]
fn refusal_names_each_rule() {
    let sink = SinkClearance::internal();
    assert_eq!(sink.max_confidentiality, Confidentiality::Internal);
    assert_eq!(sink.min_integrity, Integrity::Trusted);
    assert_eq!(
        sink.refusal(Label::new(Confidentiality::Internal, Integrity::Trusted)),
        None
    );
    assert_eq!(
        sink.refusal(Label::new(Confidentiality::Secret, Integrity::Trusted)),
        Some(Refusal::TooConfidential {
            data: Confidentiality::Secret,
            sink_accepts: Confidentiality::Internal,
        })
    );
    assert_eq!(
        sink.refusal(Label::new(Confidentiality::Public, Integrity::Untrusted)),
        Some(Refusal::Tainted)
    );
    assert_eq!(
        sink.refusal(Label::new(Confidentiality::Secret, Integrity::Untrusted)),
        Some(Refusal::TooConfidentialAndTainted {
            data: Confidentiality::Secret,
            sink_accepts: Confidentiality::Internal,
        })
    );
    let open = SinkClearance {
        max_confidentiality: Confidentiality::Secret,
        min_integrity: Integrity::Untrusted,
    };
    for l in all_labels() {
        assert!(open.admits(l));
    }
}

#[test]
fn admits_exactly_when_no_refusal() {
    let sinks = [
        SinkClearance::public_egress(),
        SinkClearance::internal(),
        SinkClearance {
            max_confidentiality: Confidentiality::Internal,
            min_integrity: Integrity::Untrusted,
        },
    ];
    for sink in sinks {
        let ceiling = Label::new(sink.max_confidentiality, sink.min_integrity);
        for l in all_labels() {
            assert_eq!(sink.admits(l), sink.refusal(l).is_none());
            assert_eq!(sink.admits(l), l.flows_to(ceiling));
        }
    }
}

#[test]
fn session_counts_observations() {
    let mut s = SessionLabel::new();
    assert_eq!(s.observations(), 0);
    assert_eq!(s.label(), Label::bottom());
    s.observe(Label::new(Confidentiality::Internal, Integrity::Trusted));
    s.observe(Label::bottom());
    assert_eq!(s.observations(), 2);
    assert_eq!(s.label(), Label::new(Confidentiality::Internal, Integrity::Trusted));
    assert_eq!(SessionLabel::default(), SessionLabel::new());
}

/// Every sequence of up to four reads drawn from all six labels.
fn all_read_sequences() -> Vec<Vec<Label>> {
    let all = all_labels();
    let mut out: Vec<Vec<Label>> = vec![vec![]];
    let mut frontier: Vec<Vec<Label>> = vec![vec![]];
    for _ in 0..4 {
        let mut next = Vec::new();
        for seq in &frontier {
            for &l in &all {
                let mut s = seq.clone();
                s.push(l);
                next.push(s);
            }
        }
        out.extend(next.iter().cloned());
        frontier = next;
    }
    out
}

fn fold(reads: &[Label]) -> Label {
    let mut s = SessionLabel::new();
    for &l in reads {
        s.observe(l);
    }
    s.label()
}

#[test]
fn session_label_is_monotonic() {
    for reads in all_read_sequences() {
        let mut session = SessionLabel::new();
        let mut previous = session.label();
        for r in reads {
            session.observe(r);
            let now = session.label();
            assert!(previous.flows_to(now));
            previous = now;
        }
    }
}

#[test]
fn session_label_is_order_independent() {
    for reads in all_read_sequences() {
        let mut reversed = reads.clone();
        reversed.reverse();
        assert_eq!(fold(&reads), fold(&reversed));
        let mut rotated = reads.clone();
        rotated.rotate_left(if reads.is_empty() { 0 } else { 1 });
        assert_eq!(fold(&reads), fold(&rotated));
    }
}

#[test]
fn taint_cannot_be_laundered() {
    for reads in all_read_sequences() {
        let mut session = SessionLabel::new();
        session.observe(Label::new(Confidentiality::Public, Integrity::Untrusted));
        for r in reads {
            session.observe(r);
            assert!(session.label().is_tainted());
            assert!(session.check_egress(SinkClearance::public_egress()).is_err());
            assert!(session.check_egress(SinkClearance::internal()).is_err());
        }
    }
}

#[test]
fn egress_denial_is_permanent() {
    for sink in [SinkClearance::public_egress(), SinkClearance::internal()] {
        for reads in all_read_sequences() {
            let mut session = SessionLabel::new();
            let mut ever_denied = false;
            for r in reads {
                session.observe(r);
                let denied = session.check_egress(sink).is_err();
                if ever_denied {
                    assert!(denied);
                }
                ever_denied |= denied;
            }
        }
    }
}

#[test]
fn messages() {
    assert_eq!(
        Label::new(Confidentiality::Secret, Integrity::Untrusted).to_string(),
        "Secret/Untrusted"
    );
    assert_eq!(Label::bottom().to_string(), "Public/Trusted");
    assert_eq!(
        Refusal::TooConfidential {
            data: Confidentiality::Secret,
            sink_accepts: Confidentiality::Public
        }
        .to_string(),
        "data is Secret but sink accepts at most Public"
    );
    assert_eq!(
        Refusal::Tainted.to_string(),
        "session has read untrusted input; sink requires trusted integrity"
    );
    assert_eq!(
        Refusal::TooConfidentialAndTainted {
            data: Confidentiality::Internal,
            sink_accepts: Confidentiality::Public
        }
        .to_string(),
        "data is Internal (sink accepts Public) and session is tainted"
    );
}
