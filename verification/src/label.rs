//! The taint lattice.
//!
//! Denning's lattice for confidentiality composed with Biba for integrity.
//! Confidentiality rises as a session reads more sensitive data; integrity
//! falls as it reads less trustworthy data. Both movements are one-way, and
//! the proof functions at the end of this file are what hold the model to it.

use vstd::prelude::*;

verus! {

/// How secret the data is. Ordered: `Public < Internal < Secret`.
#[derive(Debug, Clone, Copy, PartialEq, Eq, Structural, PartialOrd, Ord, Hash)]
pub enum Confidentiality {
    Public,
    Internal,
    Secret,
}

impl Confidentiality {
    /// Position in the order `Public < Internal < Secret`.
    pub open spec fn rank(self) -> int {
        match self {
            Confidentiality::Public => 0,
            Confidentiality::Internal => 1,
            Confidentiality::Secret => 2,
        }
    }

    /// The more secret of the two.
    pub open spec fn higher(a: Confidentiality, b: Confidentiality) -> Confidentiality {
        if a.rank() >= b.rank() {
            a
        } else {
            b
        }
    }

    /// The variant's name, as it appears in messages.
    pub open spec fn name(self) -> Seq<char> {
        match self {
            Confidentiality::Public => "Public"@,
            Confidentiality::Internal => "Internal"@,
            Confidentiality::Secret => "Secret"@,
        }
    }

    fn name_text(&self) -> (r: &'static str)
        ensures
            r@ == self.name(),
    {
        match self {
            Confidentiality::Public => "Public",
            Confidentiality::Internal => "Internal",
            Confidentiality::Secret => "Secret",
        }
    }

    fn level(&self) -> (r: u8)
        ensures
            r as int == self.rank(),
    {
        match self {
            Confidentiality::Public => 0,
            Confidentiality::Internal => 1,
            Confidentiality::Secret => 2,
        }
    }
}

impl Default for Confidentiality {
    fn default() -> (r: Self)
        ensures
            r == Confidentiality::Public,
    {
        Confidentiality::Public
    }
}

/// How much the data can be trusted to influence actions.
///
/// Ordered `Untrusted < Trusted`, so "worse" is *lower*, which is why the join
/// takes the minimum here and the maximum for confidentiality.
#[derive(Debug, Clone, Copy, PartialEq, Eq, Structural, PartialOrd, Ord, Hash)]
pub enum Integrity {
    /// Came from outside the trust boundary: a fetched web page, an inbound
    /// email, a tool result derived from either.
    Untrusted,
    Trusted,
}

impl Integrity {
    /// Position in the order `Untrusted < Trusted`.
    pub open spec fn rank(self) -> int {
        match self {
            Integrity::Untrusted => 0,
            Integrity::Trusted => 1,
        }
    }

    /// The less trustworthy of the two.
    pub open spec fn lower(a: Integrity, b: Integrity) -> Integrity {
        if a.rank() <= b.rank() {
            a
        } else {
            b
        }
    }

    /// The variant's name, as it appears in messages.
    pub open spec fn name(self) -> Seq<char> {
        match self {
            Integrity::Untrusted => "Untrusted"@,
            Integrity::Trusted => "Trusted"@,
        }
    }

    fn name_text(&self) -> (r: &'static str)
        ensures
            r@ == self.name(),
    {
        match self {
            Integrity::Untrusted => "Untrusted",
            Integrity::Trusted => "Trusted",
        }
    }

    fn level(&self) -> (r: u8)
        ensures
            r as int == self.rank(),
    {
        match self {
            Integrity::Untrusted => 0,
            Integrity::Trusted => 1,
        }
    }
}

impl Default for Integrity {
    fn default() -> (r: Self)
        ensures
            r == Integrity::Trusted,
    {
        Integrity::Trusted
    }
}

/// A point in the lattice: the security level of a piece of data, or of a
/// session that has read several pieces.
#[derive(Debug, Clone, Copy, PartialEq, Eq, Structural, Hash)]
pub struct Label {
    pub confidentiality: Confidentiality,
    pub integrity: Integrity,
}

impl Label {
    /// The least restrictive label, and the identity element of the join.
    pub open spec fn least() -> Label {
        Label { confidentiality: Confidentiality::Public, integrity: Integrity::Trusted }
    }

    /// The most restrictive label.
    pub open spec fn greatest() -> Label {
        Label { confidentiality: Confidentiality::Secret, integrity: Integrity::Untrusted }
    }

    /// Least upper bound of two labels.
    pub open spec fn lub(self, other: Label) -> Label {
        Label {
            confidentiality: Confidentiality::higher(self.confidentiality, other.confidentiality),
            integrity: Integrity::lower(self.integrity, other.integrity),
        }
    }

    /// The lattice partial order: data at `self` may flow to a context at `other`.
    pub open spec fn below(self, other: Label) -> bool {
        self.confidentiality.rank() <= other.confidentiality.rank()
            && self.integrity.rank() >= other.integrity.rank()
    }

    /// The session has touched something from outside the trust boundary.
    pub open spec fn tainted(self) -> bool {
        self.integrity == Integrity::Untrusted
    }

    /// The least restrictive label (`Public`, `Trusted`).
    pub fn bottom() -> (r: Label)
        ensures
            r == Label::least(),
    {
        Label { confidentiality: Confidentiality::Public, integrity: Integrity::Trusted }
    }

    /// The most restrictive label (`Secret`, `Untrusted`). Nothing may flow
    /// out of here.
    pub fn top() -> (r: Label)
        ensures
            r == Label::greatest(),
    {
        Label { confidentiality: Confidentiality::Secret, integrity: Integrity::Untrusted }
    }

    pub fn new(confidentiality: Confidentiality, integrity: Integrity) -> (r: Self)
        ensures
            r.confidentiality == confidentiality,
            r.integrity == integrity,
    {
        Label { confidentiality, integrity }
    }

    /// Least upper bound — the label a session carries after observing both
    /// `self` and `other`.
    ///
    /// Confidentiality takes the max (having seen a secret is not undone by
    /// later reading something public) and integrity takes the min (having
    /// read untrusted input is not undone by later reading something trusted).
    pub fn join(self, other: Self) -> (r: Self)
        ensures
            r == self.lub(other),
    {
        let confidentiality = if self.confidentiality.level() >= other.confidentiality.level() {
            self.confidentiality
        } else {
            other.confidentiality
        };
        let integrity = if self.integrity.level() <= other.integrity.level() {
            self.integrity
        } else {
            other.integrity
        };
        Label { confidentiality, integrity }
    }

    /// May data at `self` flow to a context at `other`?
    ///
    /// This is a *partial* order: `(Secret, Trusted)` and `(Public, Untrusted)`
    /// are incomparable, neither may flow to the other.
    pub fn flows_to(self, other: Self) -> (r: bool)
        ensures
            r == self.below(other),
    {
        self.confidentiality.level() <= other.confidentiality.level()
            && self.integrity.level() >= other.integrity.level()
    }

    /// The label as text: `<confidentiality>/<integrity>`, e.g.
    /// `Secret/Untrusted`.
    pub open spec fn text(self) -> Seq<char> {
        self.confidentiality.name() + "/"@ + self.integrity.name()
    }

    pub fn to_string(&self) -> (r: String)
        ensures
            r@ == self.text(),
    {
        let mut r = String::from_str(self.confidentiality.name_text());
        r.append("/");
        r.append(self.integrity.name_text());
        r
    }

    /// True once the session has touched anything from outside the trust
    /// boundary.
    pub fn is_tainted(self) -> (r: bool)
        ensures
            r == self.tainted(),
    {
        match self.integrity {
            Integrity::Untrusted => true,
            Integrity::Trusted => false,
        }
    }
}

impl Default for Label {
    fn default() -> (r: Self)
        ensures
            r == Label::least(),
    {
        Label::bottom()
    }
}

/// What a sink is willing to accept.
///
/// `max_confidentiality` bounds how secret the outbound data may be;
/// `min_integrity` bounds how tainted the session may be.
#[derive(Debug, Clone, Copy, PartialEq, Eq, Structural)]
pub struct SinkClearance {
    pub max_confidentiality: Confidentiality,
    pub min_integrity: Integrity,
}

/// Why a flow was refused, naming the specific rule that failed.
#[derive(Debug, Clone, Copy, PartialEq, Eq, Structural)]
pub enum Refusal {
    /// The data is more secret than the sink accepts.
    TooConfidential { data: Confidentiality, sink_accepts: Confidentiality },
    /// The session has read untrusted input; the sink requires trusted integrity.
    Tainted,
    /// Both rules failed at once.
    TooConfidentialAndTainted { data: Confidentiality, sink_accepts: Confidentiality },
}

impl Refusal {
    /// The message for this refusal.
    pub open spec fn message(self) -> Seq<char> {
        match self {
            Refusal::TooConfidential { data, sink_accepts } => "data is "@ + data.name()
                + " but sink accepts at most "@ + sink_accepts.name(),
            Refusal::Tainted => "session has read untrusted input; sink requires trusted integrity"@,
            Refusal::TooConfidentialAndTainted { data, sink_accepts } => "data is "@ + data.name()
                + " (sink accepts "@ + sink_accepts.name() + ") and session is tainted"@,
        }
    }

    pub fn to_string(&self) -> (r: String)
        ensures
            r@ == self.message(),
    {
        match self {
            Refusal::TooConfidential { data, sink_accepts } => {
                let mut r = String::from_str("data is ");
                r.append(data.name_text());
                r.append(" but sink accepts at most ");
                r.append(sink_accepts.name_text());
                r
            },
            Refusal::Tainted => String::from_str(
                "session has read untrusted input; sink requires trusted integrity",
            ),
            Refusal::TooConfidentialAndTainted { data, sink_accepts } => {
                let mut r = String::from_str("data is ");
                r.append(data.name_text());
                r.append(" (sink accepts ");
                r.append(sink_accepts.name_text());
                r.append(") and session is tainted");
                r
            },
        }
    }
}

impl SinkClearance {
    /// The label this sink sits at: the most restrictive label it admits.
    pub open spec fn ceiling(self) -> Label {
        Label { confidentiality: self.max_confidentiality, integrity: self.min_integrity }
    }

    /// The sink accepts data at `label`.
    pub open spec fn accepts(self, label: Label) -> bool {
        label.confidentiality.rank() <= self.max_confidentiality.rank()
            && label.integrity.rank() >= self.min_integrity.rank()
    }

    /// Which rule, if any, refuses data at `label`.
    pub open spec fn refusal_of(self, label: Label) -> Option<Refusal> {
        let too_secret = label.confidentiality.rank() > self.max_confidentiality.rank();
        let too_tainted = label.integrity.rank() < self.min_integrity.rank();
        if too_secret && too_tainted {
            Some(
                Refusal::TooConfidentialAndTainted {
                    data: label.confidentiality,
                    sink_accepts: self.max_confidentiality,
                },
            )
        } else if too_secret {
            Some(
                Refusal::TooConfidential {
                    data: label.confidentiality,
                    sink_accepts: self.max_confidentiality,
                },
            )
        } else if too_tainted {
            Some(Refusal::Tainted)
        } else {
            None
        }
    }

    /// A sink outside the trust boundary — the public internet. Accepts only
    /// public data, and only from an untainted session.
    pub fn public_egress() -> (r: SinkClearance)
        ensures
            r.max_confidentiality == Confidentiality::Public,
            r.min_integrity == Integrity::Trusted,
    {
        SinkClearance {
            max_confidentiality: Confidentiality::Public,
            min_integrity: Integrity::Trusted,
        }
    }

    /// An internal service: may receive internal data, still refuses tainted
    /// sessions.
    pub fn internal() -> (r: SinkClearance)
        ensures
            r.max_confidentiality == Confidentiality::Internal,
            r.min_integrity == Integrity::Trusted,
    {
        SinkClearance {
            max_confidentiality: Confidentiality::Internal,
            min_integrity: Integrity::Trusted,
        }
    }

    pub fn admits(&self, label: Label) -> (r: bool)
        ensures
            r == self.accepts(label),
    {
        label.confidentiality.level() <= self.max_confidentiality.level()
            && label.integrity.level() >= self.min_integrity.level()
    }

    /// Why a flow was refused. Names the specific rule that failed rather
    /// than saying "denied".
    pub fn refusal(&self, label: Label) -> (r: Option<Refusal>)
        ensures
            r == self.refusal_of(label),
    {
        let too_secret = label.confidentiality.level() > self.max_confidentiality.level();
        let too_tainted = label.integrity.level() < self.min_integrity.level();
        match (too_secret, too_tainted) {
            (false, false) => None,
            (true, false) => Some(
                Refusal::TooConfidential {
                    data: label.confidentiality,
                    sink_accepts: self.max_confidentiality,
                },
            ),
            (false, true) => Some(Refusal::Tainted),
            (true, true) => Some(
                Refusal::TooConfidentialAndTainted {
                    data: label.confidentiality,
                    sink_accepts: self.max_confidentiality,
                },
            ),
        }
    }
}

/// The running taint state of one agent session.
///
/// Deliberately offers no way to lower the label. Declassification is a
/// separate, human-approved operation that does not live on this type.
#[derive(Debug, Clone, Copy, PartialEq, Eq, Structural)]
pub struct SessionLabel {
    current: Label,
    observations: u32,
}

impl SessionLabel {
    /// The label the session currently carries.
    pub closed spec fn current_label(self) -> Label {
        self.current
    }

    /// How many observations have been recorded (saturating at `u32::MAX`).
    pub closed spec fn observation_count(self) -> u32 {
        self.observations
    }

    pub fn new() -> (r: Self)
        ensures
            r.current_label() == Label::least(),
            r.observation_count() == 0,
    {
        SessionLabel { current: Label::bottom(), observations: 0 }
    }

    /// Record that the session has read data at `label`.
    pub fn observe(&mut self, label: Label)
        ensures
            final(self).current_label() == old(self).current_label().lub(label),
            final(self).observation_count() == (if old(self).observation_count() == u32::MAX {
                u32::MAX
            } else {
                (old(self).observation_count() + 1) as u32
            }),
    {
        self.current = self.current.join(label);
        self.observations = self.observations.saturating_add(1);
    }

    pub fn label(&self) -> (r: Label)
        ensures
            r == self.current_label(),
    {
        self.current
    }

    pub fn observations(&self) -> (r: u32)
        ensures
            r == self.observation_count(),
    {
        self.observations
    }

    /// The egress check, called on every tool invocation that leaves the
    /// sandbox.
    pub fn check_egress(&self, sink: SinkClearance) -> (r: Result<(), Refusal>)
        ensures
            r == (match sink.refusal_of(self.current_label()) {
                None => Ok(()),
                Some(refused) => Err(refused),
            }),
    {
        match sink.refusal(self.current) {
            None => Ok(()),
            Some(refused) => Err(refused),
        }
    }
}

impl Default for SessionLabel {
    fn default() -> (r: Self)
        ensures
            r.current_label() == Label::least(),
            r.observation_count() == 0,
    {
        SessionLabel::new()
    }
}


/// The label of a session that started at `start` and then read `reads`, in
/// order: each read joins its label into the running one.
pub open spec fn after_reads(start: Label, reads: Seq<Label>) -> Label
    decreases reads.len(),
{
    if reads.len() == 0 {
        start
    } else {
        after_reads(start, reads.drop_last()).lub(reads.last())
    }
}

/// How a session's label follows `after_reads`: a fresh session is at
/// `Label::least()`, which is `after_reads` of no reads, and each `observe`
/// of `l` (which joins `l` into the current label) moves a session at
/// `after_reads(start, reads)` to `after_reads(start, reads.push(l))`. So a
/// session that started with `SessionLabel::new()` and observed `reads` in
/// order carries `after_reads(Label::least(), reads)`.
pub proof fn lemma_observe_extends_reads(start: Label, reads: Seq<Label>, l: Label)
    ensures
        after_reads(start, Seq::<Label>::empty()) == start,
        after_reads(start, reads.push(l)) == after_reads(start, reads).lub(l),
{
    assert(reads.push(l).drop_last() =~= reads);
}

/// The join is commutative, associative and idempotent, and `Label::least()`
/// is its identity: the labels form a join-semilattice.
pub proof fn lemma_join_is_a_semilattice(a: Label, b: Label, c: Label)
    ensures
        a.lub(b) == b.lub(a),
        a.lub(b).lub(c) == a.lub(b.lub(c)),
        a.lub(a) == a,
        a.lub(Label::least()) == a,
        a.lub(Label::greatest()) == Label::greatest(),
{
}

/// The join of two labels dominates both operands, and it is the least label
/// that does.
pub proof fn lemma_join_is_least_upper_bound(a: Label, b: Label, c: Label)
    ensures
        a.below(a.lub(b)),
        b.below(a.lub(b)),
        a.below(c) && b.below(c) ==> a.lub(b).below(c),
{
}

/// `flows_to` is a partial order: reflexive, antisymmetric and transitive,
/// with `Label::least()` below and `Label::greatest()` above every label.
pub proof fn lemma_flow_is_a_partial_order(a: Label, b: Label, c: Label)
    ensures
        a.below(a),
        a.below(b) && b.below(a) ==> a == b,
        a.below(b) && b.below(c) ==> a.below(c),
        Label::least().below(a),
        a.below(Label::greatest()),
{
}

/// A sink admits exactly the labels that flow to its ceiling, and it gives a
/// refusal exactly for the labels it does not admit.
pub proof fn lemma_admission_is_flow_to_ceiling(sink: SinkClearance, label: Label)
    ensures
        sink.accepts(label) <==> label.below(sink.ceiling()),
        sink.accepts(label) <==> (sink.refusal_of(label) is None),
        (sink.refusal_of(label) == Some(Refusal::Tainted)) <==> (label.tainted()
            && sink.min_integrity == Integrity::Trusted
            && label.confidentiality.rank() <= sink.max_confidentiality.rank()),
{
}

/// What a sink refuses, rule by rule. With `too_secret` meaning the
/// label's confidentiality ranks above what the sink accepts and `tainted`
/// meaning its integrity ranks below what the sink requires: neither gives
/// no refusal; only `too_secret` gives `TooConfidential` with the data's and
/// the sink's levels; only `tainted` gives `Tainted`; both give
/// `TooConfidentialAndTainted` with the data's and the sink's levels, whatever
/// the levels are.
pub proof fn lemma_refusal_names_each_failed_rule(sink: SinkClearance, label: Label)
    ensures
        label.confidentiality.rank() <= sink.max_confidentiality.rank()
            && label.integrity.rank() >= sink.min_integrity.rank() ==> sink.refusal_of(label)
            == None::<Refusal>,
        label.confidentiality.rank() > sink.max_confidentiality.rank()
            && label.integrity.rank() >= sink.min_integrity.rank() ==> sink.refusal_of(label)
            == Some(
            Refusal::TooConfidential {
                data: label.confidentiality,
                sink_accepts: sink.max_confidentiality,
            },
        ),
        label.confidentiality.rank() <= sink.max_confidentiality.rank()
            && label.integrity.rank() < sink.min_integrity.rank() ==> sink.refusal_of(label)
            == Some(Refusal::Tainted),
        label.confidentiality.rank() > sink.max_confidentiality.rank()
            && label.integrity.rank() < sink.min_integrity.rank() ==> sink.refusal_of(label)
            == Some(
            Refusal::TooConfidentialAndTainted {
                data: label.confidentiality,
                sink_accepts: sink.max_confidentiality,
            },
        ),
{
}

/// Admission is closed downwards: a sink that admits a label admits every
/// label below it. Equivalently, once a label is refused, every more
/// restrictive label is refused too.
pub proof fn lemma_admission_is_downward_closed(sink: SinkClearance, low: Label, high: Label)
    requires
        low.below(high),
    ensures
        sink.accepts(high) ==> sink.accepts(low),
        (sink.refusal_of(low) is Some) ==> (sink.refusal_of(high) is Some),
{
}

/// Reading more never makes a session less restrictive: along any sequence of
/// reads, the label at an earlier point flows to the label at a later point.
pub proof fn lemma_session_label_is_monotonic(start: Label, reads: Seq<Label>, i: int, j: int)
    requires
        0 <= i <= j <= reads.len(),
    ensures
        after_reads(start, reads.take(i)).below(after_reads(start, reads.take(j))),
    decreases j - i,
{
    if i < j {
        lemma_session_label_is_monotonic(start, reads, i, j - 1);
        assert(reads.take(j).drop_last() =~= reads.take(j - 1));
        assert(reads.take(j).last() == reads[j - 1]);
    }
}

/// Every read, and the starting label, flow to the label after all the reads;
/// each component of that label is the start's or one of the reads'.
pub proof fn lemma_after_reads_is_their_join(start: Label, reads: Seq<Label>)
    ensures
        start.below(after_reads(start, reads)),
        forall|i: int| 0 <= i < reads.len() ==> (#[trigger] reads[i]).below(after_reads(start, reads)),
        after_reads(start, reads).confidentiality == start.confidentiality || exists|i: int|
            0 <= i < reads.len() && after_reads(start, reads).confidentiality
                == (#[trigger] reads[i]).confidentiality,
        after_reads(start, reads).integrity == start.integrity || exists|i: int|
            0 <= i < reads.len() && after_reads(start, reads).integrity
                == (#[trigger] reads[i]).integrity,
    decreases reads.len(),
{
    if reads.len() > 0 {
        let prefix = reads.drop_last();
        lemma_after_reads_is_their_join(start, prefix);
        let r = after_reads(start, reads);
        let p = after_reads(start, prefix);
        assert(r == p.lub(reads.last()));
        assert forall|i: int| 0 <= i < reads.len() implies (#[trigger] reads[i]).below(r) by {
            if i < reads.len() - 1 {
                assert(prefix[i] == reads[i]);
            }
        }
        if r.confidentiality != start.confidentiality {
            if r.confidentiality == reads.last().confidentiality {
                assert(reads[reads.len() - 1] == reads.last());
            } else {
                let k = choose|k: int|
                    0 <= k < prefix.len() && p.confidentiality == (#[trigger] prefix[k]).confidentiality;
                assert(reads[k] == prefix[k]);
            }
        }
        if r.integrity != start.integrity {
            if r.integrity == reads.last().integrity {
                assert(reads[reads.len() - 1] == reads.last());
            } else {
                let k = choose|k: int|
                    0 <= k < prefix.len() && p.integrity == (#[trigger] prefix[k]).integrity;
                assert(reads[k] == prefix[k]);
            }
        }
    }
}

/// Reading order does not change the outcome: two read sequences made of the
/// same labels leave a session at the same label, whatever the order and
/// however often each label is repeated. In particular, reading in reverse
/// order gives the same label.
pub proof fn lemma_session_label_is_order_independent(start: Label, a: Seq<Label>, b: Seq<Label>)
    requires
        forall|l: Label| a.contains(l) <==> b.contains(l),
    ensures
        after_reads(start, a) == after_reads(start, b),
        after_reads(start, a) == after_reads(start, a.reverse()),
{
    lemma_same_reads_same_label(start, a, b);
    assert forall|l: Label| a.contains(l) <==> a.reverse().contains(l) by {
        if a.contains(l) {
            let i = choose|i: int| 0 <= i < a.len() && a[i] == l;
            assert(a.reverse()[a.len() - 1 - i] == l);
        }
        if a.reverse().contains(l) {
            let i = choose|i: int| 0 <= i < a.len() && a.reverse()[i] == l;
            assert(a[a.len() - 1 - i] == l);
        }
    }
    lemma_same_reads_same_label(start, a, a.reverse());
}

proof fn lemma_same_reads_same_label(start: Label, a: Seq<Label>, b: Seq<Label>)
    requires
        forall|l: Label| a.contains(l) <==> b.contains(l),
    ensures
        after_reads(start, a) == after_reads(start, b),
{
    lemma_after_reads_is_their_join(start, a);
    lemma_after_reads_is_their_join(start, b);
    let ra = after_reads(start, a);
    let rb = after_reads(start, b);
    // Each result is bounded by the other, component by component.
    if ra.confidentiality != start.confidentiality {
        let i = choose|i: int| 0 <= i < a.len() && ra.confidentiality == (#[trigger] a[i]).confidentiality;
        assert(a.contains(a[i]));
        let k = choose|k: int| 0 <= k < b.len() && b[k] == a[i];
    }
    if rb.confidentiality != start.confidentiality {
        let i = choose|i: int| 0 <= i < b.len() && rb.confidentiality == (#[trigger] b[i]).confidentiality;
        assert(b.contains(b[i]));
        let k = choose|k: int| 0 <= k < a.len() && a[k] == b[i];
    }
    if ra.integrity != start.integrity {
        let i = choose|i: int| 0 <= i < a.len() && ra.integrity == (#[trigger] a[i]).integrity;
        assert(a.contains(a[i]));
        let k = choose|k: int| 0 <= k < b.len() && b[k] == a[i];
    }
    if rb.integrity != start.integrity {
        let i = choose|i: int| 0 <= i < b.len() && rb.integrity == (#[trigger] b[i]).integrity;
        assert(b.contains(b[i]));
        let k = choose|k: int| 0 <= k < a.len() && a[k] == b[i];
    }
    assert(ra.confidentiality.rank() == rb.confidentiality.rank());
    assert(ra.integrity.rank() == rb.integrity.rank());
}

/// Taint cannot be laundered: once a session carries an untrusted label, no
/// later reads, of whatever labels, make it untainted again, and every sink
/// that requires trusted integrity refuses it.
pub proof fn lemma_taint_cannot_be_laundered(sink: SinkClearance, start: Label, reads: Seq<Label>, i: int)
    requires
        start.tainted(),
        0 <= i <= reads.len(),
        sink.min_integrity == Integrity::Trusted,
    ensures
        after_reads(start, reads.take(i)).tainted(),
        (sink.refusal_of(after_reads(start, reads.take(i))) is Some),
{
    lemma_session_label_is_monotonic(start, reads, 0, i);
    assert(reads.take(0) =~= Seq::<Label>::empty());
}

/// Egress denial is permanent: a session refused by a sink at some point is
/// refused by that sink at every later point, whatever it reads meanwhile.
pub proof fn lemma_egress_denial_is_permanent(
    sink: SinkClearance,
    start: Label,
    reads: Seq<Label>,
    i: int,
    j: int,
)
    requires
        0 <= i <= j <= reads.len(),
        (sink.refusal_of(after_reads(start, reads.take(i))) is Some),
    ensures
        (sink.refusal_of(after_reads(start, reads.take(j))) is Some),
{
    lemma_session_label_is_monotonic(start, reads, i, j);
}

} // verus!
