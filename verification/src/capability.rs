//! Capabilities and attenuation.
//!
//! A capability names exactly what an agent may do: which requests, until
//! when, and for how much money. Each delegation hop may narrow the authority
//! it passes on without contacting the issuer.
//!
//! The invariant everything rests on:
//!
//! > Attenuation is monotonically non-increasing in authority.
//!
//! [`Capability::attenuate`] is the only way to derive a capability from
//! another, and it can only intersect, shorten and shrink. The proof
//! functions at the end of this file state and prove that no derived
//! capability ever permits a request its parent refused.

use vstd::prelude::*;

use crate::text::{compare_text, is_prefix_of, sorts_before, starts_with, Precedence};
use crate::text::lemma_prefix_is_a_preorder;
use crate::text::lemma_prefix_is_a_beginning;
use crate::text::lemma_sorts_before_is_a_strict_total_order;
use vstd::std_specs::cmp::PartialEqSpecImpl;

verus! {

#[derive(Debug, Clone, Copy, PartialEq, Eq, Structural, PartialOrd, Ord, Hash)]
pub enum Method {
    Get,
    Post,
    Put,
    Patch,
    Delete,
}

impl Method {
    /// Position in the declaration order `Get < Post < Put < Patch < Delete`.
    pub open spec fn rank(self) -> int {
        match self {
            Method::Get => 0,
            Method::Post => 1,
            Method::Put => 2,
            Method::Patch => 3,
            Method::Delete => 4,
        }
    }

    fn level(&self) -> (r: u8)
        ensures
            r as int == self.rank(),
    {
        match self {
            Method::Get => 0,
            Method::Post => 1,
            Method::Put => 2,
            Method::Patch => 3,
            Method::Delete => 4,
        }
    }
}

/// What a scope means: a method, a host, and a path prefix.
#[verifier::ext_equal]
pub struct ScopeModel {
    pub method: Method,
    pub host: Seq<char>,
    pub path_prefix: Seq<char>,
}

/// What a request means: a method, a host, and a path.
#[verifier::ext_equal]
pub struct RequestModel {
    pub method: Method,
    pub host: Seq<char>,
    pub path: Seq<char>,
}

impl ScopeModel {
    /// `self` grants everything `other` grants: same method, same host, and
    /// `self`'s path prefix is a prefix of `other`'s.
    pub open spec fn implies(self, other: ScopeModel) -> bool {
        &&& self.method == other.method
        &&& self.host == other.host
        &&& is_prefix_of(self.path_prefix, other.path_prefix)
    }

    /// The scope grants the request.
    pub open spec fn matches(self, req: RequestModel) -> bool {
        &&& self.method == req.method
        &&& self.host == req.host
        &&& is_prefix_of(self.path_prefix, req.path)
    }

    /// The order in which a capability lists its scopes: by method, then
    /// host, then path prefix, each text compared lexicographically.
    pub open spec fn precedes(self, other: ScopeModel) -> bool {
        ||| self.method.rank() < other.method.rank()
        ||| self.method == other.method && sorts_before(self.host, other.host)
        ||| self.method == other.method && self.host == other.host && sorts_before(
            self.path_prefix,
            other.path_prefix,
        )
    }
}

/// The scopes of `scopes`, each by what it means.
pub open spec fn meanings(scopes: Seq<Scope>) -> Seq<ScopeModel> {
    scopes.map_values(|s: Scope| s@)
}

/// Each scope precedes the next: the listing is sorted and holds no scope
/// twice.
pub open spec fn in_order(list: Seq<ScopeModel>) -> bool {
    forall|i: int, j: int| 0 <= i < j < list.len() ==> (#[trigger] list[i]).precedes(#[trigger] list[j])
}

/// One grant: a method, a host, and a path prefix.
///
/// Prefix rather than exact match because real tool surfaces are
/// hierarchical (`/v1/users/*`), and because prefixes give a clean
/// implication relation to define narrowing against.
#[derive(Debug, PartialEq, Eq, PartialOrd, Ord, Hash)]
pub struct Scope {
    pub method: Method,
    pub host: String,
    pub path_prefix: String,
}

impl View for Scope {
    type V = ScopeModel;

    open spec fn view(&self) -> ScopeModel {
        ScopeModel { method: self.method, host: self.host@, path_prefix: self.path_prefix@ }
    }
}

impl Clone for Scope {
    fn clone(&self) -> (r: Self)
        ensures
            r == *self,
    {
        Scope {
            method: self.method,
            host: self.host.clone(),
            path_prefix: self.path_prefix.clone(),
        }
    }
}

impl Scope {
    pub fn new(method: Method, host: &str, path_prefix: &str) -> (r: Self)
        ensures
            r.method == method,
            r.host@ == host@,
            r.path_prefix@ == path_prefix@,
    {
        Scope { method, host: host.to_owned(), path_prefix: path_prefix.to_owned() }
    }

    /// Does `self` grant everything `other` grants?
    ///
    /// Same method, same host, and `self`'s path prefix is a prefix of
    /// `other`'s — so `/v1/` implies `/v1/users`, but not the reverse.
    pub fn implies(&self, other: &Scope) -> (r: bool)
        ensures
            r == self@.implies(other@),
    {
        self.method == other.method && self.host == other.host && starts_with(
            other.path_prefix.as_str(),
            self.path_prefix.as_str(),
        )
    }

    pub fn matches(&self, req: &Request) -> (r: bool)
        ensures
            r == self@.matches(req@),
    {
        self.method == req.method && self.host == req.host && starts_with(
            req.path.as_str(),
            self.path_prefix.as_str(),
        )
    }

    /// Where `self` stands relative to `other` in the listing order.
    fn compare(&self, other: &Scope) -> (r: Precedence)
        ensures
            r == Precedence::Before <==> self@.precedes(other@),
            r == Precedence::Same <==> self@ == other@,
            r == Precedence::After <==> other@.precedes(self@),
    {
        proof {
            lemma_scope_order_is_strict_total(self@, other@, self@);
        }
        let a = self.method.level();
        let b = other.method.level();
        if a < b {
            return Precedence::Before;
        }
        if b < a {
            return Precedence::After;
        }
        assert(self.method == other.method) by {
            assert(self.method.rank() == other.method.rank());
        }
        match compare_text(self.host.as_str(), other.host.as_str()) {
            Precedence::Before => Precedence::Before,
            Precedence::After => Precedence::After,
            Precedence::Same => compare_text(self.path_prefix.as_str(), other.path_prefix.as_str()),
        }
    }
}

#[derive(Debug, PartialEq, Eq)]
pub struct Request {
    pub method: Method,
    pub host: String,
    pub path: String,
}

impl View for Request {
    type V = RequestModel;

    open spec fn view(&self) -> RequestModel {
        RequestModel { method: self.method, host: self.host@, path: self.path@ }
    }
}

impl Clone for Request {
    fn clone(&self) -> (r: Self)
        ensures
            r == *self,
    {
        Request { method: self.method, host: self.host.clone(), path: self.path.clone() }
    }
}

impl Request {
    pub fn new(method: Method, host: &str, path: &str) -> (r: Self)
        ensures
            r.method == method,
            r.host@ == host@,
            r.path@ == path@,
    {
        Request { method, host: host.to_owned(), path: path.to_owned() }
    }
}

/// Why a capability refused a request.
#[derive(Debug, Clone, Copy, PartialEq, Eq, Structural)]
pub enum Denial {
    /// No scope in the capability matches this request.
    OutOfScope,
    /// The capability has expired.
    Expired,
    /// The budget is exhausted.
    BudgetExhausted,
}

impl Denial {
    /// The message for this denial.
    pub open spec fn message(self) -> Seq<char> {
        match self {
            Denial::OutOfScope => "no scope in the capability matches this request"@,
            Denial::Expired => "capability expired"@,
            Denial::BudgetExhausted => "budget exhausted"@,
        }
    }

    pub fn to_string(&self) -> (r: String)
        ensures
            r@ == self.message(),
    {
        match self {
            Denial::OutOfScope => String::from_str("no scope in the capability matches this request"),
            Denial::Expired => String::from_str("capability expired"),
            Denial::BudgetExhausted => String::from_str("budget exhausted"),
        }
    }
}

/// What a capability means: a set of scopes, an expiry in Unix seconds and a
/// spend cap in micro-dollars.
#[verifier::ext_equal]
pub struct CapabilityModel {
    pub scopes: Set<ScopeModel>,
    pub expires_at: u64,
    pub budget_micros: u64,
}

/// What a narrowing request means. Every field is a ceiling, never a floor.
#[verifier::ext_equal]
pub struct AttenuationModel {
    pub restrict_to: Option<Set<ScopeModel>>,
    pub not_after: Option<u64>,
    pub budget_cap: Option<u64>,
}

impl CapabilityModel {
    /// The empty capability: no scopes, expired at time 0, no budget.
    pub open spec fn empty() -> CapabilityModel {
        CapabilityModel { scopes: Set::empty(), expires_at: 0, budget_micros: 0 }
    }

    /// Some scope of the capability grants the request.
    pub open spec fn covers(self, req: RequestModel) -> bool {
        exists|s: ScopeModel| self.scopes.contains(s) && #[trigger] s.matches(req)
    }

    /// The authorization decision at time `now` with `spent` micro-dollars
    /// already spent: expiry first, then budget, then scope.
    pub open spec fn permission(self, req: RequestModel, now: u64, spent: u64) -> Result<(), Denial> {
        if now >= self.expires_at {
            Err(Denial::Expired)
        } else if spent >= self.budget_micros {
            Err(Denial::BudgetExhausted)
        } else if !self.covers(req) {
            Err(Denial::OutOfScope)
        } else {
            Ok(())
        }
    }

    /// Some scope of the capability implies `scope`.
    pub open spec fn holds(self, scope: ScopeModel) -> bool {
        exists|e: ScopeModel| self.scopes.contains(e) && #[trigger] e.implies(scope)
    }

    /// The capability derived by `a`: requested scopes are kept only where
    /// some existing scope implies them; expiry and budget are lowered to
    /// the requested ceilings and never raised.
    pub open spec fn attenuated(self, a: AttenuationModel) -> CapabilityModel {
        CapabilityModel {
            scopes: match a.restrict_to {
                Some(requested) => requested.filter(|r: ScopeModel| self.holds(r)),
                None => self.scopes,
            },
            expires_at: match a.not_after {
                Some(t) => if t <= self.expires_at {
                    t
                } else {
                    self.expires_at
                },
                None => self.expires_at,
            },
            budget_micros: match a.budget_cap {
                Some(b) => if b <= self.budget_micros {
                    b
                } else {
                    self.budget_micros
                },
                None => self.budget_micros,
            },
        }
    }
}

/// An authority to act, as held by an agent or one of its delegates.
///
/// The scopes are kept as a set, listed in the order of
/// [`ScopeModel::precedes`], each once.
#[derive(Debug, PartialEq, Eq)]
pub struct Capability {
    scopes: Vec<Scope>,
    /// Unix seconds. Absolute rather than a duration so that attenuation is a
    /// simple `min` and cannot be gamed by a delegate resetting the clock.
    expires_at: u64,
    /// Spend cap in micro-dollars (1e-6 USD).
    budget_micros: u64,
}

impl View for Capability {
    type V = CapabilityModel;

    closed spec fn view(&self) -> CapabilityModel {
        CapabilityModel {
            scopes: meanings(self.scopes@).to_set(),
            expires_at: self.expires_at,
            budget_micros: self.budget_micros,
        }
    }
}

impl Capability {
    #[verifier::type_invariant]
    spec fn well_formed(self) -> bool {
        in_order(meanings(self.scopes@))
    }

    pub fn new(scopes: Vec<Scope>, expires_at: u64, budget_micros: u64) -> (r: Self)
        ensures
            r@ == (CapabilityModel {
                scopes: meanings(scopes@).to_set(),
                expires_at,
                budget_micros,
            }),
    {
        let listed = listing_of(&scopes);
        Capability { scopes: listed, expires_at, budget_micros }
    }

    /// The empty capability: permits nothing. What a fully attenuated token
    /// decays into, and the correct thing to fall back to on any error.
    pub fn nothing() -> (r: Self)
        ensures
            r@ == CapabilityModel::empty(),
    {
        let r = Capability { scopes: Vec::new(), expires_at: 0, budget_micros: 0 };
        assert(meanings(r.scopes@).to_set() =~= Set::<ScopeModel>::empty());
        r
    }

    /// The scopes, each once, in the order of [`ScopeModel::precedes`].
    pub fn scopes(&self) -> (r: &[Scope])
        ensures
            meanings(r@).to_set() == self@.scopes,
            in_order(meanings(r@)),
    {
        proof {
            use_type_invariant(self);
        }
        self.scopes.as_slice()
    }

    pub fn expires_at(&self) -> (r: u64)
        ensures
            r == self@.expires_at,
    {
        self.expires_at
    }

    pub fn budget_micros(&self) -> (r: u64)
        ensures
            r == self@.budget_micros,
    {
        self.budget_micros
    }

    /// The authorization decision, as taken by the broker on every tool call.
    ///
    /// `now` and `spent_micros` are passed in rather than read from ambient
    /// state so that this stays a pure function.
    pub fn permits(&self, req: &Request, now: u64, spent_micros: u64) -> (r: Result<(), Denial>)
        ensures
            r == self@.permission(req@, now, spent_micros),
    {
        if now >= self.expires_at {
            return Err(Denial::Expired);
        }
        if spent_micros >= self.budget_micros {
            return Err(Denial::BudgetExhausted);
        }
        let n = self.scopes.len();
        let mut i: usize = 0;
        while i < n
            invariant
                n == self.scopes@.len(),
                i <= n,
                now < self.expires_at,
                spent_micros < self.budget_micros,
                forall|k: int| 0 <= k < i ==> !(#[trigger] self.scopes@[k])@.matches(req@),
            decreases n - i,
        {
            if self.scopes[i].matches(req) {
                assert(meanings(self.scopes@)[i as int] == self.scopes@[i as int]@);
                assert(self@.scopes.contains(self.scopes@[i as int]@));
                assert(self.scopes@[i as int]@.matches(req@));
                return Ok(());
            }
            i = i + 1;
        }
        assert forall|s: ScopeModel| #[trigger] self@.scopes.contains(s) implies !s.matches(req@) by {
            let k = choose|k: int| 0 <= k < meanings(self.scopes@).len() && meanings(self.scopes@)[k] == s;
            assert(self.scopes@[k]@ == s);
        }
        Err(Denial::OutOfScope)
    }

    /// Some scope of this capability implies `scope`.
    fn holds(&self, scope: &Scope) -> (r: bool)
        ensures
            r == self@.holds(scope@),
    {
        let n = self.scopes.len();
        let mut i: usize = 0;
        while i < n
            invariant
                n == self.scopes@.len(),
                i <= n,
                forall|k: int| 0 <= k < i ==> !(#[trigger] self.scopes@[k])@.implies(scope@),
            decreases n - i,
        {
            if self.scopes[i].implies(scope) {
                assert(meanings(self.scopes@)[i as int] == self.scopes@[i as int]@);
                assert(meanings(self.scopes@).to_set().contains(self.scopes@[i as int]@));
                return true;
            }
            i = i + 1;
        }
        assert forall|e: ScopeModel| #[trigger] self@.scopes.contains(e) implies !e.implies(scope@) by {
            let k = choose|k: int| 0 <= k < meanings(self.scopes@).len() && meanings(self.scopes@)[k] == e;
            assert(self.scopes@[k]@ == e);
        }
        false
    }

    /// Derive a weaker capability.
    ///
    /// Every field can only move one way: requested scopes the parent does
    /// not imply are dropped rather than granted, and expiry and budget take
    /// the minimum of the parent's and the requested ceiling.
    pub fn attenuate(&self, a: &Attenuation) -> (r: Capability)
        ensures
            r@ == self@.attenuated(a@),
    {
        proof {
            use_type_invariant(self);
        }
        let scopes = match &a.restrict_to {
            Some(requested) => {
                let n = requested.len();
                let mut kept: Vec<Scope> = Vec::new();
                let mut i: usize = 0;
                assert(meanings(kept@).to_set() =~= meanings(requested@.take(0)).to_set().filter(
                    |r: ScopeModel| self@.holds(r),
                ));
                while i < n
                    invariant
                        n == requested@.len(),
                        i <= n,
                        in_order(meanings(kept@)),
                        meanings(kept@).to_set() == meanings(requested@.take(i as int)).to_set().filter(
                            |r: ScopeModel| self@.holds(r),
                        ),
                    decreases n - i,
                {
                    proof {
                        lemma_meanings_of_next_prefix(requested@, i as int);
                    }
                    if self.holds(&requested[i]) {
                        insert_in_order(&mut kept, requested[i].clone());
                    }
                    assert(meanings(kept@).to_set() =~= meanings(requested@.take(i + 1)).to_set().filter(
                        |r: ScopeModel| self@.holds(r),
                    ));
                    i = i + 1;
                }
                assert(requested@.take(n as int) =~= requested@);
                kept
            },
            None => copy_scopes(&self.scopes),
        };
        let expires_at = match a.not_after {
            Some(t) => if t <= self.expires_at {
                t
            } else {
                self.expires_at
            },
            None => self.expires_at,
        };
        let budget_micros = match a.budget_cap {
            Some(b) => if b <= self.budget_micros {
                b
            } else {
                self.budget_micros
            },
            None => self.budget_micros,
        };
        let r = Capability { scopes, expires_at, budget_micros };
        assert(r@.scopes =~= self@.attenuated(a@).scopes);
        r
    }
}

impl Clone for Capability {
    fn clone(&self) -> (r: Self)
        ensures
            r@ == self@,
    {
        proof {
            use_type_invariant(self);
        }
        Capability {
            scopes: copy_scopes(&self.scopes),
            expires_at: self.expires_at,
            budget_micros: self.budget_micros,
        }
    }
}

/// A narrowing request. Every field is a ceiling, never a floor.
///
/// Two attenuations are equal when they mean the same: the same scopes as a
/// set (whatever their order or repetition in `restrict_to`), the same
/// expiry ceiling and the same budget ceiling.
#[derive(Debug, Eq)]
pub struct Attenuation {
    /// Replace the scope set with these, keeping only what the parent implies.
    pub restrict_to: Option<Vec<Scope>>,
    /// Shorten the lifetime. Ignored if later than the parent's expiry.
    pub not_after: Option<u64>,
    /// Lower the spend cap. Ignored if higher than the parent's.
    pub budget_cap: Option<u64>,
}

impl View for Attenuation {
    type V = AttenuationModel;

    open spec fn view(&self) -> AttenuationModel {
        AttenuationModel {
            restrict_to: match self.restrict_to {
                Some(v) => Some(meanings(v@).to_set()),
                None => None,
            },
            not_after: self.not_after,
            budget_cap: self.budget_cap,
        }
    }
}

impl Attenuation {
    /// Narrows nothing.
    pub fn new() -> (r: Self)
        ensures
            r.restrict_to is None,
            r.not_after is None,
            r.budget_cap is None,
    {
        Attenuation { restrict_to: None, not_after: None, budget_cap: None }
    }

    /// Restrict to these scopes; they are kept as a set, listed in order.
    pub fn restrict_to(self, scopes: Vec<Scope>) -> (r: Self)
        ensures
            r.restrict_to is Some,
            meanings(r.restrict_to->0@).to_set() == meanings(scopes@).to_set(),
            in_order(meanings(r.restrict_to->0@)),
            r.not_after == self.not_after,
            r.budget_cap == self.budget_cap,
    {
        Attenuation {
            restrict_to: Some(listing_of(&scopes)),
            not_after: self.not_after,
            budget_cap: self.budget_cap,
        }
    }

    pub fn not_after(self, t: u64) -> (r: Self)
        ensures
            r.restrict_to == self.restrict_to,
            r.not_after == Some(t),
            r.budget_cap == self.budget_cap,
    {
        Attenuation { restrict_to: self.restrict_to, not_after: Some(t), budget_cap: self.budget_cap }
    }

    pub fn budget_cap(self, micros: u64) -> (r: Self)
        ensures
            r.restrict_to == self.restrict_to,
            r.not_after == self.not_after,
            r.budget_cap == Some(micros),
    {
        Attenuation {
            restrict_to: self.restrict_to,
            not_after: self.not_after,
            budget_cap: Some(micros),
        }
    }
}

impl PartialEq for Attenuation {
    fn eq(&self, other: &Self) -> (r: bool) {
        let same_expiry = match (self.not_after, other.not_after) {
            (None, None) => true,
            (Some(a), Some(b)) => a == b,
            _ => false,
        };
        let same_budget = match (self.budget_cap, other.budget_cap) {
            (None, None) => true,
            (Some(a), Some(b)) => a == b,
            _ => false,
        };
        let same_scopes = match (&self.restrict_to, &other.restrict_to) {
            (None, None) => true,
            (Some(a), Some(b)) => same_scope_set(a, b),
            _ => false,
        };
        same_expiry && same_budget && same_scopes
    }
}

impl PartialEqSpecImpl for Attenuation {
    open spec fn obeys_eq_spec() -> bool {
        true
    }

    open spec fn eq_spec(&self, other: &Attenuation) -> bool {
        self@ == other@
    }
}

impl Clone for Attenuation {
    fn clone(&self) -> (r: Self)
        ensures
            r.restrict_to is Some <==> self.restrict_to is Some,
            r.restrict_to is Some ==> r.restrict_to->0@ == self.restrict_to->0@,
            r.not_after == self.not_after,
            r.budget_cap == self.budget_cap,
    {
        let restrict_to = match &self.restrict_to {
            Some(scopes) => Some(copy_scopes(scopes)),
            None => None,
        };
        Attenuation { restrict_to, not_after: self.not_after, budget_cap: self.budget_cap }
    }
}

impl Default for Attenuation {
    fn default() -> (r: Self)
        ensures
            r.restrict_to is None,
            r.not_after is None,
            r.budget_cap is None,
    {
        Attenuation::new()
    }
}

/// Some scope of `scopes` means the same as `scope`.
fn lists_scope(scopes: &Vec<Scope>, scope: &Scope) -> (r: bool)
    ensures
        r == meanings(scopes@).to_set().contains(scope@),
{
    let n = scopes.len();
    let mut i: usize = 0;
    while i < n
        invariant
            n == scopes@.len(),
            i <= n,
            forall|k: int| 0 <= k < i ==> (#[trigger] scopes@[k])@ != scope@,
        decreases n - i,
    {
        match scopes[i].compare(scope) {
            Precedence::Same => {
                assert(meanings(scopes@)[i as int] == scope@);
                return true;
            },
            _ => {},
        }
        i = i + 1;
    }
    assert(!meanings(scopes@).contains(scope@)) by {
        if meanings(scopes@).contains(scope@) {
            let k = choose|k: int| 0 <= k < meanings(scopes@).len() && meanings(scopes@)[k] == scope@;
            assert(scopes@[k]@ == scope@);
        }
    }
    false
}

/// Every scope of `a` is listed in `b`.
fn scope_subset(a: &Vec<Scope>, b: &Vec<Scope>) -> (r: bool)
    ensures
        r == meanings(a@).to_set().subset_of(meanings(b@).to_set()),
{
    let n = a.len();
    let mut i: usize = 0;
    while i < n
        invariant
            n == a@.len(),
            i <= n,
            forall|k: int| 0 <= k < i ==> meanings(b@).to_set().contains(#[trigger] meanings(a@)[k]),
        decreases n - i,
    {
        if !lists_scope(b, &a[i]) {
            assert(meanings(a@)[i as int] == a@[i as int]@);
            assert(meanings(a@).to_set().contains(a@[i as int]@));
            return false;
        }
        assert(meanings(a@)[i as int] == a@[i as int]@);
        i = i + 1;
    }
    assert forall|m: ScopeModel| meanings(a@).to_set().contains(m) implies meanings(b@).to_set().contains(m) by {
        let k = choose|k: int| 0 <= k < meanings(a@).len() && meanings(a@)[k] == m;
    }
    true
}

/// `a` and `b` list the same scopes, as sets.
fn same_scope_set(a: &Vec<Scope>, b: &Vec<Scope>) -> (r: bool)
    ensures
        r == (meanings(a@).to_set() == meanings(b@).to_set()),
{
    let ab = scope_subset(a, b);
    let ba = scope_subset(b, a);
    if ab && ba {
        assert(meanings(a@).to_set() =~= meanings(b@).to_set());
        true
    } else {
        false
    }
}

/// A copy of `scopes`, element by element.
fn copy_scopes(scopes: &Vec<Scope>) -> (r: Vec<Scope>)
    ensures
        r@ == scopes@,
{
    let n = scopes.len();
    let mut r: Vec<Scope> = Vec::new();
    let mut i: usize = 0;
    while i < n
        invariant
            n == scopes@.len(),
            i <= n,
            r@ == scopes@.take(i as int),
        decreases n - i,
    {
        r.push(scopes[i].clone());
        assert(scopes@.take(i + 1) =~= scopes@.take(i as int).push(scopes@[i as int]));
        i = i + 1;
    }
    assert(scopes@.take(n as int) =~= scopes@);
    r
}

/// The scopes of `scopes` as a set, listed in order, each once.
fn listing_of(scopes: &Vec<Scope>) -> (r: Vec<Scope>)
    ensures
        in_order(meanings(r@)),
        meanings(r@).to_set() == meanings(scopes@).to_set(),
{
    let n = scopes.len();
    let mut r: Vec<Scope> = Vec::new();
    let mut i: usize = 0;
    assert(meanings(r@).to_set() =~= meanings(scopes@.take(0)).to_set());
    while i < n
        invariant
            n == scopes@.len(),
            i <= n,
            in_order(meanings(r@)),
            meanings(r@).to_set() == meanings(scopes@.take(i as int)).to_set(),
        decreases n - i,
    {
        proof {
            lemma_meanings_of_next_prefix(scopes@, i as int);
        }
        insert_in_order(&mut r, scopes[i].clone());
        i = i + 1;
    }
    assert(scopes@.take(n as int) =~= scopes@);
    r
}

/// Add `scope` to an ordered listing, at its place, unless it is there already.
fn insert_in_order(list: &mut Vec<Scope>, scope: Scope)
    requires
        in_order(meanings(old(list)@)),
    ensures
        in_order(meanings(final(list)@)),
        meanings(final(list)@).to_set() == meanings(old(list)@).to_set().insert(scope@),
{
    let n = list.len();
    let mut i: usize = 0;
    while i < n
        invariant
            n == list@.len(),
            i <= n,
            list@ == old(list)@,
            in_order(meanings(list@)),
            forall|k: int| 0 <= k < i ==> (#[trigger] list@[k])@.precedes(scope@),
        decreases n - i,
    {
        match list[i].compare(&scope) {
            Precedence::Before => {},
            Precedence::Same => {
                proof {
                    assert(meanings(list@)[i as int] == scope@);
                    assert(meanings(list@).to_set().insert(scope@) =~= meanings(list@).to_set());
                }
                return ;
            },
            Precedence::After => {
                let ghost before = list@;
                list.insert(i, scope);
                proof {
                    assert(meanings(list@) =~= meanings(before).insert(i as int, scope@));
                    lemma_insert_keeps_order(meanings(before), i as int, scope@);
                }
                return ;
            },
        }
        i = i + 1;
    }
    let ghost before = list@;
    list.push(scope);
    proof {
        assert(meanings(list@) =~= meanings(before).insert(n as int, scope@));
        lemma_insert_keeps_order(meanings(before), n as int, scope@);
    }
}

proof fn lemma_meanings_of_next_prefix(scopes: Seq<Scope>, i: int)
    requires
        0 <= i < scopes.len(),
    ensures
        meanings(scopes.take(i + 1)).to_set() == meanings(scopes.take(i)).to_set().insert(
            scopes[i]@,
        ),
{
    assert(meanings(scopes.take(i + 1)) =~= meanings(scopes.take(i)).push(scopes[i]@));
    let a = meanings(scopes.take(i + 1));
    let b = meanings(scopes.take(i));
    assert forall|m: ScopeModel| a.contains(m) <==> b.contains(m) || m == scopes[i]@ by {
        if a.contains(m) {
            let k = choose|k: int| 0 <= k < a.len() && a[k] == m;
            if k < i {
                assert(b[k] == m);
            }
        }
        if b.contains(m) {
            let k = choose|k: int| 0 <= k < b.len() && b[k] == m;
            assert(a[k] == m);
        }
        if m == scopes[i]@ {
            assert(a[i] == m);
        }
    }
    assert(a.to_set() =~= b.to_set().insert(scopes[i]@));
}

proof fn lemma_insert_keeps_order(list: Seq<ScopeModel>, i: int, x: ScopeModel)
    requires
        in_order(list),
        0 <= i <= list.len(),
        forall|k: int| 0 <= k < i ==> (#[trigger] list[k]).precedes(x),
        i < list.len() ==> x.precedes(list[i]),
    ensures
        in_order(list.insert(i, x)),
        list.insert(i, x).to_set() == list.to_set().insert(x),
{
    let w = list.insert(i, x);
    assert forall|p: int, q: int| 0 <= p < q < w.len() implies (#[trigger] w[p]).precedes(
        #[trigger] w[q],
    ) by {
        if q == i {
            assert(w[p] == list[p]);
        } else if p == i {
            assert(w[q] == list[q - 1]);
            if q - 1 > i {
                assert(list[i].precedes(list[q - 1]));
                lemma_scope_order_is_strict_total(x, list[i], list[q - 1]);
            }
        } else if p < i && q > i {
            assert(w[p] == list[p]);
            assert(w[q] == list[q - 1]);
        } else if q < i {
            assert(w[p] == list[p]);
            assert(w[q] == list[q]);
        } else {
            assert(w[p] == list[p - 1]);
            assert(w[q] == list[q - 1]);
        }
    }
    assert forall|m: ScopeModel| w.contains(m) <==> list.contains(m) || m == x by {
        if w.contains(m) {
            let k = choose|k: int| 0 <= k < w.len() && w[k] == m;
            if k < i {
                assert(list[k] == m);
            } else if k > i {
                assert(list[k - 1] == m);
            }
        }
        if list.contains(m) {
            let k = choose|k: int| 0 <= k < list.len() && list[k] == m;
            if k < i {
                assert(w[k] == m);
            } else {
                assert(w[k + 1] == m);
            }
        }
        if m == x {
            assert(w[i] == m);
        }
    }
    assert(w.to_set() =~= list.to_set().insert(x));
}

/// The listing order on scopes is a strict total order.
pub proof fn lemma_scope_order_is_strict_total(a: ScopeModel, b: ScopeModel, c: ScopeModel)
    ensures
        !a.precedes(a),
        a.precedes(b) && b.precedes(c) ==> a.precedes(c),
        a != b ==> a.precedes(b) || b.precedes(a),
        a.precedes(b) ==> !b.precedes(a),
{
    lemma_sorts_before_is_a_strict_total_order(a.host, b.host, c.host);
    lemma_sorts_before_is_a_strict_total_order(a.path_prefix, b.path_prefix, c.path_prefix);
    lemma_sorts_before_is_a_strict_total_order(b.host, a.host, c.host);
    lemma_sorts_before_is_a_strict_total_order(b.path_prefix, a.path_prefix, c.path_prefix);
    if a != b && a.method == b.method && a.host == b.host {
        assert(a.path_prefix != b.path_prefix);
    }
}


/// Scope implication is a partial order on what scopes mean: every scope
/// implies itself, implication chains, and two scopes that imply each other
/// are the same scope.
pub proof fn lemma_scope_implication_is_a_partial_order(a: ScopeModel, b: ScopeModel, c: ScopeModel)
    ensures
        a.implies(a),
        a.implies(b) && b.implies(c) ==> a.implies(c),
        a.implies(b) && b.implies(a) ==> a == b,
{
    lemma_prefix_is_a_preorder(a.path_prefix, b.path_prefix, c.path_prefix);
    if a.implies(b) && b.implies(a) {
        assert(a.path_prefix =~= b.path_prefix) by {
            assert(a.path_prefix.len() == b.path_prefix.len());
            assert(b.path_prefix.subrange(0, a.path_prefix.len() as int) =~= b.path_prefix);
        }
    }
}

/// A scope grants every request that a scope it implies grants.
pub proof fn lemma_implied_requests_are_granted(a: ScopeModel, b: ScopeModel, req: RequestModel)
    requires
        a.implies(b),
        b.matches(req),
    ensures
        a.matches(req),
{
    lemma_prefix_is_a_preorder(a.path_prefix, b.path_prefix, req.path);
}

/// A scope grants exactly the requests with its method and its host whose
/// path begins with its path prefix — a path equal to the prefix included.
/// In particular a scope grants the request for its own method, host and
/// path prefix, and every longer path under that prefix.
pub proof fn lemma_scope_grants_paths_under_its_prefix(s: ScopeModel, req: RequestModel, rest: Seq<char>)
    ensures
        s.matches(req) <==> (s.method == req.method && s.host == req.host && is_prefix_of(
            s.path_prefix,
            req.path,
        )),
        s.matches((RequestModel { method: s.method, host: s.host, path: s.path_prefix })),
        s.matches((RequestModel { method: s.method, host: s.host, path: s.path_prefix + rest })),
{
    lemma_prefix_is_a_beginning(s.path_prefix, rest, req.path);
}

/// One scope implies another exactly when it has the same method and host
/// and its path prefix begins the other's; equivalently, exactly when it
/// grants every request the other grants.
pub proof fn lemma_implication_is_request_inclusion(a: ScopeModel, b: ScopeModel)
    ensures
        a.implies(b) <==> (a.method == b.method && a.host == b.host && is_prefix_of(
            a.path_prefix,
            b.path_prefix,
        )),
        a.implies(b) <==> (forall|req: RequestModel| #[trigger] b.matches(req) ==> a.matches(req)),
{
    let own = RequestModel { method: b.method, host: b.host, path: b.path_prefix };
    lemma_scope_grants_paths_under_its_prefix(b, own, Seq::<char>::empty());
    if forall|req: RequestModel| #[trigger] b.matches(req) ==> a.matches(req) {
        assert(b.matches(own));
        assert(a.matches(own));
    }
    if a.implies(b) {
        assert forall|req: RequestModel| #[trigger] b.matches(req) implies a.matches(req) by {
            lemma_implied_requests_are_granted(a, b, req);
        }
    }
}

/// When the capability permits a request, and which denial it gives
/// otherwise, in terms of its scopes, expiry and budget: expired when `now`
/// is at or past the expiry; otherwise out of budget when `spent` has reached
/// the budget; otherwise permitted exactly when some scope has the request's
/// method and host and a path prefix that begins the request's path.
pub proof fn lemma_permission_by_its_rules(cap: CapabilityModel, req: RequestModel, now: u64, spent: u64)
    ensures
        now >= cap.expires_at ==> cap.permission(req, now, spent) == Err::<(), Denial>(
            Denial::Expired,
        ),
        now < cap.expires_at && spent >= cap.budget_micros ==> cap.permission(req, now, spent)
            == Err::<(), Denial>(Denial::BudgetExhausted),
        now < cap.expires_at && spent < cap.budget_micros ==> ((cap.permission(req, now, spent)
            == Ok::<(), Denial>(())) <==> (exists|s: ScopeModel|
            #![trigger cap.scopes.contains(s)]
            cap.scopes.contains(s) && s.method == req.method && s.host == req.host
                && is_prefix_of(s.path_prefix, req.path))),
        now < cap.expires_at && spent < cap.budget_micros ==> ((cap.permission(req, now, spent)
            == Err::<(), Denial>(Denial::OutOfScope)) <==> !(exists|s: ScopeModel|
            #![trigger cap.scopes.contains(s)]
            cap.scopes.contains(s) && s.method == req.method && s.host == req.host
                && is_prefix_of(s.path_prefix, req.path))),
{
    if exists|s: ScopeModel|
        #![trigger cap.scopes.contains(s)]
        cap.scopes.contains(s) && s.method == req.method && s.host == req.host && is_prefix_of(
            s.path_prefix,
            req.path,
        ) {
        let s = choose|s: ScopeModel|
            #![trigger cap.scopes.contains(s)]
            cap.scopes.contains(s) && s.method == req.method && s.host == req.host
                && is_prefix_of(s.path_prefix, req.path);
        assert(s.matches(req));
    }
    if cap.covers(req) {
        let s = choose|s: ScopeModel| cap.scopes.contains(s) && #[trigger] s.matches(req);
        assert(cap.scopes.contains(s));
    }
}

/// Which scopes an attenuation keeps. Without `restrict_to` the derived
/// capability has exactly the parent's scopes. With it, a scope is kept
/// exactly when it was requested and some scope of the parent has its
/// method and host and a path prefix beginning its path prefix: every such
/// requested scope is kept (in particular one the parent holds itself), and
/// nothing else is.
pub proof fn lemma_attenuation_keeps_exactly_the_held_requests(
    cap: CapabilityModel,
    a: AttenuationModel,
    r: ScopeModel,
)
    ensures
        a.restrict_to is None ==> cap.attenuated(a).scopes == cap.scopes,
        a.restrict_to is Some ==> (cap.attenuated(a).scopes.contains(r) <==> (
        a.restrict_to->0.contains(r) && exists|e: ScopeModel|
            #![trigger cap.scopes.contains(e)]
            cap.scopes.contains(e) && e.method == r.method && e.host == r.host && is_prefix_of(
                e.path_prefix,
                r.path_prefix,
            ))),
        a.restrict_to is Some && a.restrict_to->0.contains(r) && cap.scopes.contains(r)
            ==> cap.attenuated(a).scopes.contains(r),
{
    lemma_scope_implication_is_a_partial_order(r, r, r);
    if exists|e: ScopeModel|
        #![trigger cap.scopes.contains(e)]
        cap.scopes.contains(e) && e.method == r.method && e.host == r.host && is_prefix_of(
            e.path_prefix,
            r.path_prefix,
        ) {
        let e = choose|e: ScopeModel|
            #![trigger cap.scopes.contains(e)]
            cap.scopes.contains(e) && e.method == r.method && e.host == r.host && is_prefix_of(
                e.path_prefix,
                r.path_prefix,
            );
        assert(e.implies(r));
    }
    if cap.holds(r) {
        let e = choose|e: ScopeModel| cap.scopes.contains(e) && #[trigger] e.implies(r);
        assert(cap.scopes.contains(e));
    }
    if a.restrict_to is Some && a.restrict_to->0.contains(r) && cap.scopes.contains(r) {
        assert(r.implies(r));
    }
}

/// The empty capability permits nothing, at any time and any spend.
pub proof fn lemma_nothing_permits_nothing(req: RequestModel, now: u64, spent: u64)
    ensures
        !CapabilityModel::empty().covers(req),
        CapabilityModel::empty().permission(req, now, spent) is Err,
{
}

/// Attenuating by nothing is the identity: a delegation hop that narrows
/// nothing does not change the capability.
pub proof fn lemma_empty_attenuation_is_identity(cap: CapabilityModel)
    ensures
        cap.attenuated((AttenuationModel { restrict_to: None, not_after: None, budget_cap: None }))
            == cap,
{
}

/// Attenuation never widens. Every scope of a derived capability is implied
/// by a scope of its parent; its expiry and budget are at most the parent's;
/// and so every request it permits, at any time and any spend, its parent
/// permits too.
pub proof fn lemma_attenuation_never_widens(
    cap: CapabilityModel,
    a: AttenuationModel,
    req: RequestModel,
    now: u64,
    spent: u64,
)
    ensures
        forall|s: ScopeModel| #[trigger] cap.attenuated(a).scopes.contains(s) ==> cap.holds(s),
        cap.attenuated(a).expires_at <= cap.expires_at,
        cap.attenuated(a).budget_micros <= cap.budget_micros,
        (cap.attenuated(a).permission(req, now, spent) is Ok) ==> (cap.permission(
            req,
            now,
            spent,
        ) is Ok),
{
    let child = cap.attenuated(a);
    assert forall|s: ScopeModel| #[trigger] child.scopes.contains(s) implies cap.holds(s) by {
        if a.restrict_to is None {
            lemma_scope_implication_is_a_partial_order(s, s, s);
        }
    }
    if child.permission(req, now, spent) is Ok {
        let s = choose|s: ScopeModel| child.scopes.contains(s) && #[trigger] s.matches(req);
        assert(cap.holds(s));
        let e = choose|e: ScopeModel| cap.scopes.contains(e) && #[trigger] e.implies(s);
        lemma_implied_requests_are_granted(e, s, req);
        assert(cap.covers(req));
    }
}

/// The capability at the end of a delegation chain: each hop attenuates the
/// capability the previous hop produced.
pub open spec fn attenuated_by_all(cap: CapabilityModel, chain: Seq<AttenuationModel>) -> CapabilityModel
    decreases chain.len(),
{
    if chain.len() == 0 {
        cap
    } else {
        attenuated_by_all(cap, chain.drop_last()).attenuated(chain.last())
    }
}

/// Authority does not creep back over a delegation chain of any length:
/// whatever a later link permits, every earlier link (and the original
/// capability) permits too, and expiry and budget only ever shrink.
pub proof fn lemma_attenuation_chains_never_widen(
    cap: CapabilityModel,
    chain: Seq<AttenuationModel>,
    req: RequestModel,
    now: u64,
    spent: u64,
    i: int,
    j: int,
)
    requires
        0 <= i <= j <= chain.len(),
    ensures
        (attenuated_by_all(cap, chain.take(j)).permission(req, now, spent) is Ok) ==> (
        attenuated_by_all(cap, chain.take(i)).permission(req, now, spent) is Ok),
        attenuated_by_all(cap, chain.take(j)).expires_at <= attenuated_by_all(
            cap,
            chain.take(i),
        ).expires_at,
        attenuated_by_all(cap, chain.take(j)).budget_micros <= attenuated_by_all(
            cap,
            chain.take(i),
        ).budget_micros,
    decreases j - i,
{
    if i < j {
        lemma_attenuation_chains_never_widen(cap, chain, req, now, spent, i, j - 1);
        assert(chain.take(j).drop_last() =~= chain.take(j - 1));
        assert(chain.take(j).last() == chain[j - 1]);
        lemma_attenuation_never_widens(
            attenuated_by_all(cap, chain.take(j - 1)),
            chain[j - 1],
            req,
            now,
            spent,
        );
    }
}

/// An ordered listing is determined by its set: two ordered listings of the
/// same scopes are the same listing. This is why a capability (or an
/// attenuation built by [`Attenuation::restrict_to`]) holding the same scopes
/// as another holds them in the same order.
pub proof fn lemma_ordered_listing_is_unique(a: Seq<ScopeModel>, b: Seq<ScopeModel>)
    requires
        in_order(a),
        in_order(b),
        a.to_set() == b.to_set(),
    ensures
        a == b,
    decreases a.len(),
{
    if a.len() == 0 || b.len() == 0 {
        if b.len() > 0 {
            assert(b.to_set().contains(b[0]));
        }
        if a.len() > 0 {
            assert(a.to_set().contains(a[0]));
        }
        assert(a =~= b);
    } else {
        assert(a.to_set().contains(a[0]));
        assert(b.to_set().contains(b[0]));
        let k = choose|k: int| 0 <= k < b.len() && b[k] == a[0];
        let m = choose|m: int| 0 <= m < a.len() && a[m] == b[0];
        if k > 0 && m > 0 {
            assert(b[0].precedes(b[k]));
            assert(a[0].precedes(a[m]));
            lemma_scope_order_is_strict_total(a[0], b[0], a[0]);
        }
        assert(a[0] == b[0]);
        let ra = a.drop_first();
        let rb = b.drop_first();
        assert forall|x: ScopeModel| ra.contains(x) implies rb.contains(x) by {
            let p = choose|p: int| 0 <= p < ra.len() && ra[p] == x;
            assert(a[p + 1] == x);
            assert(a.to_set().contains(x));
            let q = choose|q: int| 0 <= q < b.len() && b[q] == x;
            if q == 0 {
                assert(a[0].precedes(a[p + 1]));
                lemma_scope_order_is_strict_total(x, x, x);
            } else {
                assert(rb[q - 1] == x);
            }
        }
        assert forall|x: ScopeModel| rb.contains(x) implies ra.contains(x) by {
            let p = choose|p: int| 0 <= p < rb.len() && rb[p] == x;
            assert(b[p + 1] == x);
            assert(b.to_set().contains(x));
            let q = choose|q: int| 0 <= q < a.len() && a[q] == x;
            if q == 0 {
                assert(b[0].precedes(b[p + 1]));
                lemma_scope_order_is_strict_total(x, x, x);
            } else {
                assert(ra[q - 1] == x);
            }
        }
        assert(ra.to_set() =~= rb.to_set());
        assert forall|i: int, j: int| 0 <= i < j < ra.len() implies (#[trigger] ra[i]).precedes(
            #[trigger] ra[j],
        ) by {
            assert(a[i + 1].precedes(a[j + 1]));
        }
        assert forall|i: int, j: int| 0 <= i < j < rb.len() implies (#[trigger] rb[i]).precedes(
            #[trigger] rb[j],
        ) by {
            assert(b[i + 1].precedes(b[j + 1]));
        }
        lemma_ordered_listing_is_unique(ra, rb);
        assert(a.len() == b.len());
        assert(a =~= b) by {
            assert forall|i: int| 0 <= i < a.len() implies a[i] == b[i] by {
                if i > 0 {
                    assert(a[i] == ra[i - 1]);
                    assert(b[i] == rb[i - 1]);
                }
            }
        }
    }
}

} // verus!
