use airlock_core::{Attenuation, Capability, Denial, Method, Request, Scope};

fn cap() -> Capability {
    Capability::new(
        vec![
            Scope::new(Method::Get, "api.internal", "/v1/"),
            Scope::new(Method::Post, "api.internal", "/v1/tickets"),
        ],
        1_000,
        50_000,
    )
}

#[test]
fn attenuation_cannot_widen_scope() {
    // Ask for something the parent never held.
    let child = cap().attenuate(&Attenuation::new().restrict_to(vec![Scope::new(
        Method::Delete,
        "api.internal",
        "/v1/",
    )]));
    let req = Request::new(Method::Delete, "api.internal", "/v1/users/1");
    assert_eq!(child.permits(&req, 0, 0), Err(Denial::OutOfScope));
    assert_eq!(child.scopes().iter().count(), 0);
}

#[test]
fn attenuation_narrows_path_prefix() {
    let child = cap().attenuate(&Attenuation::new().restrict_to(vec![Scope::new(
        Method::Get,
        "api.internal",
        "/v1/users",
    )]));
    assert!(child
        .permits(&Request::new(Method::Get, "api.internal", "/v1/users/1"), 0, 0)
        .is_ok());
    // Sibling paths the parent allowed are now gone.
    assert_eq!(
        child.permits(&Request::new(Method::Get, "api.internal", "/v1/orders"), 0, 0),
        Err(Denial::OutOfScope)
    );
}

#[test]
fn ttl_and_budget_only_shrink() {
    let child = cap().attenuate(&Attenuation::new().not_after(9_999).budget_cap(9_999_999));
    assert_eq!(child.expires_at(), 1_000, "expiry must not extend past the parent");
    assert_eq!(child.budget_micros(), 50_000, "budget must not exceed the parent");
}

#[test]
fn empty_capability_permits_nothing() {
    let req = Request::new(Method::Get, "api.internal", "/v1/users");
    assert!(Capability::nothing().permits(&req, 0, 0).is_err());
}

// ------------------------------------------------------------------ more cases

#[test]
fn each_denial_has_its_input() {
    let c = cap();
    let get = Request::new(Method::Get, "api.internal", "/v1/users");
    assert_eq!(c.permits(&get, 0, 0), Ok(()));
    // Expiry is checked first, then budget, then scope.
    assert_eq!(c.permits(&get, 1_000, 0), Err(Denial::Expired));
    assert_eq!(c.permits(&get, 999, 50_000), Err(Denial::BudgetExhausted));
    assert_eq!(c.permits(&get, 999, 49_999), Ok(()));
    let other_host = Request::new(Method::Get, "evil.example", "/v1/users");
    assert_eq!(c.permits(&other_host, 0, 0), Err(Denial::OutOfScope));
    let other_method = Request::new(Method::Delete, "api.internal", "/v1/users");
    assert_eq!(c.permits(&other_method, 0, 0), Err(Denial::OutOfScope));
    assert_eq!(c.permits(&other_method, 2_000, 90_000), Err(Denial::Expired));
    assert_eq!(c.permits(&other_method, 0, 90_000), Err(Denial::BudgetExhausted));
    let outside_prefix = Request::new(Method::Get, "api.internal", "/v2/users");
    assert_eq!(c.permits(&outside_prefix, 0, 0), Err(Denial::OutOfScope));
    let shorter_than_prefix = Request::new(Method::Get, "api.internal", "/v1");
    assert_eq!(c.permits(&shorter_than_prefix, 0, 0), Err(Denial::OutOfScope));
}

#[test]
fn nothing_is_empty() {
    let n = Capability::nothing();
    assert_eq!(n.scopes().len(), 0);
    assert_eq!(n.expires_at(), 0);
    assert_eq!(n.budget_micros(), 0);
    let req = Request::new(Method::Get, "api.internal", "/v1/users");
    assert_eq!(n.permits(&req, 0, 0), Err(Denial::Expired));
}

#[test]
fn scope_implication_is_by_prefix() {
    let v1 = Scope::new(Method::Get, "api.internal", "/v1/");
    let users = Scope::new(Method::Get, "api.internal", "/v1/users");
    assert!(v1.implies(&users));
    assert!(!users.implies(&v1));
    assert!(v1.implies(&v1));
    assert!(!v1.implies(&Scope::new(Method::Post, "api.internal", "/v1/users")));
    assert!(!v1.implies(&Scope::new(Method::Get, "api.other", "/v1/users")));
    let empty = Scope::new(Method::Get, "api.internal", "");
    assert!(empty.implies(&v1));
    assert!(empty.matches(&Request::new(Method::Get, "api.internal", "")));
}

#[test]
fn scopes_are_a_sorted_set() {
    // Out of order and with a duplicate: kept once each, in order.
    let c = Capability::new(
        vec![
            Scope::new(Method::Post, "b.example", "/x"),
            Scope::new(Method::Get, "b.example", "/y"),
            Scope::new(Method::Get, "a.example", "/z"),
            Scope::new(Method::Post, "b.example", "/x"),
            Scope::new(Method::Get, "b.example", "/"),
        ],
        10,
        10,
    );
    let listed: Vec<(Method, String, String)> = c
        .scopes()
        .iter()
        .map(|s| (s.method, s.host.clone(), s.path_prefix.clone()))
        .collect();
    let mut expected: Vec<(Method, String, String)> = vec![
        (Method::Get, "a.example".to_string(), "/z".to_string()),
        (Method::Get, "b.example".to_string(), "/".to_string()),
        (Method::Get, "b.example".to_string(), "/y".to_string()),
        (Method::Post, "b.example".to_string(), "/x".to_string()),
    ];
    assert_eq!(listed, expected);
    // The same order std gives.
    expected.sort();
    assert_eq!(listed, expected);

    // The same scopes in another order make an equal capability.
    let d = Capability::new(
        vec![
            Scope::new(Method::Get, "b.example", "/"),
            Scope::new(Method::Get, "a.example", "/z"),
            Scope::new(Method::Post, "b.example", "/x"),
            Scope::new(Method::Get, "b.example", "/y"),
        ],
        10,
        10,
    );
    assert_eq!(c, d);
}

#[test]
fn scope_order_follows_code_points() {
    let c = Capability::new(
        vec![
            Scope::new(Method::Get, "é.example", "/"),
            Scope::new(Method::Get, "z.example", "/"),
            Scope::new(Method::Get, "Z.example", "/"),
            Scope::new(Method::Get, "z.example", "/ü"),
        ],
        10,
        10,
    );
    let hosts: Vec<String> = c.scopes().iter().map(|s| format!("{}{}", s.host, s.path_prefix)).collect();
    assert_eq!(
        hosts,
        vec!["Z.example/", "z.example/", "z.example/ü", "é.example/"]
    );
    assert!(c
        .permits(&Request::new(Method::Get, "z.example", "/über"), 0, 0)
        .is_ok());
    assert_eq!(
        c.permits(&Request::new(Method::Get, "z.example", "/u"), 0, 0),
        Ok(())
    );
}

#[test]
fn restrict_to_keeps_a_sorted_set() {
    let a = Attenuation::new().restrict_to(vec![
        Scope::new(Method::Post, "api.internal", "/v1/tickets"),
        Scope::new(Method::Get, "api.internal", "/v1/users"),
        Scope::new(Method::Post, "api.internal", "/v1/tickets"),
    ]);
    let b = Attenuation::new().restrict_to(vec![
        Scope::new(Method::Get, "api.internal", "/v1/users"),
        Scope::new(Method::Post, "api.internal", "/v1/tickets"),
    ]);
    assert_eq!(a, b);
    assert_eq!(a.restrict_to.as_ref().map(|v| v.len()), Some(2));
    assert_eq!(a.not_after, None);
    assert_eq!(a.budget_cap, None);
    let c = Attenuation::new().budget_cap(5).not_after(7);
    assert_eq!(c.budget_cap, Some(5));
    assert_eq!(c.not_after, Some(7));
    assert_eq!(c.restrict_to, None);
    assert_eq!(Attenuation::default(), Attenuation::new());
}

#[test]
fn attenuation_takes_the_minimum() {
    let child = cap().attenuate(&Attenuation::new().not_after(10).budget_cap(20));
    assert_eq!(child.expires_at(), 10);
    assert_eq!(child.budget_micros(), 20);
    assert_eq!(child.scopes().len(), 2);
    let same = cap().attenuate(&Attenuation::new().not_after(1_000).budget_cap(50_000));
    assert_eq!(same, cap());
}

#[test]
fn attenuation_keeps_only_implied_scopes() {
    let child = cap().attenuate(&Attenuation::new().restrict_to(vec![
        Scope::new(Method::Get, "api.internal", "/v1/users"),
        Scope::new(Method::Get, "api.internal", "/"),
        Scope::new(Method::Post, "api.internal", "/v1/tickets/new"),
        Scope::new(Method::Post, "api.internal", "/v1/"),
    ]));
    let kept: Vec<(Method, String)> = child
        .scopes()
        .iter()
        .map(|s| (s.method, s.path_prefix.clone()))
        .collect();
    assert_eq!(
        kept,
        vec![
            (Method::Get, "/v1/users".to_string()),
            (Method::Post, "/v1/tickets/new".to_string())
        ]
    );
    assert_eq!(child.expires_at(), 1_000);
    assert_eq!(child.budget_micros(), 50_000);
}

#[test]
fn empty_attenuation_is_identity() {
    let c = cap();
    assert_eq!(c.attenuate(&Attenuation::new()), c);
    assert_eq!(Capability::nothing().attenuate(&Attenuation::new()), Capability::nothing());
    assert_eq!(c.clone(), c);
}

fn methods() -> Vec<Method> {
    vec![Method::Get, Method::Post, Method::Put, Method::Patch, Method::Delete]
}

fn hosts() -> Vec<&'static str> {
    vec!["api.internal", "hooks.example", "evil.example"]
}

fn paths() -> Vec<&'static str> {
    vec!["/", "/v1/", "/v1/users", "/v1/users/42", "/v1/orders", "/v2/"]
}

fn all_scopes() -> Vec<Scope> {
    let mut out = Vec::new();
    for m in methods() {
        for h in hosts() {
            for p in paths() {
                out.push(Scope::new(m, h, p));
            }
        }
    }
    out
}

fn all_requests() -> Vec<Request> {
    all_scopes()
        .into_iter()
        .map(|s| Request::new(s.method, &s.host, &s.path_prefix))
        .collect()
}

/// A small deterministic generator, so the cases are the same on every run.
struct Draw(u64);

impl Draw {
    fn next(&mut self, n: usize) -> usize {
        self.0 = self.0.wrapping_mul(6364136223846793005).wrapping_add(1442695040888963407);
        ((self.0 >> 33) as usize) % n
    }

    fn scopes(&mut self, pool: &[Scope]) -> Vec<Scope> {
        let k = self.next(6);
        (0..k).map(|_| pool[self.next(pool.len())].clone()).collect()
    }

    fn capability(&mut self, pool: &[Scope]) -> Capability {
        let scopes = self.scopes(pool);
        Capability::new(scopes, self.next(2_000) as u64, self.next(100_000) as u64)
    }

    fn attenuation(&mut self, pool: &[Scope]) -> Attenuation {
        let mut a = Attenuation::new();
        if self.next(2) == 0 {
            a = a.restrict_to(self.scopes(pool));
        }
        if self.next(2) == 0 {
            a = a.not_after(self.next(2_000) as u64);
        }
        if self.next(2) == 0 {
            a = a.budget_cap(self.next(100_000) as u64);
        }
        a
    }
}

#[test]
fn attenuation_never_widens_on_many_cases() {
    let pool = all_scopes();
    let reqs = all_requests();
    let mut draw = Draw(7);
    for _ in 0..300 {
        let parent = draw.capability(&pool);
        let att = draw.attenuation(&pool);
        let child = parent.attenuate(&att);
        assert!(child.expires_at() <= parent.expires_at());
        assert!(child.budget_micros() <= parent.budget_micros());
        for req in &reqs {
            let now = draw.next(2_000) as u64;
            let spent = draw.next(100_000) as u64;
            if child.permits(req, now, spent).is_ok() {
                assert!(parent.permits(req, now, spent).is_ok());
            }
        }
    }
}

#[test]
fn attenuation_chains_never_widen_on_many_cases() {
    let pool = all_scopes();
    let reqs = all_requests();
    let mut draw = Draw(11);
    for _ in 0..60 {
        let root = draw.capability(&pool);
        let mut current = root.clone();
        let hops = 1 + draw.next(7);
        for _ in 0..hops {
            let next = current.attenuate(&draw.attenuation(&pool));
            for req in &reqs {
                if next.permits(req, 0, 0).is_ok() {
                    assert!(current.permits(req, 0, 0).is_ok());
                    assert!(root.permits(req, 0, 0).is_ok());
                }
            }
            current = next;
        }
    }
}

#[test]
fn denial_messages() {
    assert_eq!(
        Denial::OutOfScope.to_string(),
        "no scope in the capability matches this request"
    );
    assert_eq!(Denial::Expired.to_string(), "capability expired");
    assert_eq!(Denial::BudgetExhausted.to_string(), "budget exhausted");
}

#[test]
fn attenuation_equality_compares_scope_sets() {
    let mut a = Attenuation::new();
    a.restrict_to = Some(vec![
        Scope::new(Method::Post, "api.internal", "/v1/tickets"),
        Scope::new(Method::Get, "api.internal", "/v1/users"),
        Scope::new(Method::Post, "api.internal", "/v1/tickets"),
    ]);
    let mut b = Attenuation::new();
    b.restrict_to = Some(vec![
        Scope::new(Method::Get, "api.internal", "/v1/users"),
        Scope::new(Method::Post, "api.internal", "/v1/tickets"),
    ]);
    assert_eq!(a, b);
    b.restrict_to = Some(vec![Scope::new(Method::Get, "api.internal", "/v1/users")]);
    assert_ne!(a, b);
    let mut c = Attenuation::new();
    c.restrict_to = Some(vec![]);
    assert_ne!(c, Attenuation::new());
    assert_ne!(Attenuation::new().not_after(3), Attenuation::new());
    assert_ne!(Attenuation::new().budget_cap(3), Attenuation::new().budget_cap(4));
    assert_eq!(Attenuation::new().budget_cap(3), Attenuation::new().budget_cap(3));
}

#[test]
fn prefix_check_on_long_and_unicode_paths() {
    let s = Scope::new(Method::Get, "h", "/ä/ö/");
    assert!(s.matches(&Request::new(Method::Get, "h", "/ä/ö/ü")));
    assert!(!s.matches(&Request::new(Method::Get, "h", "/ä/o/ü")));
    assert!(!s.matches(&Request::new(Method::Get, "h", "/ä/ö")));
    let long = "/x".repeat(500);
    let s = Scope::new(Method::Get, "h", &long);
    assert!(s.matches(&Request::new(Method::Get, "h", &format!("{long}/tail"))));
}
