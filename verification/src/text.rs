//! The two relations on text that scopes are built from: "is a prefix of",
//! which gives path prefixes their implication order, and the
//! lexicographic order by code point, which is the order in which a
//! capability keeps its scopes.

use vstd::prelude::*;
use vstd::std_specs::iter::IteratorSpec;

verus! {

/// `prefix` is an initial segment of `text`.
pub open spec fn is_prefix_of(prefix: Seq<char>, text: Seq<char>) -> bool {
    prefix.len() <= text.len() && text.subrange(0, prefix.len() as int) == prefix
}

/// Strict lexicographic order by code point: `a` sorts before `b`.
///
/// For valid UTF-8 this is the order in which std compares `String`s, since
/// UTF-8 preserves the order of code points.
pub open spec fn sorts_before(a: Seq<char>, b: Seq<char>) -> bool
    decreases a.len(),
{
    if b.len() == 0 {
        false
    } else if a.len() == 0 {
        true
    } else if a[0] != b[0] {
        (a[0] as int) < (b[0] as int)
    } else {
        sorts_before(a.drop_first(), b.drop_first())
    }
}

/// The outcome of comparing two values in a strict total order.
#[derive(Debug, Clone, Copy, PartialEq, Eq, Structural)]
pub enum Precedence {
    Before,
    Same,
    After,
}

/// `is_prefix_of` is reflexive and transitive.
pub proof fn lemma_prefix_is_a_preorder(a: Seq<char>, b: Seq<char>, c: Seq<char>)
    ensures
        is_prefix_of(a, a),
        is_prefix_of(a, b) && is_prefix_of(b, c) ==> is_prefix_of(a, c),
{
    assert(a.subrange(0, a.len() as int) =~= a);
    if is_prefix_of(a, b) && is_prefix_of(b, c) {
        assert(c.subrange(0, a.len() as int) =~= b.subrange(0, a.len() as int));
    }
}

/// A prefix is exactly what a text can be split into, followed by the rest:
/// every text is prefixed by each of its own beginnings, including itself
/// and the empty text, and a text longer than another is no prefix of it.
pub proof fn lemma_prefix_is_a_beginning(p: Seq<char>, q: Seq<char>, t: Seq<char>)
    ensures
        is_prefix_of(p, p + q),
        is_prefix_of(p, p),
        is_prefix_of(Seq::<char>::empty(), t),
        is_prefix_of(p, t) ==> t == p + t.skip(p.len() as int),
        p.len() > t.len() ==> !is_prefix_of(p, t),
{
    assert((p + q).subrange(0, p.len() as int) =~= p);
    assert(p.subrange(0, p.len() as int) =~= p);
    assert(t.subrange(0, 0) =~= Seq::<char>::empty());
    if is_prefix_of(p, t) {
        assert(t =~= p + t.skip(p.len() as int));
    }
}

/// `sorts_before` is a strict total order: irreflexive, transitive, and any
/// two distinct texts are ordered one way or the other.
pub proof fn lemma_sorts_before_is_a_strict_total_order(a: Seq<char>, b: Seq<char>, c: Seq<char>)
    ensures
        !sorts_before(a, a),
        sorts_before(a, b) && sorts_before(b, c) ==> sorts_before(a, c),
        a != b ==> sorts_before(a, b) || sorts_before(b, a),
        sorts_before(a, b) ==> !sorts_before(b, a),
{
    lemma_sorts_before_irreflexive(a);
    lemma_sorts_before_transitive(a, b, c);
    lemma_sorts_before_transitive(a, b, a);
    lemma_sorts_before_total(a, b);
}

proof fn lemma_sorts_before_irreflexive(a: Seq<char>)
    ensures
        !sorts_before(a, a),
    decreases a.len(),
{
    if a.len() > 0 {
        lemma_sorts_before_irreflexive(a.drop_first());
    }
}

proof fn lemma_sorts_before_transitive(a: Seq<char>, b: Seq<char>, c: Seq<char>)
    ensures
        sorts_before(a, b) && sorts_before(b, c) ==> sorts_before(a, c),
    decreases a.len(),
{
    if a.len() > 0 && b.len() > 0 && c.len() > 0 && a[0] == b[0] && b[0] == c[0] {
        lemma_sorts_before_transitive(a.drop_first(), b.drop_first(), c.drop_first());
    }
}

proof fn lemma_sorts_before_total(a: Seq<char>, b: Seq<char>)
    ensures
        a != b ==> sorts_before(a, b) || sorts_before(b, a),
    decreases a.len(),
{
    if a.len() > 0 && b.len() > 0 && a[0] == b[0] {
        lemma_sorts_before_total(a.drop_first(), b.drop_first());
        if a.drop_first() == b.drop_first() {
            assert(a =~= seq![a[0]] + a.drop_first());
            assert(b =~= seq![b[0]] + b.drop_first());
        }
    } else if a.len() == 0 && b.len() == 0 {
        assert(a =~= b);
    }
}

/// After a common prefix of length `i`, the order is decided by what follows.
proof fn lemma_sorts_before_after_common_prefix(a: Seq<char>, b: Seq<char>, i: int)
    requires
        0 <= i <= a.len(),
        i <= b.len(),
        a.subrange(0, i) == b.subrange(0, i),
    ensures
        sorts_before(a, b) == sorts_before(a.skip(i), b.skip(i)),
    decreases i,
{
    if i > 0 {
        assert(a[0] == a.subrange(0, i)[0]);
        assert(b[0] == b.subrange(0, i)[0]);
        assert(a.drop_first().subrange(0, i - 1) =~= a.subrange(0, i).drop_first());
        assert(b.drop_first().subrange(0, i - 1) =~= b.subrange(0, i).drop_first());
        lemma_sorts_before_after_common_prefix(a.drop_first(), b.drop_first(), i - 1);
        assert(a.drop_first().skip(i - 1) =~= a.skip(i));
        assert(b.drop_first().skip(i - 1) =~= b.skip(i));
    } else {
        assert(a.skip(0) =~= a);
        assert(b.skip(0) =~= b);
    }
}

/// Does `text` begin with `prefix`? One pass over both.
pub(crate) fn starts_with(text: &str, prefix: &str) -> (r: bool)
    ensures
        r == is_prefix_of(prefix@, text@),
{
    let mut rest_of_prefix = prefix.chars();
    let mut rest_of_text = text.chars();
    let ghost mut k: int = 0;
    assert(prefix@.skip(0) =~= prefix@);
    assert(text@.skip(0) =~= text@);
    loop
        invariant
            0 <= k <= prefix@.len(),
            rest_of_prefix.remaining() == prefix@.skip(k),
            k <= text@.len(),
            rest_of_text.remaining() == text@.skip(k),
            prefix@.subrange(0, k) == text@.subrange(0, k),
        decreases prefix@.len() - k,
    {
        match rest_of_prefix.next() {
            None => {
                assert(prefix@.len() == k);
                assert(prefix@.subrange(0, k) =~= prefix@);
                return true;
            },
            Some(c) => {
                match rest_of_text.next() {
                    None => {
                        assert(text@.len() == k);
                        return false;
                    },
                    Some(d) => {
                        if c != d {
                            proof {
                                assert(prefix@[k] == c);
                                assert(text@[k] == d);
                                if prefix@.len() <= text@.len() {
                                    assert(text@.subrange(0, prefix@.len() as int)[k] == d);
                                }
                            }
                            return false;
                        }
                        assert(prefix@.subrange(0, k + 1) =~= prefix@.subrange(0, k).push(c));
                        assert(text@.subrange(0, k + 1) =~= text@.subrange(0, k).push(d));
                        assert(prefix@.skip(k).drop_first() =~= prefix@.skip(k + 1));
                        assert(text@.skip(k).drop_first() =~= text@.skip(k + 1));
                        proof {
                            k = k + 1;
                        }
                    },
                }
            },
        }
    }
}

/// Compare two texts in the order `sorts_before`.
pub(crate) fn compare_text(a: &str, b: &str) -> (r: Precedence)
    ensures
        r == Precedence::Before <==> sorts_before(a@, b@),
        r == Precedence::Same <==> a@ == b@,
        r == Precedence::After <==> sorts_before(b@, a@),
{
    proof {
        lemma_sorts_before_is_a_strict_total_order(a@, b@, a@);
    }
    let n = a.unicode_len();
    let m = b.unicode_len();
    let mut i: usize = 0;
    while i < n && i < m
        invariant
            i <= n,
            i <= m,
            n == a@.len(),
            m == b@.len(),
            a@.subrange(0, i as int) == b@.subrange(0, i as int),
        decreases n - i,
    {
        let x = a.get_char(i);
        let y = b.get_char(i);
        if x != y {
            proof {
                lemma_sorts_before_after_common_prefix(a@, b@, i as int);
                lemma_sorts_before_after_common_prefix(b@, a@, i as int);
                assert(a@.skip(i as int)[0] == x);
                assert(b@.skip(i as int)[0] == y);
            }
            if x < y {
                return Precedence::Before;
            } else {
                return Precedence::After;
            }
        }
        assert(a@.subrange(0, i + 1) =~= a@.subrange(0, i as int).push(x));
        assert(b@.subrange(0, i + 1) =~= b@.subrange(0, i as int).push(y));
        i = i + 1;
    }
    proof {
        lemma_sorts_before_after_common_prefix(a@, b@, i as int);
        lemma_sorts_before_after_common_prefix(b@, a@, i as int);
    }
    if n == m {
        assert(a@ =~= a@.subrange(0, i as int));
        assert(b@ =~= b@.subrange(0, i as int));
        Precedence::Same
    } else if n < m {
        assert(a@.skip(i as int).len() == 0);
        Precedence::Before
    } else {
        assert(b@.skip(i as int).len() == 0);
        assert(a@.skip(i as int).len() > 0);
        Precedence::After
    }
}

} // verus!
