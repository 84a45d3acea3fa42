//! The grammar core: rules, symbols, and the structural operations that keep
//! the rule graph consistent.
//!
//! Symbols and rules live in arenas and refer to each other by index. Each
//! rule's body is a circular, doubly-linked list of symbols closed by the
//! rule's guard symbol; the ghost `body` map holds, for every rule, the
//! sequence of its body symbol indices in list order, and the well-formedness
//! invariant ties the links to that sequence.

use vstd::prelude::*;

use crate::text::chars_to_string;
use crate::text::dec_digits;
use crate::text::push_dec_digits;
use crate::text::push_escaped;
use crate::text::render_tokens;

verus! {

/// What one symbol carries: the guard marker of its owning rule, a reference
/// to another rule, or a terminal token held in the grammar's token arena.
#[derive(Clone, Copy)]
pub enum Payload {
    Guard(usize),
    Nonterminal(usize),
    Terminal(usize),
}

/// The mathematical value of a payload, with token indices resolved to the
/// token text.
pub enum PayloadV {
    Guard(int),
    Nonterminal(int),
    Terminal(Seq<char>),
}

/// A node of a rule's circular body. A detached node (spliced out, or the
/// guard of a deleted rule) has all three fields cleared.
#[derive(Clone, Copy)]
pub struct Symbol {
    pub left: Option<usize>,
    pub right: Option<usize>,
    pub payload: Option<Payload>,
}

/// A production rule: a display identifier, the index of its guard symbol,
/// and the indices of every live symbol in the grammar whose payload
/// references this rule.
pub struct Rule {
    pub id: u64,
    pub guard: usize,
    pub refs: Vec<usize>,
}

/// A grammar: arenas of symbols, rules and tokens, plus the ghost body
/// sequence of each rule.
pub struct Grammar {
    pub syms: Vec<Symbol>,
    pub rules: Vec<Rule>,
    pub tokens: Vec<Vec<char>>,
    pub body: Ghost<Map<int, Seq<int>>>,
}

impl Grammar {
    pub open spec fn n_syms(self) -> int {
        self.syms@.len() as int
    }

    pub open spec fn n_rules(self) -> int {
        self.rules@.len() as int
    }

    pub open spec fn guard_of(self, r: int) -> int {
        self.rules@[r].guard as int
    }

    pub open spec fn rule_id(self, r: int) -> u64 {
        self.rules@[r].id
    }

    pub open spec fn refs_of(self, r: int) -> Seq<usize> {
        self.rules@[r].refs@
    }

    /// Number of live references to rule `r`.
    pub open spec fn refcount_of(self, r: int) -> int {
        self.refs_of(r).len() as int
    }

    /// The rule is usable: its guard symbol carries the guard marker naming it.
    pub open spec fn alive(self, r: int) -> bool {
        &&& 0 <= r < self.n_rules()
        &&& 0 <= self.guard_of(r) < self.n_syms()
        &&& self.syms@[self.guard_of(r)].payload == Some(Payload::Guard(r as usize))
    }

    /// The body of rule `r`: its content symbol indices, in list order.
    pub open spec fn bod(self, r: int) -> Seq<int> {
        self.body@[r]
    }

    /// The guard, then the body symbols: the full circle, in list order.
    pub open spec fn ring(self, r: int) -> Seq<int> {
        seq![self.guard_of(r)] + self.bod(r)
    }

    /// The links at ring position `i` point at the cyclic neighbors.
    pub open spec fn linked_at(self, r: int, i: int) -> bool {
        let rg = self.ring(r);
        &&& self.syms@[rg[i]].right == Some(
            (if i + 1 == rg.len() {
                rg[0]
            } else {
                rg[i + 1]
            }) as usize,
        )
        &&& self.syms@[rg[i]].left == Some(
            (if i == 0 {
                rg[rg.len() - 1]
            } else {
                rg[i - 1]
            }) as usize,
        )
    }

    /// Body entry `i` of rule `r` is a valid content symbol: in range, not the
    /// guard, and carrying either a token of the arena or a live rule.
    pub open spec fn entry_ok(self, r: int, i: int) -> bool {
        let s = self.bod(r)[i];
        &&& 0 <= s < self.n_syms()
        &&& s != self.guard_of(r)
        &&& match self.syms@[s].payload {
            Some(Payload::Guard(_)) => false,
            Some(Payload::Nonterminal(q)) => self.alive(q as int),
            Some(Payload::Terminal(t)) => t < self.tokens@.len(),
            None => false,
        }
    }

    pub open spec fn rule_wf(self, r: int) -> bool {
        &&& self.body@.contains_key(r)
        &&& forall|i: int| 0 <= i < self.bod(r).len() ==> #[trigger] self.entry_ok(r, i)
        &&& forall|i: int| 0 <= i < self.ring(r).len() ==> #[trigger] self.linked_at(r, i)
    }

    /// Symbol `s` stands at position `i` of rule `r`'s body.
    pub open spec fn located(self, s: int, r: int, i: int) -> bool {
        &&& self.alive(r)
        &&& 0 <= i < self.bod(r).len()
        &&& self.bod(r)[i] == s
    }

    /// Symbol `s` stands in some live rule's body.
    pub open spec fn in_body(self, s: int) -> bool {
        exists|r: int, i: int| self.located(s, r, i)
    }

    /// The (rule, position) of a body symbol; well defined under `wf`.
    pub open spec fn loc_of(self, s: int) -> (int, int) {
        choose|r: int, i: int| self.located(s, r, i)
    }

    pub open spec fn loc_rule(self, s: int) -> int {
        self.loc_of(s).0
    }

    pub open spec fn loc_pos(self, s: int) -> int {
        self.loc_of(s).1
    }

    /// The mathematical value of an exec payload in this grammar.
    pub open spec fn pay_of(self, p: Payload) -> PayloadV {
        match p {
            Payload::Guard(r) => PayloadV::Guard(r as int),
            Payload::Nonterminal(q) => PayloadV::Nonterminal(q as int),
            Payload::Terminal(t) => PayloadV::Terminal(self.tokens@[t as int]@),
        }
    }

    /// The payload view of symbol `s`.
    pub open spec fn pay(self, s: int) -> PayloadV {
        match self.syms@[s].payload {
            Some(p) => self.pay_of(p),
            None => arbitrary(),
        }
    }

    /// The contents of rule `r`: the payload of each body symbol, in order.
    pub open spec fn payloads(self, r: int) -> Seq<PayloadV> {
        Seq::new(self.bod(r).len() as nat, |i: int| self.pay(self.bod(r)[i]))
    }

    /// Symbol `s` carries a reference to rule `t`.
    pub open spec fn is_nt_to(self, s: int, t: int) -> bool {
        match self.syms@[s].payload {
            Some(Payload::Nonterminal(q)) => q as int == t,
            _ => false,
        }
    }

    /// Reference entry `k` of rule `t` is a live body symbol referencing `t`.
    pub open spec fn ref_entry_ok(self, t: int, k: int) -> bool {
        let s = self.refs_of(t)[k] as int;
        &&& 0 <= s < self.n_syms()
        &&& self.is_nt_to(s, t)
        &&& self.in_body(s)
    }

    pub open spec fn refs_wf(self, t: int) -> bool {
        &&& forall|k: int| 0 <= k < self.refs_of(t).len() ==> #[trigger] self.ref_entry_ok(t, k)
        &&& forall|k1: int, k2: int|
            0 <= k1 < k2 < self.refs_of(t).len() ==> self.refs_of(t)[k1] != self.refs_of(t)[k2]
    }

    /// A symbol stands in at most one body, at one position.
    pub open spec fn bodies_disjoint(self) -> bool {
        forall|s: int, r1: int, i1: int, r2: int, i2: int|
            #[trigger] self.located(s, r1, i1) && #[trigger] self.located(s, r2, i2) ==> r1 == r2
                && i1 == i2
    }

    /// Guards are distinct and stand in no body.
    pub open spec fn guards_separate(self) -> bool {
        &&& forall|r1: int, r2: int|
            #[trigger] self.alive(r1) && #[trigger] self.alive(r2) && r1 != r2 ==> self.guard_of(
                r1,
            ) != self.guard_of(r2)
        &&& forall|r1: int, s: int, r2: int, i: int|
            #[trigger] self.alive(r1) && #[trigger] self.located(s, r2, i) ==> s != self.guard_of(
                r1,
            )
    }

    /// Every live symbol referencing rule `t` is recorded in `t`'s references.
    pub open spec fn refs_complete(self) -> bool {
        forall|t: int, s: int, r: int, i: int|
            self.alive(t) && #[trigger] self.located(s, r, i) && #[trigger] self.is_nt_to(s, t)
                ==> self.refs_of(t).contains(s as usize)
    }

    /// The whole-grammar invariant.
    pub open spec fn wf(self) -> bool {
        &&& forall|r: int| #[trigger] self.alive(r) ==> self.rule_wf(r)
        &&& forall|t: int| #[trigger] self.alive(t) ==> self.refs_wf(t)
        &&& self.bodies_disjoint()
        &&& self.guards_separate()
        &&& self.refs_complete()
    }

    /// The first body symbol of rule `r`, or the guard when the body is empty.
    pub open spec fn first_sym(self, r: int) -> int {
        if self.bod(r).len() == 0 {
            self.guard_of(r)
        } else {
            self.bod(r)[0]
        }
    }

    /// The last body symbol of rule `r`, or the guard when the body is empty.
    pub open spec fn last_sym(self, r: int) -> int {
        if self.bod(r).len() == 0 {
            self.guard_of(r)
        } else {
            self.bod(r)[self.bod(r).len() - 1]
        }
    }

    /// A located symbol's recorded location is that location.
    pub proof fn lemma_loc(self, s: int, r: int, i: int)
        requires
            self.wf(),
            self.located(s, r, i),
        ensures
            self.in_body(s),
            self.loc_rule(s) == r,
            self.loc_pos(s) == i,
    {
        assert(self.in_body(s));
        let (r2, i2) = choose|r2: int, i2: int| self.located(s, r2, i2);
        assert(self.located(s, r2, i2));
    }

    /// An empty grammar, with no rules and no symbols.
    pub fn new() -> (g: Grammar)
        ensures
            g.wf(),
            g.n_rules() == 0,
            g.n_syms() == 0,
    {
        Grammar {
            syms: Vec::new(),
            rules: Vec::new(),
            tokens: Vec::new(),
            body: Ghost(Map::empty()),
        }
    }

    /// Creates a fresh, empty rule: its guard is self-linked, carries the
    /// guard marker, and the rule has no references.
    pub fn new_rule(&mut self, id: u64) -> (r: usize)
        requires
            old(self).wf(),
        ensures
            final (self).wf(),
            r as int == old(self).n_rules(),
            final (self).n_rules() == old(self).n_rules() + 1,
            final (self).n_syms() == old(self).n_syms() + 1,
            final (self).alive(r as int),
            final (self).bod(r as int) == Seq::<int>::empty(),
            final (self).rule_id(r as int) == id,
            final (self).refcount_of(r as int) == 0,
            final (self).guard_of(r as int) == old(self).n_syms(),
            final (self).tokens@ == old(self).tokens@,
            forall|t: int|
                0 <= t < old(self).n_rules() ==> final (self).rules@[t] == old(self).rules@[t],
            forall|s: int|
                0 <= s < old(self).n_syms() ==> final (self).syms@[s] == old(self).syms@[s],
            forall|t: int| old(self).alive(t) ==> final (self).bod(t) == old(self).bod(t),
            forall|t: int|
                0 <= t < old(self).n_rules() ==> (final (self).alive(t) <==> old(self).alive(t)),
            forall|t: int|
                old(self).alive(t) ==> final (self).payloads(t) == old(self).payloads(t),
    {
        let g = self.syms.len();
        let r = self.rules.len();
        self.syms.push(
            Symbol { left: Some(g), right: Some(g), payload: Some(Payload::Guard(r)) },
        );
        self.rules.push(Rule { id, guard: g, refs: Vec::new() });
        proof {
            self.body@ = self.body@.insert(r as int, Seq::<int>::empty());
        }
        proof {
            let pre = *old(self);
            let post = *self;
            assert forall|t: int| 0 <= t < pre.n_rules() implies (post.alive(t) <==> pre.alive(
                t,
            )) by {
                assert(post.rules@[t] == pre.rules@[t]);
            }
            assert forall|t: int| pre.alive(t) implies post.alive(t) by {
                assert(post.rules@[t] == pre.rules@[t]);
            }
            assert forall|s: int, r1: int, i1: int| post.located(s, r1, i1) implies pre.located(
                s,
                r1,
                i1,
            ) || (r1 == r as int) by {
                if r1 != r as int {
                    assert(pre.alive(r1));
                    assert(post.bod(r1) == pre.bod(r1));
                }
            }
            assert(post.bod(r as int).len() == 0);
            assert forall|t: int| pre.alive(t) implies post.rule_wf(t) && post.payloads(t)
                == pre.payloads(t) by {
                Self::lemma_rule_frame_live(pre, post, t, Set::empty());
            }
            assert(post.alive(r as int));
            assert(post.rule_wf(r as int)) by {
                assert(post.ring(r as int) =~= seq![g as int]);
                assert(post.linked_at(r as int, 0));
            }
            assert forall|t: int| post.alive(t) implies post.refs_wf(t) by {
                if t == r as int {
                    assert(post.refs_of(t).len() == 0);
                } else {
                    assert(pre.alive(t));
                    assert forall|k: int| 0 <= k < post.refs_of(t).len() implies
                        post.ref_entry_ok(t, k) by {
                        assert(pre.ref_entry_ok(t, k));
                        let s = pre.refs_of(t)[k] as int;
                        let (r2, i2) = choose|r2: int, i2: int| pre.located(s, r2, i2);
                        assert(post.located(s, r2, i2));
                    }
                }
            }
            assert(post.bodies_disjoint());
            assert(post.guards_separate()) by {
                assert forall|r1: int, r2: int|
                    post.alive(r1) && post.alive(r2) && r1 != r2 implies post.guard_of(r1)
                    != post.guard_of(r2) by {
                    if r1 == r as int {
                        assert(pre.alive(r2) && pre.guard_of(r2) < pre.n_syms());
                    } else if r2 == r as int {
                        assert(pre.alive(r1) && pre.guard_of(r1) < pre.n_syms());
                    }
                }
                assert forall|r1: int, s: int, r2: int, i: int|
                    post.alive(r1) && post.located(s, r2, i) implies s != post.guard_of(r1) by {
                    assert(pre.located(s, r2, i));
                    assert(pre.entry_ok(r2, i));
                    if r1 != r as int {
                        assert(pre.alive(r1));
                    }
                }
            }
            assert(post.refs_complete()) by {
                assert forall|t: int, s: int, r2: int, i: int|
                    post.alive(t) && post.located(s, r2, i) && post.is_nt_to(s, t) implies
                    post.refs_of(t).contains(s as usize) by {
                    assert(pre.located(s, r2, i));
                    assert(pre.entry_ok(r2, i));
                    assert(pre.is_nt_to(s, t) && pre.alive(t));
                    assert(pre.refs_of(t).contains(s as usize));
                }
            }
        }
        r
    }

    /// Everything `rule_wf(r)` looks at is unchanged from `a` to `b`, except
    /// possibly symbols in `ex`, none of which touch rule `r`.
    pub proof fn lemma_rule_frame(a: Grammar, b: Grammar, r: int, ex: Set<int>)
        requires
            a.wf(),
            a.alive(r),
            b.alive(r),
            b.body@.contains_key(r),
            b.bod(r) == a.bod(r),
            b.guard_of(r) == a.guard_of(r),
            a.n_syms() <= b.n_syms(),
            a.tokens@.len() <= b.tokens@.len(),
            forall|ti: int| 0 <= ti < a.tokens@.len() ==> b.tokens@[ti] == a.tokens@[ti],
            forall|s: int|
                0 <= s < a.n_syms() && !ex.contains(s) ==> b.syms@[s] == a.syms@[s],
            forall|i: int| 0 <= i < a.ring(r).len() ==> !ex.contains(a.ring(r)[i]),
            forall|i: int|
                0 <= i < a.bod(r).len() ==> (match a.syms@[#[trigger] a.bod(r)[i]].payload {
                    Some(Payload::Nonterminal(u)) => b.alive(u as int),
                    _ => true,
                }),
        ensures
            b.rule_wf(r),
            b.payloads(r) == a.payloads(r),
    {
        assert(a.rule_wf(r));
        assert(b.ring(r) =~= a.ring(r));
        assert forall|i: int| 0 <= i < b.bod(r).len() implies b.entry_ok(r, i) by {
            assert(a.entry_ok(r, i));
            assert(a.ring(r)[i + 1] == a.bod(r)[i]);
            assert(!ex.contains(a.bod(r)[i]));
            assert(b.syms@[b.bod(r)[i]] == a.syms@[a.bod(r)[i]]);
        }
        assert forall|i: int| 0 <= i < b.ring(r).len() implies b.linked_at(r, i) by {
            assert(a.linked_at(r, i));
            assert(!ex.contains(a.ring(r)[i]));
            if i == 0 {
                assert(a.ring(r)[0] == a.guard_of(r));
                assert(0 <= a.ring(r)[i] < a.n_syms());
            } else {
                assert(a.entry_ok(r, i - 1));
                assert(a.ring(r)[i] == a.bod(r)[i - 1]);
                assert(0 <= a.ring(r)[i] < a.n_syms());
            }
            assert(b.syms@[b.ring(r)[i]] == a.syms@[a.ring(r)[i]]);
        }
        assert forall|i: int| 0 <= i < a.bod(r).len() implies b.pay(b.bod(r)[i]) == a.pay(
            a.bod(r)[i],
        ) by {
            assert(a.entry_ok(r, i));
            assert(a.ring(r)[i + 1] == a.bod(r)[i]);
            assert(!ex.contains(a.bod(r)[i]));
        }
        assert(b.payloads(r) =~= a.payloads(r));
    }

    /// Everything `rule_wf(r)` looks at is unchanged from `a` to `b`, except
    /// possibly symbols in `ex`, none of which touch rule `r`; every live rule
    /// stays live.
    pub proof fn lemma_rule_frame_live(a: Grammar, b: Grammar, r: int, ex: Set<int>)
        requires
            a.wf(),
            a.alive(r),
            b.alive(r),
            b.body@.contains_key(r),
            b.bod(r) == a.bod(r),
            b.guard_of(r) == a.guard_of(r),
            a.n_syms() <= b.n_syms(),
            a.tokens@.len() <= b.tokens@.len(),
            forall|ti: int| 0 <= ti < a.tokens@.len() ==> b.tokens@[ti] == a.tokens@[ti],
            forall|s: int|
                0 <= s < a.n_syms() && !ex.contains(s) ==> b.syms@[s] == a.syms@[s],
            forall|i: int| 0 <= i < a.ring(r).len() ==> !ex.contains(a.ring(r)[i]),
            forall|t: int| a.alive(t) ==> b.alive(t),
        ensures
            b.rule_wf(r),
            b.payloads(r) == a.payloads(r),
    {
        assert forall|i: int|
            0 <= i < a.bod(r).len() implies (match a.syms@[#[trigger] a.bod(r)[i]].payload {
            Some(Payload::Nonterminal(u)) => b.alive(u as int),
            _ => true,
        }) by {
            assert(a.entry_ok(r, i));
        }
        Self::lemma_rule_frame(a, b, r, ex);
    }

    /// Symbol `x` is the guard of some live rule.
    pub open spec fn is_guard_sym(self, x: int) -> bool {
        exists|r: int| #[trigger] self.alive(r) && self.guard_of(r) == x
    }

    /// Symbol `x` stands in some live circular list: as a guard or in a body.
    pub open spec fn linked(self, x: int) -> bool {
        self.is_guard_sym(x) || self.in_body(x)
    }

    /// The rule whose circle holds `x`.
    pub open spec fn anchor_rule(self, x: int) -> int {
        if self.is_guard_sym(x) {
            choose|r: int| #[trigger] self.alive(r) && self.guard_of(r) == x
        } else {
            self.loc_rule(x)
        }
    }

    /// The body position where a symbol inserted after `x` lands.
    pub open spec fn anchor_pos(self, x: int) -> int {
        if self.is_guard_sym(x) {
            0
        } else {
            self.loc_pos(x) + 1
        }
    }

    /// The symbol to the left of linked symbol `x`, around its circle.
    pub open spec fn left_sym(self, x: int) -> int {
        let rg = self.ring(self.anchor_rule(x));
        let j = self.anchor_pos(x);
        if j == 0 {
            rg[rg.len() - 1]
        } else {
            rg[j - 1]
        }
    }

    /// The symbol to the right of linked symbol `x`, around its circle.
    pub open spec fn right_sym(self, x: int) -> int {
        let rg = self.ring(self.anchor_rule(x));
        let j = self.anchor_pos(x);
        if j + 1 == rg.len() {
            rg[0]
        } else {
            rg[j + 1]
        }
    }

    /// Facts about a linked symbol's place in its circle.
    pub proof fn lemma_anchor(self, x: int)
        requires
            self.wf(),
            self.linked(x),
        ensures
            self.alive(self.anchor_rule(x)),
            0 <= self.anchor_pos(x) <= self.bod(self.anchor_rule(x)).len(),
            self.ring(self.anchor_rule(x))[self.anchor_pos(x)] == x,
            !(self.is_guard_sym(x) && self.in_body(x)),
            self.in_body(x) ==> self.located(x, self.anchor_rule(x), self.anchor_pos(x) - 1),
            self.is_guard_sym(x) ==> x == self.guard_of(self.anchor_rule(x)),
    {
        if self.is_guard_sym(x) {
            let r = choose|r: int| #[trigger] self.alive(r) && self.guard_of(r) == x;
            assert(self.alive(r) && self.guard_of(r) == x);
            assert(self.ring(r)[0] == x);
            if self.in_body(x) {
                let (r2, i2) = choose|r2: int, i2: int| self.located(x, r2, i2);
                assert(self.located(x, r2, i2));
                assert(false);
            }
        } else {
            let (r2, i2) = choose|r2: int, i2: int| self.located(x, r2, i2);
            assert(self.located(x, r2, i2));
            self.lemma_loc(x, r2, i2);
            assert(self.ring(r2)[i2 + 1] == x);
        }
    }

    /// The entries of a live rule's circle are pairwise distinct, in range,
    /// and distinct from every other live circle's entries.
    pub proof fn lemma_ring_distinct(self, r: int)
        requires
            self.wf(),
            self.alive(r),
        ensures
            forall|i: int, j: int|
                0 <= i < j < self.ring(r).len() ==> self.ring(r)[i] != self.ring(r)[j],
            forall|i: int| 0 <= i < self.ring(r).len() ==> 0 <= #[trigger] self.ring(r)[i]
                < self.n_syms(),
    {
        assert forall|i: int, j: int|
            0 <= i < j < self.ring(r).len() implies self.ring(r)[i] != self.ring(r)[j] by {
            if i == 0 {
                assert(self.located(self.bod(r)[j - 1], r, j - 1));
            } else {
                assert(self.located(self.bod(r)[i - 1], r, i - 1));
                assert(self.located(self.bod(r)[j - 1], r, j - 1));
            }
        }
        assert forall|i: int| 0 <= i < self.ring(r).len() implies 0 <= #[trigger] self.ring(r)[i]
            < self.n_syms() by {
            if i > 0 {
                assert(self.entry_ok(r, i - 1));
            }
        }
    }

    /// Payload `p` may stand in a body: a token of the arena or a live rule.
    pub open spec fn pay_ok(self, p: Payload) -> bool {
        match p {
            Payload::Guard(_) => false,
            Payload::Nonterminal(q) => self.alive(q as int),
            Payload::Terminal(t) => t < self.tokens@.len(),
        }
    }

    /// Payload `p` references rule `t`.
    pub open spec fn pay_refs(p: Payload, t: int) -> bool {
        match p {
            Payload::Nonterminal(q) => q as int == t,
            _ => false,
        }
    }

    /// The state change made by splicing fresh symbol `n` after `x`: the two
    /// neighbor links are redirected, everything else is untouched, and the
    /// new symbol is recorded as a reference if its payload references a rule.
    pub open spec fn insert_shape(
        pre: Grammar,
        post: Grammar,
        x: int,
        orv: int,
        pay: Payload,
        n: int,
        rr: int,
        pp: int,
    ) -> bool {
        &&& n == pre.n_syms()
        &&& rr == pre.anchor_rule(x)
        &&& pp == pre.anchor_pos(x)
        &&& orv == (if pp + 1 == pre.ring(rr).len() {
            pre.ring(rr)[0]
        } else {
            pre.ring(rr)[pp + 1]
        })
        &&& post.syms@.len() == pre.n_syms() + 1
        &&& post.syms@[n] == (Symbol {
            left: Some(x as usize),
            right: Some(orv as usize),
            payload: Some(pay),
        })
        &&& forall|s: int|
            0 <= s < pre.n_syms() && s != x && s != orv ==> post.syms@[s] == pre.syms@[s]
        &&& post.syms@[x].right == Some(n as usize)
        &&& post.syms@[x].payload == pre.syms@[x].payload
        &&& post.syms@[orv].left == Some(n as usize)
        &&& post.syms@[orv].payload == pre.syms@[orv].payload
        &&& (x != orv ==> post.syms@[x].left == pre.syms@[x].left && post.syms@[orv].right
            == pre.syms@[orv].right)
        &&& post.rules@.len() == pre.rules@.len()
        &&& forall|t: int|
            0 <= t < pre.n_rules() ==> post.rules@[t].guard == pre.rules@[t].guard
                && post.rules@[t].id == pre.rules@[t].id
        &&& forall|t: int|
            0 <= t < pre.n_rules() && !Self::pay_refs(pay, t) ==> post.refs_of(t) == pre.refs_of(t)
        &&& forall|t: int|
            0 <= t < pre.n_rules() && Self::pay_refs(pay, t) ==> post.refs_of(t) == pre.refs_of(
                t,
            ).push(n as usize)
        &&& post.tokens@ == pre.tokens@
        &&& post.body@ == pre.body@.insert(rr, pre.bod(rr).insert(pp, n))
    }

    /// A splice of the `insert_shape` kind preserves the invariant and has
    /// the stated effect on bodies, payloads and references.
    #[verifier::rlimit(100)]
    proof fn lemma_insert_after(
        pre: Grammar,
        post: Grammar,
        x: int,
        orv: int,
        pay: Payload,
        n: int,
        rr: int,
        pp: int,
    )
        requires
            pre.wf(),
            pre.linked(x),
            pre.pay_ok(pay),
            n <= usize::MAX as int,
            Self::insert_shape(pre, post, x, orv, pay, n, rr, pp),
        ensures
            post.wf(),
            forall|t: int| post.alive(t) <==> pre.alive(t),
            post.bod(rr) == pre.bod(rr).insert(pp, n),
            forall|t: int|
                pre.alive(t) && t != rr ==> post.bod(t) == pre.bod(t) && post.payloads(t)
                    == pre.payloads(t),
            post.payloads(rr) == pre.payloads(rr).insert(pp, pre.pay_of(pay)),
            forall|s: int|
                0 <= s < pre.n_syms() ==> post.syms@[s].payload == pre.syms@[s].payload,
            post.located(n, rr, pp),
    {
        pre.lemma_anchor(x);
        pre.lemma_ring_distinct(rr);
        pre.bod(rr).insert_ensures(pp, n);
        let oldring = pre.ring(rr);
        let newring = post.ring(rr);
        let m = oldring.len();
        assert(pre.linked_at(rr, pp));
        assert(newring =~= oldring.insert(pp + 1, n));
        oldring.insert_ensures(pp + 1, n);
        // aliveness
        assert forall|t: int| 0 <= t < pre.n_rules() implies (post.alive(t) <==> pre.alive(
            t,
        )) by {
            assert(post.guard_of(t) == pre.guard_of(t));
            if pre.alive(t) {
                if pre.guard_of(t) == x || pre.guard_of(t) == orv {
                    assert(post.syms@[pre.guard_of(t)].payload == pre.syms@[pre.guard_of(
                        t,
                    )].payload);
                }
            }
        }
        // locations in the new state map back to the old state
        assert forall|s: int, r1: int, i1: int| post.located(s, r1, i1) implies (r1 == rr && ((i1
            == pp && s == n) || (i1 < pp && pre.located(s, r1, i1)) || (i1 > pp && pre.located(
            s,
            r1,
            i1 - 1,
        )))) || (r1 != rr && pre.located(s, r1, i1)) by {
            assert(pre.alive(r1));
            if r1 == rr {
                assert(post.bod(rr) == pre.bod(rr).insert(pp, n));
            }
        }
        assert forall|s: int, r1: int, i1: int| pre.located(s, r1, i1) implies post.located(
            s,
            r1,
            if r1 == rr && i1 >= pp {
                i1 + 1
            } else {
                i1
            },
        ) by {
            assert(post.alive(r1));
        }
        // links of the spliced circle
        assert forall|i: int| 0 <= i < newring.len() implies post.linked_at(rr, i) by {
            assert(forall|j: int|
                0 <= j < m && oldring[j] != x && oldring[j] != orv ==> post.syms@[oldring[j]]
                    == pre.syms@[oldring[j]]);
            if i < pp {
                assert(pre.linked_at(rr, i));
            } else if i == pp {
                assert(pre.linked_at(rr, i));
            } else if i == pp + 1 {
                assert(newring[i] == n);
            } else {
                assert(newring[i] == oldring[i - 1]);
                assert(pre.linked_at(rr, i - 1));
            }
        }
        assert forall|i: int| 0 <= i < post.bod(rr).len() implies post.entry_ok(rr, i) by {
            if i == pp {
                assert(post.bod(rr)[i] == n);
            } else {
                let iold = if i < pp {
                    i
                } else {
                    i - 1
                };
                assert(pre.entry_ok(rr, iold));
                assert(post.bod(rr)[i] == pre.bod(rr)[iold]);
                assert(pre.located(pre.bod(rr)[iold], rr, iold));
            }
        }
        assert(post.rule_wf(rr));
        assert(post.payloads(rr) =~= pre.payloads(rr).insert(pp, pre.pay_of(pay))) by {
            pre.payloads(rr).insert_ensures(pp, pre.pay_of(pay));
            assert forall|i: int| 0 <= i < post.bod(rr).len() implies post.pay(post.bod(rr)[i])
                == pre.payloads(rr).insert(pp, pre.pay_of(pay))[i] by {
                if i == pp {
                } else {
                    let iold = if i < pp {
                        i
                    } else {
                        i - 1
                    };
                    assert(pre.entry_ok(rr, iold));
                    assert(pre.located(pre.bod(rr)[iold], rr, iold));
                }
            }
        }
        // other rules are untouched
        assert forall|t: int| pre.alive(t) && t != rr implies post.rule_wf(t) && post.payloads(t)
            == pre.payloads(t) by {
            let ex = set![x, orv];
            assert forall|i: int| 0 <= i < pre.ring(t).len() implies !ex.contains(
                pre.ring(t)[i],
            ) by {
                if pre.is_guard_sym(x) {
                    assert(x == pre.guard_of(rr));
                } else {
                    assert(pre.located(x, rr, pp - 1));
                }
                if pp + 1 == m {
                    assert(orv == pre.guard_of(rr));
                } else {
                    assert(pre.located(orv, rr, pp));
                }
                if i == 0 {
                    assert(pre.ring(t)[0] == pre.guard_of(t));
                } else {
                    assert(pre.located(pre.bod(t)[i - 1], t, i - 1));
                }
            }
            Self::lemma_rule_frame_live(pre, post, t, ex);
        }
        // references
        assert forall|t: int| post.alive(t) implies post.refs_wf(t) by {
            assert(pre.refs_wf(t));
            assert forall|k: int| 0 <= k < post.refs_of(t).len() implies post.ref_entry_ok(
                t,
                k,
            ) by {
                if Self::pay_refs(pay, t) && k == pre.refs_of(t).len() {
                    assert(post.refs_of(t)[k] == n as usize);
                    assert(post.located(n, rr, pp));
                } else {
                    assert(pre.ref_entry_ok(t, k));
                    let s = pre.refs_of(t)[k] as int;
                    let (r2, i2) = choose|r2: int, i2: int| pre.located(s, r2, i2);
                    assert(pre.located(s, r2, i2));
                    assert(post.located(
                        s,
                        r2,
                        if r2 == rr && i2 >= pp {
                            i2 + 1
                        } else {
                            i2
                        },
                    ));
                    assert(post.refs_of(t)[k] == pre.refs_of(t)[k]);
                    assert(post.syms@[s].payload == pre.syms@[s].payload);
                }
            }
            assert forall|k1: int, k2: int|
                0 <= k1 < k2 < post.refs_of(t).len() implies post.refs_of(t)[k1] != post.refs_of(
                t,
            )[k2] by {
                if Self::pay_refs(pay, t) && k2 == pre.refs_of(t).len() {
                    assert(pre.ref_entry_ok(t, k1));
                }
            }
        }
        assert forall|r1: int, i1: int| post.located(n, r1, i1) implies r1 == rr && i1 == pp by {
            if r1 != rr {
                assert(pre.located(n, r1, i1));
                assert(pre.entry_ok(r1, i1));
            } else if i1 != pp {
                let iold = if i1 < pp {
                    i1
                } else {
                    i1 - 1
                };
                assert(pre.located(n, r1, iold));
                assert(pre.entry_ok(r1, iold));
            }
        }
        assert forall|s: int, r1: int, i1: int, r2: int, i2: int|
            post.located(s, r1, i1) && post.located(s, r2, i2) implies r1 == r2 && i1 == i2 by {
            if s == n {
            } else {
                let j1 = if r1 == rr && i1 > pp {
                    i1 - 1
                } else {
                    i1
                };
                let j2 = if r2 == rr && i2 > pp {
                    i2 - 1
                } else {
                    i2
                };
                assert(pre.located(s, r1, j1));
                assert(pre.located(s, r2, j2));
            }
        }
        assert(post.bodies_disjoint());
        assert(post.guards_separate()) by {
            assert forall|r1: int, s: int, r2: int, i: int|
                post.alive(r1) && post.located(s, r2, i) implies s != post.guard_of(r1) by {
                assert(pre.alive(r1));
                if s == n {
                    assert(pre.guard_of(r1) < pre.n_syms());
                }
            }
        }
        assert(post.refs_complete()) by {
            assert forall|t: int, s: int, r2: int, i: int|
                post.alive(t) && post.located(s, r2, i) && post.is_nt_to(s, t) implies post.refs_of(
                t,
            ).contains(s as usize) by {
                if s == n {
                    assert(post.syms@[n].payload == Some(pay));
                    assert(Self::pay_refs(pay, t));
                    assert(post.refs_of(t)[pre.refs_of(t).len() as int] == n as usize);
                } else {
                    let iold = if r2 == rr && i > pp {
                        i - 1
                    } else {
                        i
                    };
                    assert(pre.located(s, r2, iold));
                    assert(pre.entry_ok(r2, iold));
                    assert(0 <= s && s < pre.n_syms());
                    assert(pre.syms@[s].payload == post.syms@[s].payload);
                    assert(pre.is_nt_to(s, t));
                    assert(pre.refs_of(t).contains(s as usize));
                    let k = choose|k: int|
                        0 <= k < pre.refs_of(t).len() && pre.refs_of(t)[k] == s as usize;
                    assert(post.refs_of(t)[k] == s as usize);
                }
            }
        }
    }

    /// Splices a fresh symbol carrying `pay` immediately to the right of `x`,
    /// and records the new symbol as a reference if `pay` references a rule.
    pub fn insert_after(&mut self, x: usize, pay: Payload) -> (n: usize)
        requires
            old(self).wf(),
            old(self).linked(x as int),
            old(self).pay_ok(pay),
        ensures
            final (self).wf(),
            n as int == old(self).n_syms(),
            final (self).n_syms() == old(self).n_syms() + 1,
            final (self).tokens@ == old(self).tokens@,
            final (self).n_rules() == old(self).n_rules(),
            forall|t: int| final (self).alive(t) <==> old(self).alive(t),
            forall|t: int|
                0 <= t < old(self).n_rules() ==> final (self).guard_of(t) == old(self).guard_of(t)
                    && final (self).rule_id(t) == old(self).rule_id(t),
            final (self).bod(old(self).anchor_rule(x as int)) == old(self).bod(
                old(self).anchor_rule(x as int),
            ).insert(old(self).anchor_pos(x as int), n as int),
            forall|t: int|
                old(self).alive(t) && t != old(self).anchor_rule(x as int) ==> final (self).bod(t)
                    == old(self).bod(t) && final (self).payloads(t) == old(self).payloads(t),
            final (self).payloads(old(self).anchor_rule(x as int)) == old(self).payloads(
                old(self).anchor_rule(x as int),
            ).insert(old(self).anchor_pos(x as int), old(self).pay_of(pay)),
            forall|s: int|
                0 <= s < old(self).n_syms() ==> final (self).syms@[s].payload
                    == old(self).syms@[s].payload,
            final (self).syms@[n as int].payload == Some(pay),
            final (self).located(n as int, old(self).anchor_rule(x as int), old(
                self,
            ).anchor_pos(x as int)),
            forall|t: int|
                0 <= t < old(self).n_rules() && !Self::pay_refs(pay, t) ==> final (self).refs_of(t)
                    == old(self).refs_of(t),
            forall|t: int|
                0 <= t < old(self).n_rules() && Self::pay_refs(pay, t) ==> final (self).refs_of(t)
                    == old(self).refs_of(t).push(n),
            forall|u: int|
                0 <= u < old(self).n_syms() && u != x as int && u != old(self).right_sym(x as int)
                    ==> final (self).syms@[u] == old(self).syms@[u],
            final (self).syms@[n as int].left == Some(x),
            final (self).syms@[n as int].right == Some(old(self).right_sym(x as int) as usize),
            final (self).syms@[x as int].right == Some(n),
            final (self).syms@[old(self).right_sym(x as int)].left == Some(n),
    {
        let ghost pre = *self;
        let ghost rr = pre.anchor_rule(x as int);
        let ghost pp = pre.anchor_pos(x as int);
        proof {
            pre.lemma_anchor(x as int);
            pre.lemma_ring_distinct(rr);
        }
        let n = self.syms.len();
        proof {
            let m = pre.ring(rr).len() as int;
            assert(pre.ring(rr)[pp] == x as int);
            assert(0 <= (x as int) && (x as int) < pre.n_syms());
            assert(pre.linked_at(rr, pp));
            let orv = if pp + 1 == m {
                pre.ring(rr)[0]
            } else {
                pre.ring(rr)[pp + 1]
            };
            assert(pre.syms@[x as int].right == Some(orv as usize));
            assert(0 <= orv < pre.n_syms());
        }
        let oldright = self.syms[x].right.unwrap();
        self.syms.push(Symbol { left: Some(x), right: Some(oldright), payload: Some(pay) });
        let mut so = self.syms[oldright];
        so.left = Some(n);
        self.syms[oldright] = so;
        let mut sx = self.syms[x];
        sx.right = Some(n);
        self.syms[x] = sx;
        if let Payload::Nonterminal(q) = pay {
            self.rules[q].refs.push(n);
        }
        proof {
            self.body@ = self.body@.insert(rr, pre.bod(rr).insert(pp, n as int));
        }
        proof {
            let post = *self;
            assert(oldright as int == pre.right_sym(x as int));
            assert(Self::insert_shape(pre, post, x as int, oldright as int, pay, n as int, rr, pp));
            Self::lemma_insert_after(pre, post, x as int, oldright as int, pay, n as int, rr, pp);
        }
        n
    }

    /// Unregisters one occurrence of `s` among rule `t`'s references.
    fn del_ref(&mut self, t: usize, s: usize)
        requires
            (t as int) < old(self).n_rules(),
            old(self).refs_of(t as int).contains(s),
        ensures
            final (self).syms@ == old(self).syms@,
            final (self).tokens@ == old(self).tokens@,
            final (self).body@ == old(self).body@,
            final (self).rules@.len() == old(self).rules@.len(),
            forall|u: int|
                0 <= u < old(self).n_rules() && u != t as int ==> final (self).rules@[u] == old(
                    self,
                ).rules@[u],
            final (self).rules@[t as int].guard == old(self).rules@[t as int].guard,
            final (self).rules@[t as int].id == old(self).rules@[t as int].id,
            exists|k: int|
                0 <= k < old(self).refs_of(t as int).len() && old(self).refs_of(t as int)[k] == s
                    && final (self).refs_of(t as int) == old(self).refs_of(t as int).remove(k),
    {
        let ghost rf = self.refs_of(t as int);
        let len = self.rules[t].refs.len();
        let mut k: usize = 0;
        proof {
            let j = choose|j: int| 0 <= j < rf.len() && rf[j] == s;
            assert(k <= j < rf.len());
        }
        while self.rules[t].refs[k] != s
            invariant
                *self == *old(self),
                rf == self.refs_of(t as int),
                len == rf.len(),
                (t as int) < self.n_rules(),
                0 <= k < rf.len(),
                exists|j: int| k <= j < rf.len() && rf[j] == s,
            decreases rf.len() - k,
        {
            proof {
                let j = choose|j: int| k <= j < rf.len() && rf[j] == s;
                assert(k + 1 <= j < rf.len());
            }
            k = k + 1;
        }
        self.rules[t].refs.remove(k);
        proof {
            assert(final (self).refs_of(t as int) == rf.remove(k as int));
        }
    }

    /// The state change made by splicing symbol `s` out of its circle: its two
    /// neighbors are joined, `s` is cleared, and `s` is unregistered from the
    /// rule it referenced, if any.
    pub open spec fn remove_shape(
        pre: Grammar,
        post: Grammar,
        s: int,
        lv: int,
        rv: int,
        rr: int,
        ii: int,
    ) -> bool {
        &&& rr == pre.loc_rule(s)
        &&& ii == pre.loc_pos(s)
        &&& lv == pre.ring(rr)[ii]
        &&& rv == (if ii + 2 == pre.ring(rr).len() {
            pre.ring(rr)[0]
        } else {
            pre.ring(rr)[ii + 2]
        })
        &&& post.syms@.len() == pre.syms@.len()
        &&& forall|u: int|
            0 <= u < pre.n_syms() && u != lv && u != rv && u != s ==> post.syms@[u]
                == pre.syms@[u]
        &&& post.syms@[s] == (Symbol { left: None, right: None, payload: None })
        &&& post.syms@[lv].right == Some(rv as usize)
        &&& post.syms@[lv].payload == pre.syms@[lv].payload
        &&& post.syms@[rv].left == Some(lv as usize)
        &&& post.syms@[rv].payload == pre.syms@[rv].payload
        &&& (lv != rv ==> post.syms@[lv].left == pre.syms@[lv].left && post.syms@[rv].right
            == pre.syms@[rv].right)
        &&& post.rules@.len() == pre.rules@.len()
        &&& forall|t: int|
            0 <= t < pre.n_rules() ==> post.rules@[t].guard == pre.rules@[t].guard
                && post.rules@[t].id == pre.rules@[t].id
        &&& forall|t: int|
            0 <= t < pre.n_rules() && !pre.is_nt_to(s, t) ==> post.refs_of(t) == pre.refs_of(t)
        &&& forall|t: int|
            0 <= t < pre.n_rules() && pre.is_nt_to(s, t) ==> exists|k: int|
                0 <= k < pre.refs_of(t).len() && pre.refs_of(t)[k] == s as usize && post.refs_of(t)
                    == pre.refs_of(t).remove(k)
        &&& post.tokens@ == pre.tokens@
        &&& post.body@ == pre.body@.insert(rr, pre.bod(rr).remove(ii))
    }

    /// A splice-out of the `remove_shape` kind preserves the invariant and
    /// has the stated effect on bodies, payloads and references.
    #[verifier::rlimit(100)]
    proof fn lemma_remove_symbol(pre: Grammar, post: Grammar, s: int, lv: int, rv: int, rr: int, ii: int)
        requires
            pre.wf(),
            pre.in_body(s),
            pre.n_syms() <= usize::MAX as int,
            Self::remove_shape(pre, post, s, lv, rv, rr, ii),
        ensures
            post.wf(),
            forall|t: int| post.alive(t) <==> pre.alive(t),
            post.bod(rr) == pre.bod(rr).remove(ii),
            forall|t: int|
                pre.alive(t) && t != rr ==> post.bod(t) == pre.bod(t) && post.payloads(t)
                    == pre.payloads(t),
            post.payloads(rr) == pre.payloads(rr).remove(ii),
            forall|u: int|
                0 <= u < pre.n_syms() && u != s ==> post.syms@[u].payload == pre.syms@[u].payload,
            forall|t: int|
                0 <= t < pre.n_rules() && !pre.is_nt_to(s, t) ==> post.refs_of(t) == pre.refs_of(
                    t,
                ),
            forall|t: int|
                0 <= t < pre.n_rules() && pre.is_nt_to(s, t) ==> post.refs_of(t).len()
                    == pre.refs_of(t).len() - 1,
    {
        let (r0, i0) = choose|r0: int, i0: int| pre.located(s, r0, i0);
        assert(pre.located(s, r0, i0));
        pre.lemma_loc(s, r0, i0);
        assert(pre.located(s, rr, ii));
        pre.lemma_ring_distinct(rr);
        pre.bod(rr).remove_ensures(ii);
        let oldring = pre.ring(rr);
        let newring = post.ring(rr);
        let m = oldring.len();
        assert(oldring[ii + 1] == s);
        assert(pre.linked_at(rr, ii + 1));
        assert(newring =~= oldring.remove(ii + 1));
        oldring.remove_ensures(ii + 1);
        assert(pre.entry_ok(rr, ii));
        // aliveness: no guard symbol is touched in its payload
        assert forall|t: int| 0 <= t < pre.n_rules() implies (post.alive(t) <==> pre.alive(
            t,
        )) by {
            assert(post.guard_of(t) == pre.guard_of(t));
            if pre.alive(t) {
                if pre.guard_of(t) == lv || pre.guard_of(t) == rv {
                    assert(post.syms@[pre.guard_of(t)].payload == pre.syms@[pre.guard_of(
                        t,
                    )].payload);
                }
                assert(pre.guard_of(t) != s);
            } else {
                if 0 <= pre.guard_of(t) < pre.n_syms() {
                    if pre.guard_of(t) == s {
                    } else if pre.guard_of(t) == lv || pre.guard_of(t) == rv {
                    }
                }
            }
        }
        // location mappings
        assert forall|u: int, r1: int, i1: int| post.located(u, r1, i1) implies (r1 == rr && (if i1
            < ii {
            pre.located(u, r1, i1)
        } else {
            pre.located(u, r1, i1 + 1)
        })) || (r1 != rr && pre.located(u, r1, i1)) by {
            assert(pre.alive(r1));
            if r1 == rr {
                assert(post.bod(rr) == pre.bod(rr).remove(ii));
            }
        }
        assert forall|u: int, r1: int, i1: int|
            pre.located(u, r1, i1) && !(r1 == rr && i1 == ii) implies post.located(
            u,
            r1,
            if r1 == rr && i1 > ii {
                i1 - 1
            } else {
                i1
            },
        ) by {
            assert(post.alive(r1));
        }
        // the removed symbol stands in no body afterwards
        assert forall|r1: int, i1: int| post.located(s, r1, i1) implies false by {
            if r1 == rr {
                let iold = if i1 < ii {
                    i1
                } else {
                    i1 + 1
                };
                assert(pre.located(s, rr, iold));
            } else {
                assert(pre.located(s, r1, i1));
            }
        }
        // links of the spliced circle
        assert forall|i: int| 0 <= i < newring.len() implies post.linked_at(rr, i) by {
            assert(forall|j: int|
                0 <= j < m && oldring[j] != lv && oldring[j] != rv && oldring[j] != s
                    ==> post.syms@[oldring[j]] == pre.syms@[oldring[j]]);
            if i < ii {
                assert(pre.linked_at(rr, i));
                if i == 0 {
                    assert(pre.linked_at(rr, 0));
                }
            } else if i == ii {
                assert(pre.linked_at(rr, i));
            } else {
                assert(newring[i] == oldring[i + 1]);
                assert(pre.linked_at(rr, i + 1));
            }
        }
        assert forall|i: int| 0 <= i < post.bod(rr).len() implies post.entry_ok(rr, i) by {
            let iold = if i < ii {
                i
            } else {
                i + 1
            };
            assert(pre.entry_ok(rr, iold));
            assert(post.bod(rr)[i] == pre.bod(rr)[iold]);
            assert(pre.located(pre.bod(rr)[iold], rr, iold));
            assert(pre.bod(rr)[iold] != s);
            assert(pre.bod(rr)[iold] != lv && pre.bod(rr)[iold] != rv ==> post.syms@[pre.bod(
                rr,
            )[iold]] == pre.syms@[pre.bod(rr)[iold]]);
        }
        assert(post.rule_wf(rr));
        assert(post.payloads(rr) =~= pre.payloads(rr).remove(ii)) by {
            pre.payloads(rr).remove_ensures(ii);
            assert forall|i: int| 0 <= i < post.bod(rr).len() implies post.pay(post.bod(rr)[i])
                == pre.payloads(rr).remove(ii)[i] by {
                let iold = if i < ii {
                    i
                } else {
                    i + 1
                };
                assert(pre.entry_ok(rr, iold));
                assert(pre.located(pre.bod(rr)[iold], rr, iold));
            }
        }
        // other rules are untouched
        assert forall|t: int| pre.alive(t) && t != rr implies post.rule_wf(t) && post.payloads(t)
            == pre.payloads(t) by {
            let ex = set![lv, rv, s];
            assert forall|i: int| 0 <= i < pre.ring(t).len() implies !ex.contains(
                pre.ring(t)[i],
            ) by {
                if ii == 0 {
                    assert(lv == pre.guard_of(rr));
                } else {
                    assert(pre.located(lv, rr, ii - 1));
                }
                if ii + 2 == m {
                    assert(rv == pre.guard_of(rr));
                } else {
                    assert(pre.located(rv, rr, ii + 1));
                }
                assert(pre.located(s, rr, ii));
                if i == 0 {
                    assert(pre.ring(t)[0] == pre.guard_of(t));
                } else {
                    assert(pre.located(pre.bod(t)[i - 1], t, i - 1));
                }
            }
            Self::lemma_rule_frame_live(pre, post, t, ex);
        }
        // references
        assert forall|t: int|
            0 <= t < pre.n_rules() && pre.is_nt_to(s, t) implies post.refs_of(t).len()
            == pre.refs_of(t).len() - 1 by {
            let k = choose|k: int|
                0 <= k < pre.refs_of(t).len() && pre.refs_of(t)[k] == s as usize && post.refs_of(t)
                    == pre.refs_of(t).remove(k);
        }
        assert forall|t: int| post.alive(t) implies post.refs_wf(t) by {
            assert(pre.alive(t));
            assert(pre.refs_wf(t));
            if pre.is_nt_to(s, t) {
                let k = choose|k: int|
                    0 <= k < pre.refs_of(t).len() && pre.refs_of(t)[k] == s as usize
                        && post.refs_of(t) == pre.refs_of(t).remove(k);
                pre.refs_of(t).remove_ensures(k);
                assert forall|k1: int| 0 <= k1 < post.refs_of(t).len() implies post.ref_entry_ok(
                    t,
                    k1,
                ) by {
                    let kold = if k1 < k {
                        k1
                    } else {
                        k1 + 1
                    };
                    assert(pre.ref_entry_ok(t, kold));
                    let u = pre.refs_of(t)[kold] as int;
                    assert(post.refs_of(t)[k1] == pre.refs_of(t)[kold]);
                    assert(u != s);
                    let (r2, i2) = choose|r2: int, i2: int| pre.located(u, r2, i2);
                    assert(pre.located(u, r2, i2));
                    assert(!(r2 == rr && i2 == ii));
                    assert(post.located(
                        u,
                        r2,
                        if r2 == rr && i2 > ii {
                            i2 - 1
                        } else {
                            i2
                        },
                    ));
                    assert(post.syms@[u].payload == pre.syms@[u].payload);
                }
                assert forall|k1: int, k2: int|
                    0 <= k1 < k2 < post.refs_of(t).len() implies post.refs_of(t)[k1]
                    != post.refs_of(t)[k2] by {
                    let ko1 = if k1 < k {
                        k1
                    } else {
                        k1 + 1
                    };
                    let ko2 = if k2 < k {
                        k2
                    } else {
                        k2 + 1
                    };
                    assert(post.refs_of(t)[k1] == pre.refs_of(t)[ko1]);
                    assert(post.refs_of(t)[k2] == pre.refs_of(t)[ko2]);
                }
            } else {
                assert(post.refs_of(t) == pre.refs_of(t));
                assert forall|k1: int| 0 <= k1 < post.refs_of(t).len() implies post.ref_entry_ok(
                    t,
                    k1,
                ) by {
                    assert(pre.ref_entry_ok(t, k1));
                    let u = pre.refs_of(t)[k1] as int;
                    assert(u != s);
                    let (r2, i2) = choose|r2: int, i2: int| pre.located(u, r2, i2);
                    assert(pre.located(u, r2, i2));
                    assert(!(r2 == rr && i2 == ii));
                    assert(post.located(
                        u,
                        r2,
                        if r2 == rr && i2 > ii {
                            i2 - 1
                        } else {
                            i2
                        },
                    ));
                    assert(post.syms@[u].payload == pre.syms@[u].payload);
                }
            }
        }
        // disjointness, guard separation, completeness
        assert forall|u: int, r1: int, i1: int, r2: int, i2: int|
            post.located(u, r1, i1) && post.located(u, r2, i2) implies r1 == r2 && i1 == i2 by {
            let j1 = if r1 == rr && i1 >= ii {
                i1 + 1
            } else {
                i1
            };
            let j2 = if r2 == rr && i2 >= ii {
                i2 + 1
            } else {
                i2
            };
            assert(pre.located(u, r1, j1));
            assert(pre.located(u, r2, j2));
        }
        assert(post.bodies_disjoint());
        assert(post.guards_separate()) by {
            assert forall|r1: int, u: int, r2: int, i: int|
                post.alive(r1) && post.located(u, r2, i) implies u != post.guard_of(r1) by {
                assert(pre.alive(r1));
                let j = if r2 == rr && i >= ii {
                    i + 1
                } else {
                    i
                };
                assert(pre.located(u, r2, j));
            }
        }
        assert(post.refs_complete()) by {
            assert forall|t: int, u: int, r2: int, i: int|
                post.alive(t) && post.located(u, r2, i) && post.is_nt_to(u, t) implies
                post.refs_of(t).contains(u as usize) by {
                let j = if r2 == rr && i >= ii {
                    i + 1
                } else {
                    i
                };
                assert(pre.located(u, r2, j));
                assert(pre.entry_ok(r2, j));
                assert(0 <= u && u < pre.n_syms());
                assert(u != s);
                assert(pre.syms@[u].payload == post.syms@[u].payload);
                assert(pre.is_nt_to(u, t));
                assert(pre.refs_of(t).contains(u as usize));
                let k0 = choose|k0: int|
                    0 <= k0 < pre.refs_of(t).len() && pre.refs_of(t)[k0] == u as usize;
                if pre.is_nt_to(s, t) {
                    let k = choose|k: int|
                        0 <= k < pre.refs_of(t).len() && pre.refs_of(t)[k] == s as usize
                            && post.refs_of(t) == pre.refs_of(t).remove(k);
                    pre.refs_of(t).remove_ensures(k);
                    assert(k0 != k);
                    if k0 < k {
                        assert(post.refs_of(t)[k0] == u as usize);
                    } else {
                        assert(post.refs_of(t)[k0 - 1] == u as usize);
                    }
                } else {
                    assert(post.refs_of(t)[k0] == u as usize);
                }
            }
        }
    }

    /// Splices symbol `s` out of its circle, clears it, and unregisters it
    /// from the rule it referenced, if any.
    pub fn remove_symbol(&mut self, s: usize)
        requires
            old(self).wf(),
            old(self).in_body(s as int),
        ensures
            final (self).wf(),
            final (self).n_syms() == old(self).n_syms(),
            final (self).tokens@ == old(self).tokens@,
            final (self).n_rules() == old(self).n_rules(),
            forall|t: int| final (self).alive(t) <==> old(self).alive(t),
            forall|t: int|
                0 <= t < old(self).n_rules() ==> final (self).guard_of(t) == old(self).guard_of(t)
                    && final (self).rule_id(t) == old(self).rule_id(t),
            final (self).bod(old(self).loc_rule(s as int)) == old(self).bod(
                old(self).loc_rule(s as int),
            ).remove(old(self).loc_pos(s as int)),
            forall|t: int|
                old(self).alive(t) && t != old(self).loc_rule(s as int) ==> final (self).bod(t)
                    == old(self).bod(t) && final (self).payloads(t) == old(self).payloads(t),
            final (self).payloads(old(self).loc_rule(s as int)) == old(self).payloads(
                old(self).loc_rule(s as int),
            ).remove(old(self).loc_pos(s as int)),
            forall|u: int|
                0 <= u < old(self).n_syms() && u != s as int ==> final (self).syms@[u].payload
                    == old(self).syms@[u].payload,
            final (self).syms@[s as int].left is None,
            final (self).syms@[s as int].right is None,
            final (self).syms@[s as int].payload is None,
            forall|t: int|
                0 <= t < old(self).n_rules() && !old(self).is_nt_to(s as int, t)
                    ==> final (self).refs_of(t) == old(self).refs_of(t),
            forall|t: int|
                0 <= t < old(self).n_rules() && old(self).is_nt_to(s as int, t)
                    ==> final (self).refs_of(t).len() == old(self).refs_of(t).len() - 1,
            forall|u: int|
                0 <= u < old(self).n_syms() && u != s as int && u != old(self).left_sym(s as int)
                    && u != old(self).right_sym(s as int) ==> final (self).syms@[u] == old(
                    self,
                ).syms@[u],
    {
        let ghost pre = *self;
        let ghost rr = pre.loc_rule(s as int);
        let ghost ii = pre.loc_pos(s as int);
        proof {
            let (r0, i0) = choose|r0: int, i0: int| pre.located(s as int, r0, i0);
            assert(pre.located(s as int, r0, i0));
            pre.lemma_loc(s as int, r0, i0);
            assert(pre.located(s as int, rr, ii));
            pre.lemma_ring_distinct(rr);
            assert(pre.ring(rr)[ii + 1] == s as int);
            assert(pre.linked_at(rr, ii + 1));
            assert(pre.entry_ok(rr, ii));
            let m = pre.ring(rr).len() as int;
            let lv = pre.ring(rr)[ii];
            let rv = if ii + 2 == m {
                pre.ring(rr)[0]
            } else {
                pre.ring(rr)[ii + 2]
            };
            assert(pre.syms@[s as int].left == Some(lv as usize));
            assert(pre.syms@[s as int].right == Some(rv as usize));
            assert(0 <= lv < pre.n_syms());
            assert(0 <= rv < pre.n_syms());
            assert(s as int != lv);
            assert(s as int != rv);
        }
        let nn = self.syms.len();
        proof {
            assert(nn as int == pre.n_syms());
            assert(pre.n_syms() <= usize::MAX as int);
        }
        let l = self.syms[s].left.unwrap();
        let rgt = self.syms[s].right.unwrap();
        let p = self.syms[s].payload.unwrap();
        if let Payload::Nonterminal(q) = p {
            proof {
                assert(pre.is_nt_to(s as int, q as int));
                assert(pre.refs_complete());
                assert(pre.refs_of(q as int).contains(s));
                assert(pre.entry_ok(rr, ii));
                assert((q as int) < pre.n_rules());
            }
            self.del_ref(q, s);
        }
        let mut sl = self.syms[l];
        sl.right = Some(rgt);
        self.syms[l] = sl;
        let mut sr = self.syms[rgt];
        sr.left = Some(l);
        self.syms[rgt] = sr;
        self.syms[s] = Symbol { left: None, right: None, payload: None };
        proof {
            self.body@ = self.body@.insert(rr, pre.bod(rr).remove(ii));
        }
        proof {
            let post = *self;
            let lv = l as int;
            let rv = rgt as int;
            let si = s as int;
            pre.lemma_anchor(si);
            assert(pre.anchor_rule(si) == rr && pre.anchor_pos(si) == ii + 1);
            assert(lv == pre.left_sym(si));
            assert(rv == pre.right_sym(si));
            assert(lv == pre.ring(rr)[ii]);
            assert(rv == (if ii + 2 == pre.ring(rr).len() {
                pre.ring(rr)[0]
            } else {
                pre.ring(rr)[ii + 2]
            }));
            assert(post.syms@.len() == pre.syms@.len());
            assert(forall|u: int|
                0 <= u < pre.n_syms() && u != lv && u != rv && u != si ==> post.syms@[u]
                    == pre.syms@[u]);
            assert(post.syms@[si] == (Symbol { left: None, right: None, payload: None }));
            assert(post.syms@[lv].right == Some(rgt));
            assert(post.syms@[lv].payload == pre.syms@[lv].payload);
            assert(post.syms@[rv].left == Some(l));
            assert(post.syms@[rv].payload == pre.syms@[rv].payload);
            assert(post.rules@.len() == pre.rules@.len());
            assert(forall|t: int|
                0 <= t < pre.n_rules() ==> post.rules@[t].guard == pre.rules@[t].guard
                    && post.rules@[t].id == pre.rules@[t].id);
            assert forall|t: int|
                0 <= t < pre.n_rules() && !pre.is_nt_to(si, t) implies post.refs_of(t)
                == pre.refs_of(t) by {
                assert(pre.syms@[si].payload == Some(p));
            }
            assert forall|t: int|
                0 <= t < pre.n_rules() && pre.is_nt_to(si, t) implies exists|k: int|
                0 <= k < pre.refs_of(t).len() && pre.refs_of(t)[k] == s && post.refs_of(t)
                    == pre.refs_of(t).remove(k) by {
                assert(pre.syms@[si].payload == Some(p));
            }
            assert(post.tokens@ == pre.tokens@);
            assert(post.body@ == pre.body@.insert(rr, pre.bod(rr).remove(ii)));
            assert(Self::remove_shape(pre, post, s as int, l as int, rgt as int, rr, ii));
            Self::lemma_remove_symbol(pre, post, s as int, l as int, rgt as int, rr, ii);
        }
    }

    /// Growing the token arena alone disturbs nothing.
    proof fn lemma_wf_tokens_grow(a: Grammar, b: Grammar)
        requires
            a.wf(),
            b.syms@ == a.syms@,
            b.rules@ == a.rules@,
            b.body@ == a.body@,
            a.tokens@.len() <= b.tokens@.len(),
            forall|ti: int| 0 <= ti < a.tokens@.len() ==> b.tokens@[ti] == a.tokens@[ti],
        ensures
            b.wf(),
            forall|t: int| b.alive(t) <==> a.alive(t),
            forall|t: int| a.alive(t) ==> b.payloads(t) == a.payloads(t),
    {
        assert forall|t: int| b.alive(t) <==> a.alive(t) by {}
        assert forall|s: int, r: int, i: int| b.located(s, r, i) <==> a.located(s, r, i) by {}
        assert forall|t: int| a.alive(t) implies b.rule_wf(t) && b.payloads(t) == a.payloads(
            t,
        ) by {
            Self::lemma_rule_frame_live(a, b, t, Set::empty());
        }
        assert forall|t: int| b.alive(t) implies b.refs_wf(t) by {
            assert(a.refs_wf(t));
            assert forall|k: int| 0 <= k < b.refs_of(t).len() implies b.ref_entry_ok(t, k) by {
                assert(a.ref_entry_ok(t, k));
                let u = a.refs_of(t)[k] as int;
                let (r2, i2) = choose|r2: int, i2: int| a.located(u, r2, i2);
                assert(a.located(u, r2, i2));
                assert(b.located(u, r2, i2));
            }
        }
        assert(b.bodies_disjoint()) by {
            assert forall|u: int, r1: int, i1: int, r2: int, i2: int|
                b.located(u, r1, i1) && b.located(u, r2, i2) implies r1 == r2 && i1 == i2 by {
                assert(a.located(u, r1, i1));
                assert(a.located(u, r2, i2));
            }
        }
        assert(b.guards_separate()) by {
            assert forall|r1: int, u: int, r2: int, i: int|
                b.alive(r1) && b.located(u, r2, i) implies u != b.guard_of(r1) by {
                assert(a.alive(r1));
                assert(a.located(u, r2, i));
            }
        }
        assert(b.refs_complete()) by {
            assert forall|t: int, u: int, r2: int, i: int|
                b.alive(t) && b.located(u, r2, i) && b.is_nt_to(u, t) implies b.refs_of(
                t,
            ).contains(u as usize) by {
                assert(a.located(u, r2, i));
                assert(a.is_nt_to(u, t));
            }
        }
    }

    /// The rule's guard symbol.
    pub fn get_guard(&self, r: usize) -> (g: usize)
        requires
            self.wf(),
            self.alive(r as int),
        ensures
            g as int == self.guard_of(r as int),
    {
        self.rules[r].guard
    }

    /// The rule's display identifier.
    pub fn get_id(&self, r: usize) -> (id: u64)
        requires
            self.wf(),
            (r as int) < self.n_rules(),
        ensures
            id == self.rule_id(r as int),
    {
        self.rules[r].id
    }

    /// Number of live references to the rule.
    pub fn refcount(&self, r: usize) -> (c: usize)
        requires
            self.wf(),
            (r as int) < self.n_rules(),
        ensures
            c as int == self.refcount_of(r as int),
    {
        self.rules[r].refs.len()
    }

    /// The first body symbol of the rule, or its guard when the body is empty.
    pub fn get_tail(&self, r: usize) -> (t: usize)
        requires
            self.wf(),
            self.alive(r as int),
        ensures
            t as int == self.first_sym(r as int),
    {
        let nlen = self.syms.len();
        let g = self.rules[r].guard;
        proof {
            assert(self.n_syms() == nlen as int);
            assert(self.linked_at(r as int, 0));
            self.lemma_ring_distinct(r as int);
        }
        self.syms[g].right.unwrap()
    }

    /// The last body symbol of the rule, or its guard when the body is empty.
    pub fn get_head(&self, r: usize) -> (t: usize)
        requires
            self.wf(),
            self.alive(r as int),
        ensures
            t as int == self.last_sym(r as int),
    {
        let nlen = self.syms.len();
        let g = self.rules[r].guard;
        proof {
            assert(self.n_syms() == nlen as int);
            assert(self.linked_at(r as int, 0));
            self.lemma_ring_distinct(r as int);
        }
        self.syms[g].left.unwrap()
    }

    /// The left neighbor of a linked symbol, in its circle.
    pub fn get_left(&self, s: usize) -> (t: usize)
        requires
            self.wf(),
            self.linked(s as int),
        ensures
            t as int == self.left_sym(s as int),
    {
        let nlen = self.syms.len();
        proof {
            assert(self.n_syms() == nlen as int);
            self.lemma_anchor(s as int);
            self.lemma_ring_distinct(self.anchor_rule(s as int));
            assert(self.linked_at(self.anchor_rule(s as int), self.anchor_pos(s as int)));
        }
        self.syms[s].left.unwrap()
    }

    /// The right neighbor of a linked symbol, in its circle.
    pub fn get_right(&self, s: usize) -> (t: usize)
        requires
            self.wf(),
            self.linked(s as int),
        ensures
            t as int == self.right_sym(s as int),
    {
        let nlen = self.syms.len();
        proof {
            assert(self.n_syms() == nlen as int);
            self.lemma_anchor(s as int);
            self.lemma_ring_distinct(self.anchor_rule(s as int));
            assert(self.linked_at(self.anchor_rule(s as int), self.anchor_pos(s as int)));
        }
        self.syms[s].right.unwrap()
    }

    /// The body symbols of rule `r`, in list order, read off the links.
    pub fn body_symbols(&self, r: usize) -> (v: Vec<usize>)
        requires
            self.wf(),
            self.alive(r as int),
        ensures
            v@.len() == self.bod(r as int).len(),
            forall|j: int| 0 <= j < v@.len() ==> v@[j] as int == self.bod(r as int)[j],
    {
        let rr: Ghost<int> = Ghost(r as int);
        let nlen = self.syms.len();
        let g = self.rules[r].guard;
        proof {
            assert(self.n_syms() == nlen as int);
            assert(self.linked_at(rr@, 0));
            self.lemma_ring_distinct(rr@);
        }
        let mut v: Vec<usize> = Vec::new();
        let mut cur = self.syms[g].right.unwrap();
        while cur != g
            invariant
                self.wf(),
                self.alive(rr@),
                nlen as int == self.n_syms(),
                g as int == self.guard_of(rr@),
                v@.len() <= self.bod(rr@).len(),
                forall|j: int| 0 <= j < v@.len() ==> v@[j] as int == self.bod(rr@)[j],
                cur as int == (if v@.len() == self.bod(rr@).len() {
                    self.guard_of(rr@)
                } else {
                    self.bod(rr@)[v@.len() as int]
                }),
            decreases self.bod(rr@).len() - v@.len(),
        {
            let ghost k = v@.len() as int;
            proof {
                if k == self.bod(rr@).len() {
                    assert(cur == g);
                }
                assert(cur as int == self.bod(rr@)[k]);
                assert(self.entry_ok(rr@, k));
                assert(self.linked_at(rr@, k + 1));
                assert(self.ring(rr@)[k + 1] == cur as int);
                self.lemma_ring_distinct(rr@);
            }
            v.push(cur);
            cur = self.syms[cur].right.unwrap();
            proof {
                if k + 2 == self.ring(rr@).len() {
                    assert(cur as int == self.ring(rr@)[0]);
                } else {
                    assert(cur as int == self.ring(rr@)[k + 2]);
                }
            }
        }
        proof {
            if v@.len() < self.bod(rr@).len() {
                assert(self.entry_ok(rr@, v@.len() as int));
                assert(cur as int != self.guard_of(rr@));
            }
        }
        v
    }

    /// Adds a token to the arena, for use in terminal payloads.
    pub fn add_token(&mut self, tok: &str) -> (ti: usize)
        requires
            old(self).wf(),
        ensures
            final (self).wf(),
            ti as int == old(self).tokens@.len(),
            final (self).tokens@.len() == old(self).tokens@.len() + 1,
            final (self).tokens@[ti as int]@ == tok@,
            final (self).pay_ok(Payload::Terminal(ti)),
            final (self).syms@ == old(self).syms@,
            final (self).rules@ == old(self).rules@,
            final (self).body@ == old(self).body@,
            forall|t: int| final (self).alive(t) <==> old(self).alive(t),
            forall|t: int| old(self).alive(t) ==> final (self).payloads(t) == old(self).payloads(t),
            forall|t: int| old(self).linked(t) ==> final (self).linked(t),
            forall|t: int|
                old(self).linked(t) ==> final (self).anchor_rule(t) == old(self).anchor_rule(t)
                    && final (self).anchor_pos(t) == old(self).anchor_pos(t),
    {
        let ghost pre = *self;
        let chars = crate::text::str_to_chars(tok);
        let ti = self.tokens.len();
        self.tokens.push(chars);
        proof {
            let post = *self;
            Self::lemma_wf_tokens_grow(pre, post);
            assert forall|t: int| pre.linked(t) implies post.linked(t) && post.anchor_rule(t)
                == pre.anchor_rule(t) && post.anchor_pos(t) == pre.anchor_pos(t) by {
                assert forall|u: int, r: int, i: int| pre.located(u, r, i) <==> post.located(
                    u,
                    r,
                    i,
                ) by {}
                assert(pre.is_guard_sym(t) <==> post.is_guard_sym(t));
            }
        }
        ti
    }

    /// Appends a terminal token at the end of rule `r`'s body.
    pub fn append(&mut self, r: usize, tok: &str)
        requires
            old(self).wf(),
            old(self).alive(r as int),
        ensures
            final (self).wf(),
            final (self).payloads(r as int) == old(self).payloads(r as int).push(
                PayloadV::Terminal(tok@),
            ),
            final (self).n_rules() == old(self).n_rules(),
            forall|t: int| final (self).alive(t) <==> old(self).alive(t),
            forall|t: int|
                old(self).alive(t) && t != r as int ==> final (self).payloads(t) == old(
                    self,
                ).payloads(t),
            forall|t: int|
                0 <= t < old(self).n_rules() ==> final (self).refs_of(t) == old(self).refs_of(t)
                    && final (self).guard_of(t) == old(self).guard_of(t) && final (self).rule_id(t)
                    == old(self).rule_id(t),
    {
        let ghost pre = *self;
        let chars = crate::text::str_to_chars(tok);
        let ti = self.tokens.len();
        self.tokens.push(chars);
        let ghost mid = *self;
        proof {
            Self::lemma_wf_tokens_grow(pre, mid);
        }
        let h = self.get_head(r);
        proof {
            if mid.bod(r as int).len() == 0 {
                assert(h as int == mid.guard_of(r as int));
                assert(mid.alive(r as int) && mid.guard_of(r as int) == h as int);
                assert(mid.is_guard_sym(h as int));
                let r2 = choose|r2: int| #[trigger] mid.alive(r2) && mid.guard_of(r2) == h as int;
                assert(mid.anchor_rule(h as int) == r2);
                assert(r2 == r as int);
            } else {
                let last = mid.bod(r as int).len() - 1;
                assert(mid.located(h as int, r as int, last));
                mid.lemma_loc(h as int, r as int, last);
                if mid.is_guard_sym(h as int) {
                    let r2 = choose|r2: int|
                        #[trigger] mid.alive(r2) && mid.guard_of(r2) == h as int;
                    assert(mid.alive(r2) && mid.guard_of(r2) == h as int);
                    assert(false);
                }
                assert(mid.anchor_rule(h as int) == r as int);
                assert(mid.anchor_pos(h as int) == mid.bod(r as int).len());
            }
            assert(mid.linked(h as int));
            assert(mid.pay_ok(Payload::Terminal(ti)));
        }
        let n = self.insert_after(h, Payload::Terminal(ti));
        proof {
            let post = *self;
            assert(forall|t: int| !Self::pay_refs(Payload::Terminal(ti), t));
            assert forall|t: int| 0 <= t < pre.n_rules() implies post.refs_of(t) == pre.refs_of(t)
                && post.guard_of(t) == pre.guard_of(t) && post.rule_id(t) == pre.rule_id(t) by {
                assert(0 <= t < mid.n_rules());
                assert(!Self::pay_refs(Payload::Terminal(ti), t));
                assert(post.refs_of(t) == mid.refs_of(t));
                assert(mid.refs_of(t) == pre.refs_of(t));
                assert(mid.guard_of(t) == pre.guard_of(t));
                assert(mid.rule_id(t) == pre.rule_id(t));
            }
            assert(mid.payloads(r as int) == pre.payloads(r as int));
            assert(mid.pay_of(Payload::Terminal(ti)) == PayloadV::Terminal(tok@));
            assert(post.payloads(r as int) =~= pre.payloads(r as int).push(
                PayloadV::Terminal(tok@),
            )) by {
                mid.payloads(r as int).insert_ensures(
                    mid.bod(r as int).len() as int,
                    mid.pay_of(Payload::Terminal(ti)),
                );
            }
        }
    }

    /// The symbol's payload, if any, references this rule.
    pub open spec fn sym_is_nt(self, s: int) -> bool {
        match self.syms@[s].payload {
            Some(Payload::Nonterminal(_)) => true,
            _ => false,
        }
    }

    /// The rule referenced by the symbol's payload.
    pub open spec fn nt_target(self, s: int) -> int {
        match self.syms@[s].payload {
            Some(Payload::Nonterminal(q)) => q as int,
            _ => arbitrary(),
        }
    }

    /// Replaces the two-symbol digram starting at `s` with a single fresh
    /// symbol referencing rule `q`, registers that symbol with `q`, and
    /// returns it. The two replaced symbols are detached and unregistered.
    pub fn apply(&mut self, q: usize, s: usize) -> (n: usize)
        requires
            old(self).wf(),
            old(self).alive(q as int),
            old(self).in_body(s as int),
            old(self).loc_pos(s as int) + 1 < old(self).bod(old(self).loc_rule(s as int)).len(),
        ensures
            final (self).wf(),
            n as int == old(self).n_syms(),
            final (self).payloads(old(self).loc_rule(s as int)) == old(self).payloads(
                old(self).loc_rule(s as int),
            ).take(old(self).loc_pos(s as int)) + seq![PayloadV::Nonterminal(q as int)] + old(
                self,
            ).payloads(old(self).loc_rule(s as int)).skip(old(self).loc_pos(s as int) + 2),
            final (self).bod(old(self).loc_rule(s as int)) == old(self).bod(
                old(self).loc_rule(s as int),
            ).take(old(self).loc_pos(s as int)) + seq![n as int] + old(self).bod(
                old(self).loc_rule(s as int),
            ).skip(old(self).loc_pos(s as int) + 2),
            forall|t: int|
                old(self).alive(t) && t != old(self).loc_rule(s as int) ==> final (self).bod(t)
                    == old(self).bod(t),
            final (self).syms@[s as int].left is None,
            final (self).syms@[s as int].right is None,
            final (self).syms@[s as int].payload is None,
            final (self).syms@[old(self).bod(old(self).loc_rule(s as int))[old(self).loc_pos(
                s as int,
            ) + 1]].left is None,
            final (self).syms@[old(self).bod(old(self).loc_rule(s as int))[old(self).loc_pos(
                s as int,
            ) + 1]].right is None,
            final (self).syms@[old(self).bod(old(self).loc_rule(s as int))[old(self).loc_pos(
                s as int,
            ) + 1]].payload is None,
            final (self).located(n as int, old(self).loc_rule(s as int), old(self).loc_pos(
                s as int,
            )),
            final (self).syms@[n as int].payload == Some(Payload::Nonterminal(q)),
            final (self).n_rules() == old(self).n_rules(),
            final (self).tokens@ == old(self).tokens@,
            forall|t: int| final (self).alive(t) <==> old(self).alive(t),
            forall|t: int|
                old(self).alive(t) && t != old(self).loc_rule(s as int) ==> final (self).payloads(
                    t,
                ) == old(self).payloads(t),
            forall|t: int|
                0 <= t < old(self).n_rules() ==> final (self).guard_of(t) == old(self).guard_of(t)
                    && final (self).rule_id(t) == old(self).rule_id(t),
            forall|t: int|
                0 <= t < old(self).n_rules() ==> final (self).refcount_of(t) == old(
                    self,
                ).refcount_of(t) + (if t == q as int {
                    1int
                } else {
                    0int
                }) - (if old(self).is_nt_to(old(self).bod(old(self).loc_rule(s as int))[old(
                    self,
                ).loc_pos(s as int)], t) {
                    1int
                } else {
                    0int
                }) - (if old(self).is_nt_to(old(self).bod(old(self).loc_rule(s as int))[old(
                    self,
                ).loc_pos(s as int) + 1], t) {
                    1int
                } else {
                    0int
                }),
            (!old(self).is_nt_to(old(self).bod(old(self).loc_rule(s as int))[old(self).loc_pos(
                s as int,
            )], q as int) && !old(self).is_nt_to(old(self).bod(old(self).loc_rule(s as int))[old(
                self,
            ).loc_pos(s as int) + 1], q as int)) ==> final (self).refs_of(q as int) == old(
                self,
            ).refs_of(q as int).push(n),
    {
        let ghost pre = *self;
        let ghost rr = pre.loc_rule(s as int);
        let ghost ii = pre.loc_pos(s as int);
        let nlen = self.syms.len();
        proof {
            assert(pre.n_syms() == nlen as int);
            let (r0, i0) = choose|r0: int, i0: int| pre.located(s as int, r0, i0);
            assert(pre.located(s as int, r0, i0));
            pre.lemma_loc(s as int, r0, i0);
            assert(pre.located(s as int, rr, ii));
            pre.lemma_ring_distinct(rr);
            assert(pre.linked_at(rr, ii + 1));
            assert(pre.ring(rr)[ii + 1] == s as int);
        }
        let x = self.syms[s].left.unwrap();
        let b = self.syms[s].right.unwrap();
        let ghost bv = pre.bod(rr)[ii + 1];
        proof {
            assert(b as int == pre.ring(rr)[ii + 2]);
            assert(b as int == bv);
            assert(pre.located(bv, rr, ii + 1));
            pre.lemma_loc(bv, rr, ii + 1);
            assert(pre.entry_ok(rr, ii + 1));
            assert(x as int == pre.ring(rr)[ii]);
        }
        self.remove_symbol(b);
        let ghost st1 = *self;
        proof {
            pre.bod(rr).remove_ensures(ii + 1);
            assert(st1.bod(rr) == pre.bod(rr).remove(ii + 1));
            assert(st1.located(s as int, rr, ii));
            st1.lemma_loc(s as int, rr, ii);
            assert(st1.syms@[s as int].payload == pre.syms@[s as int].payload);
        }
        self.remove_symbol(s);
        let ghost st2 = *self;
        proof {
            st1.bod(rr).remove_ensures(ii);
            assert(st2.bod(rr) == st1.bod(rr).remove(ii));
            assert(st2.bod(rr) =~= pre.bod(rr).take(ii) + pre.bod(rr).skip(ii + 2));
            assert(st2.payloads(rr) =~= pre.payloads(rr).take(ii) + pre.payloads(rr).skip(ii + 2))
                by {
                st1.payloads(rr).remove_ensures(ii);
                pre.payloads(rr).remove_ensures(ii + 1);
                assert forall|j: int| 0 <= j < st2.payloads(rr).len() implies st2.payloads(rr)[j]
                    == (pre.payloads(rr).take(ii) + pre.payloads(rr).skip(ii + 2))[j] by {
                    let jold = if j < ii {
                        j
                    } else {
                        j + 2
                    };
                    assert(st2.bod(rr)[j] == pre.bod(rr)[jold]);
                    assert(pre.entry_ok(rr, jold));
                    assert(pre.located(pre.bod(rr)[jold], rr, jold));
                    assert(st2.syms@[pre.bod(rr)[jold]].payload == pre.syms@[pre.bod(
                        rr,
                    )[jold]].payload);
                }
            }
            // the anchor for the insertion
            if ii == 0 {
                assert(x as int == st2.guard_of(rr));
                assert(st2.alive(rr) && st2.guard_of(rr) == x as int);
                assert(st2.is_guard_sym(x as int));
                let r2 = choose|r2: int| #[trigger] st2.alive(r2) && st2.guard_of(r2) == x as int;
                assert(st2.anchor_rule(x as int) == r2);
                assert(st2.anchor_pos(x as int) == 0);
            } else {
                assert(pre.located(x as int, rr, ii - 1));
                assert(st2.bod(rr)[ii - 1] == pre.bod(rr)[ii - 1]);
                assert(st2.located(x as int, rr, ii - 1));
                st2.lemma_loc(x as int, rr, ii - 1);
                if st2.is_guard_sym(x as int) {
                    let r2 = choose|r2: int|
                        #[trigger] st2.alive(r2) && st2.guard_of(r2) == x as int;
                    assert(st2.alive(r2) && st2.guard_of(r2) == x as int);
                    assert(false);
                }
                assert(st2.anchor_rule(x as int) == rr);
                assert(st2.anchor_pos(x as int) == ii);
            }
            assert(st2.linked(x as int));
            assert(st2.alive(q as int));
            assert(st2.pay_ok(Payload::Nonterminal(q)));
        }
        let n = self.insert_after(x, Payload::Nonterminal(q));
        proof {
            let post = *self;
            st2.bod(rr).insert_ensures(ii, n as int);
            assert(post.bod(rr) =~= pre.bod(rr).take(ii) + seq![n as int] + pre.bod(rr).skip(
                ii + 2,
            ));
            // the two replaced symbols stay cleared through the insertion:
            // each splice only rewrites linked symbols, which have a left link
            assert(st1.syms@[bv].left is None);
            assert(st1.syms@[bv].right is None);
            assert(st1.syms@[bv].payload is None);
            st1.lemma_anchor(s as int);
            assert(st1.anchor_rule(s as int) == rr && st1.anchor_pos(s as int) == ii + 1);
            let lv1 = st1.left_sym(s as int);
            let rv1 = st1.right_sym(s as int);
            assert(st1.linked_at(rr, if ii + 1 == 0 {
                st1.ring(rr).len() - 1
            } else {
                ii
            }));
            assert(st1.syms@[lv1].left is Some);
            assert(st1.linked_at(rr, if ii + 2 == st1.ring(rr).len() {
                0
            } else {
                ii + 2
            }));
            assert(st1.syms@[rv1].left is Some);
            assert(0 <= bv && bv < st1.n_syms());
            assert(bv != s as int && bv != lv1 && bv != rv1);
            assert(st2.syms@[bv] == st1.syms@[bv]);
            assert(st2.syms@[s as int].left is None);
            assert(st2.syms@[bv].left is None);
            st2.lemma_anchor(x as int);
            assert(st2.ring(rr)[st2.anchor_pos(x as int)] == x as int);
            assert(st2.linked_at(rr, st2.anchor_pos(x as int)));
            assert(st2.syms@[x as int].left is Some);
            let orv2 = st2.right_sym(x as int);
            assert(st2.linked_at(rr, if st2.anchor_pos(x as int) + 1 == st2.ring(rr).len() {
                0
            } else {
                st2.anchor_pos(x as int) + 1
            }));
            assert(st2.syms@[orv2].left is Some);
            assert(s as int != x as int && s as int != orv2);
            assert(bv != x as int && bv != orv2);
            assert(post.syms@[s as int] == st2.syms@[s as int]);
            assert(post.syms@[bv] == st2.syms@[bv]);
            assert(post.payloads(rr) == st2.payloads(rr).insert(ii, st2.pay_of(
                Payload::Nonterminal(q),
            )));
            assert(post.payloads(rr) =~= pre.payloads(rr).take(ii) + seq![
                PayloadV::Nonterminal(q as int),
            ] + pre.payloads(rr).skip(ii + 2)) by {
                st2.payloads(rr).insert_ensures(ii, st2.pay_of(Payload::Nonterminal(q)));
            }
            assert(pre.is_nt_to(s as int, q as int) ==> pre.bod(rr)[ii] == s as int);
            let av = pre.bod(rr)[ii];
            assert(av == s as int);
            assert forall|t: int| 0 <= t < pre.n_rules() implies post.refcount_of(t)
                == pre.refcount_of(t) + (if t == q as int {
                1int
            } else {
                0int
            }) - (if pre.is_nt_to(av, t) {
                1int
            } else {
                0int
            }) - (if pre.is_nt_to(bv, t) {
                1int
            } else {
                0int
            }) by {
                if pre.is_nt_to(bv, t) {
                    assert(st1.refs_of(t).len() == pre.refs_of(t).len() - 1);
                } else {
                    assert(st1.refs_of(t) == pre.refs_of(t));
                }
                assert(st1.is_nt_to(s as int, t) == pre.is_nt_to(s as int, t)) by {
                    assert(st1.syms@[s as int].payload == pre.syms@[s as int].payload);
                }
                if st1.is_nt_to(s as int, t) {
                    assert(st2.refs_of(t).len() == st1.refs_of(t).len() - 1);
                } else {
                    assert(st2.refs_of(t) == st1.refs_of(t));
                }
                assert(Self::pay_refs(Payload::Nonterminal(q), t) <==> t == q as int);
                if t == q as int {
                    assert(post.refs_of(t) == st2.refs_of(t).push(n));
                } else {
                    assert(post.refs_of(t) == st2.refs_of(t));
                }
            }
            if !pre.is_nt_to(av, q as int) && !pre.is_nt_to(bv, q as int) {
                assert(st1.refs_of(q as int) == pre.refs_of(q as int));
                assert(st1.is_nt_to(s as int, q as int) == pre.is_nt_to(s as int, q as int)) by {
                    assert(st1.syms@[s as int].payload == pre.syms@[s as int].payload);
                }
                assert(st2.refs_of(q as int) == st1.refs_of(q as int));
                assert(0 <= (q as int) && (q as int) < st2.n_rules());
                assert(Self::pay_refs(Payload::Nonterminal(q), q as int));
                assert(post.refs_of(q as int) == st2.refs_of(q as int).push(n));
            }
        }
        n
    }

    /// Payload view `p` references rule `t`.
    pub open spec fn pay_v_refs(p: PayloadV, t: int) -> bool {
        match p {
            PayloadV::Nonterminal(u) => u == t,
            _ => false,
        }
    }

    /// Number of references to rule `t` among the payloads `ps`.
    pub open spec fn count_refs_to(ps: Seq<PayloadV>, t: int) -> int
        decreases ps.len(),
    {
        if ps.len() == 0 {
            0
        } else {
            (if Self::pay_v_refs(ps[0], t) {
                1int
            } else {
                0int
            }) + Self::count_refs_to(ps.skip(1), t)
        }
    }

    /// Counting distributes over appending one payload at the end.
    pub proof fn lemma_count_push(ps: Seq<PayloadV>, p: PayloadV, t: int)
        ensures
            Self::count_refs_to(ps.push(p), t) == Self::count_refs_to(ps, t) + (
            if Self::pay_v_refs(p, t) {
                1int
            } else {
                0int
            }),
        decreases ps.len(),
    {
        if ps.len() == 0 {
            reveal_with_fuel(Grammar::count_refs_to, 2);
            assert(ps.push(p)[0] == p);
            assert(ps.push(p).skip(1) =~= Seq::<PayloadV>::empty());
        } else {
            assert(ps.push(p).skip(1) =~= ps.skip(1).push(p));
            Self::lemma_count_push(ps.skip(1), p, t);
        }
    }

    /// A body without references to `t` counts zero.
    pub proof fn lemma_count_zero(ps: Seq<PayloadV>, t: int)
        requires
            forall|j: int| 0 <= j < ps.len() ==> !Self::pay_v_refs(ps[j], t),
        ensures
            Self::count_refs_to(ps, t) == 0,
        decreases ps.len(),
    {
        if ps.len() > 0 {
            Self::lemma_count_zero(ps.skip(1), t);
        }
    }

    /// The payloads of rule `r`'s body, in list order.
    pub fn body_payloads(&self, r: usize) -> (v: Vec<Payload>)
        requires
            self.wf(),
            self.alive(r as int),
        ensures
            v@.len() == self.bod(r as int).len(),
            forall|j: int|
                0 <= j < v@.len() ==> Some(v@[j]) == self.syms@[self.bod(r as int)[j]].payload,
    {
        let ids = self.body_symbols(r);
        let mut v: Vec<Payload> = Vec::new();
        let mut j: usize = 0;
        while j < ids.len()
            invariant
                self.wf(),
                self.alive(r as int),
                ids@.len() == self.bod(r as int).len(),
                forall|u: int| 0 <= u < ids@.len() ==> ids@[u] as int == self.bod(r as int)[u],
                j <= ids.len(),
                v@.len() == j as int,
                forall|u: int|
                    0 <= u < v@.len() ==> Some(v@[u]) == self.syms@[self.bod(r as int)[u]].payload,
            decreases ids.len() - j,
        {
            proof {
                assert(self.entry_ok(r as int, j as int));
            }
            let p = self.syms[ids[j]].payload.unwrap();
            v.push(p);
            j = j + 1;
        }
        v
    }

    /// Inlines the body of the rule referenced by `s` in place of `s`:
    /// fresh copies of the referenced rule's payloads are spliced where `s`
    /// stood, `s` is detached and unregistered, and every copied reference is
    /// registered with its rule. The referenced rule itself is untouched.
    #[verifier::rlimit(100)]
    pub fn dissolve(&mut self, s: usize)
        requires
            old(self).wf(),
            old(self).in_body(s as int),
            old(self).sym_is_nt(s as int),
            old(self).loc_rule(s as int) != old(self).nt_target(s as int),
            forall|j: int|
                0 <= j < old(self).bod(old(self).nt_target(s as int)).len() ==> !old(
                    self,
                ).is_nt_to(
                    old(self).bod(old(self).nt_target(s as int))[j],
                    old(self).nt_target(s as int),
                ),
        ensures
            final (self).wf(),
            final (self).payloads(old(self).loc_rule(s as int)) == old(self).payloads(
                old(self).loc_rule(s as int),
            ).take(old(self).loc_pos(s as int)) + old(self).payloads(
                old(self).nt_target(s as int),
            ) + old(self).payloads(old(self).loc_rule(s as int)).skip(
                old(self).loc_pos(s as int) + 1,
            ),
            forall|t: int|
                old(self).alive(t) && t != old(self).loc_rule(s as int) ==> final (self).payloads(
                    t,
                ) == old(self).payloads(t) && final (self).bod(t) == old(self).bod(t),
            final (self).syms@[s as int].left is None,
            final (self).syms@[s as int].right is None,
            final (self).syms@[s as int].payload is None,
            final (self).n_rules() == old(self).n_rules(),
            final (self).tokens@ == old(self).tokens@,
            old(self).n_syms() <= final (self).n_syms(),
            forall|t: int| final (self).alive(t) <==> old(self).alive(t),
            forall|t: int|
                0 <= t < old(self).n_rules() ==> final (self).guard_of(t) == old(self).guard_of(t)
                    && final (self).rule_id(t) == old(self).rule_id(t),
            final (self).refcount_of(old(self).nt_target(s as int)) == old(self).refcount_of(
                old(self).nt_target(s as int),
            ) - 1,
            forall|t: int|
                0 <= t < old(self).n_rules() && t != old(self).nt_target(s as int)
                    ==> final (self).refcount_of(t) == old(self).refcount_of(t)
                    + Self::count_refs_to(old(self).payloads(old(self).nt_target(s as int)), t),
    {
        let ghost pre = *self;
        let ghost rr = pre.loc_rule(s as int);
        let ghost ii = pre.loc_pos(s as int);
        let nlen = self.syms.len();
        proof {
            assert(pre.n_syms() == nlen as int);
            let (r0, i0) = choose|r0: int, i0: int| pre.located(s as int, r0, i0);
            assert(pre.located(s as int, r0, i0));
            pre.lemma_loc(s as int, r0, i0);
            assert(pre.located(s as int, rr, ii));
            pre.lemma_ring_distinct(rr);
            assert(pre.linked_at(rr, ii + 1));
            assert(pre.entry_ok(rr, ii));
        }
        let q = match self.syms[s].payload {
            Some(Payload::Nonterminal(qq)) => qq,
            _ => vstd::pervasive::unreached(),
        };
        let ghost qq = q as int;
        proof {
            assert(qq == pre.nt_target(s as int));
            assert(pre.alive(qq));
            assert(forall|j: int|
                0 <= j < pre.payloads(qq).len() ==> pre.payloads(qq)[j] == pre.pay(
                    pre.bod(qq)[j],
                ));
            assert forall|j: int| 0 <= j < pre.payloads(qq).len() implies !Self::pay_v_refs(
                pre.payloads(qq)[j],
                qq,
            ) by {
                assert(pre.entry_ok(qq, j));
                assert(!pre.is_nt_to(pre.bod(qq)[j], qq));
            }
        }
        let pays = self.body_payloads(q);
        let mut cur = self.syms[s].left.unwrap();
        proof {
            assert(cur as int == pre.ring(rr)[ii]);
        }
        self.remove_symbol(s);
        let ghost st1 = *self;
        proof {
            pre.payloads(rr).remove_ensures(ii);
            pre.bod(rr).remove_ensures(ii);
            assert(st1.payloads(rr) =~= pre.payloads(rr).take(ii) + pre.payloads(qq).take(0)
                + pre.payloads(rr).skip(ii + 1)) by {
                assert(st1.payloads(rr) == pre.payloads(rr).remove(ii));
            }
            assert forall|t: int| 0 <= t < pre.n_rules() implies st1.refcount_of(t)
                == pre.refcount_of(t) - (if t == qq {
                1int
            } else {
                0int
            }) + Self::count_refs_to(pre.payloads(qq).take(0), t) by {
                assert(pre.is_nt_to(s as int, t) <==> t == qq);
                assert(Self::count_refs_to(pre.payloads(qq).take(0), t) == 0) by {
                    assert(pre.payloads(qq).take(0) =~= Seq::<PayloadV>::empty());
                }
            }
            if ii == 0 {
                assert(cur as int == st1.guard_of(rr));
            } else {
                assert(pre.located(cur as int, rr, ii - 1));
                assert(st1.bod(rr)[ii - 1] == pre.bod(rr)[ii - 1]);
                assert(st1.located(cur as int, rr, ii - 1));
            }
            assert forall|j: int| 0 <= j < pays@.len() implies pre.pay_ok(pays@[j]) by {
                assert(pre.entry_ok(qq, j));
                assert(Some(pays@[j]) == pre.syms@[pre.bod(qq)[j]].payload);
            }
            assert forall|j: int| 0 <= j < pays@.len() implies pre.pay_of(pays@[j])
                == pre.payloads(qq)[j] by {
                assert(pre.entry_ok(qq, j));
                assert(Some(pays@[j]) == pre.syms@[pre.bod(qq)[j]].payload);
                assert(pre.payloads(qq)[j] == pre.pay(pre.bod(qq)[j]));
            }
        }
        let mut k: usize = 0;
        while k < pays.len()
            invariant
                self.wf(),
                st1.wf(),
                pre.alive(rr),
                pre.alive(qq),
                rr != qq,
                0 <= ii <= pre.payloads(rr).len() - 1,
                pays@.len() == pre.payloads(qq).len(),
                forall|j: int|
                    0 <= j < pays@.len() ==> Some(pays@[j]) == pre.syms@[pre.bod(qq)[j]].payload,
                forall|j: int| 0 <= j < pays@.len() ==> pre.pay_ok(pays@[j]),
                forall|j: int|
                    0 <= j < pays@.len() ==> pre.pay_of(pays@[j]) == pre.payloads(qq)[j],
                k <= pays.len(),
                self.n_rules() == pre.n_rules(),
                self.tokens@ == pre.tokens@,
                forall|t: int| self.alive(t) <==> pre.alive(t),
                forall|t: int|
                    0 <= t < pre.n_rules() ==> self.guard_of(t) == pre.guard_of(t)
                        && self.rule_id(t) == pre.rule_id(t),
                self.payloads(rr) == pre.payloads(rr).take(ii) + pre.payloads(qq).take(k as int)
                    + pre.payloads(rr).skip(ii + 1),
                forall|t: int|
                    pre.alive(t) && t != rr ==> self.payloads(t) == pre.payloads(t) && self.bod(t)
                        == pre.bod(t),
                self.syms@[s as int].left is None,
                self.syms@[s as int].right is None,
                self.syms@[s as int].payload is None,
                (s as int) < pre.n_syms(),
                pre.n_syms() <= self.n_syms(),
                forall|t: int|
                    0 <= t < pre.n_rules() ==> self.refcount_of(t) == pre.refcount_of(t) - (
                    if t == qq {
                        1int
                    } else {
                        0int
                    }) + Self::count_refs_to(pre.payloads(qq).take(k as int), t),
                (ii + k as int == 0 && cur as int == self.guard_of(rr)) || (ii + k as int > 0
                    && self.located(cur as int, rr, ii + k as int - 1)),
            decreases pays.len() - k,
        {
            let ghost stk = *self;
            let ghost kk = k as int;
            proof {
                if ii + kk == 0 {
                    assert(stk.alive(rr) && stk.guard_of(rr) == cur as int);
                    assert(stk.is_guard_sym(cur as int));
                    let r2 = choose|r2: int|
                        #[trigger] stk.alive(r2) && stk.guard_of(r2) == cur as int;
                    assert(stk.anchor_rule(cur as int) == r2);
                    assert(stk.anchor_pos(cur as int) == 0);
                } else {
                    assert(stk.located(cur as int, rr, ii + kk - 1));
                    stk.lemma_loc(cur as int, rr, ii + kk - 1);
                    if stk.is_guard_sym(cur as int) {
                        let r2 = choose|r2: int|
                            #[trigger] stk.alive(r2) && stk.guard_of(r2) == cur as int;
                        assert(stk.alive(r2) && stk.guard_of(r2) == cur as int);
                        assert(false);
                    }
                    assert(stk.anchor_rule(cur as int) == rr);
                    assert(stk.anchor_pos(cur as int) == ii + kk);
                }
                assert(stk.linked(cur as int));
                assert(stk.pay_ok(pays@[kk])) by {
                    assert(pre.pay_ok(pays@[kk]));
                    match pays@[kk] {
                        Payload::Nonterminal(u) => {
                            assert(pre.alive(u as int));
                            assert(stk.alive(u as int));
                        },
                        _ => {},
                    }
                }
            }
            let ghost curv = cur as int;
            let n = self.insert_after(cur, pays[k]);
            cur = n;
            proof {
                let post = *self;
                assert(stk.pay_of(pays@[kk]) == pre.pay_of(pays@[kk]));
                assert(post.payloads(rr) == stk.payloads(rr).insert(ii + kk, pre.payloads(
                    qq,
                )[kk]));
                stk.payloads(rr).insert_ensures(ii + kk, pre.payloads(qq)[kk]);
                assert(pre.payloads(qq).take(kk + 1) =~= pre.payloads(qq).take(kk).push(
                    pre.payloads(qq)[kk],
                ));
                assert(post.payloads(rr) =~= pre.payloads(rr).take(ii) + pre.payloads(qq).take(
                    kk + 1,
                ) + pre.payloads(rr).skip(ii + 1));
                assert forall|t: int| 0 <= t < pre.n_rules() implies post.refcount_of(t)
                    == pre.refcount_of(t) - (if t == qq {
                    1int
                } else {
                    0int
                }) + Self::count_refs_to(pre.payloads(qq).take(kk + 1), t) by {
                    assert(stk.refcount_of(t) == pre.refcount_of(t) - (if t == qq {
                        1int
                    } else {
                        0int
                    }) + Self::count_refs_to(pre.payloads(qq).take(kk), t));
                    assert(0 <= t < stk.n_rules());
                    Self::lemma_count_push(
                        pre.payloads(qq).take(kk),
                        pre.payloads(qq)[kk],
                        t,
                    );
                    assert(pre.pay_of(pays@[kk]) == pre.payloads(qq)[kk]);
                    assert(Self::pay_refs(pays@[kk], t) <==> Self::pay_v_refs(
                        pre.payloads(qq)[kk],
                        t,
                    )) by {
                        match pays@[kk] {
                            Payload::Nonterminal(u) => {
                                assert(pre.payloads(qq)[kk] == PayloadV::Nonterminal(u as int));
                            },
                            Payload::Terminal(u) => {
                                assert(pre.payloads(qq)[kk] == PayloadV::Terminal(
                                    pre.tokens@[u as int]@,
                                ));
                            },
                            Payload::Guard(u) => {
                                assert(pre.payloads(qq)[kk] == PayloadV::Guard(u as int));
                            },
                        }
                    }
                    if Self::pay_refs(pays@[kk], t) {
                        assert(post.refs_of(t) == stk.refs_of(t).push(n));
                    } else {
                        assert(post.refs_of(t) == stk.refs_of(t));
                    }
                }
                assert(post.located(n as int, rr, ii + kk));
                // the dissolved symbol stays cleared: the splice rewrites only
                // the anchor and its right neighbor, both of which are linked
                assert(stk.ring(rr)[stk.anchor_pos(curv)] == curv);
                assert(stk.linked_at(rr, stk.anchor_pos(curv)));
                assert(stk.syms@[curv].left is Some);
                let orv2 = stk.right_sym(curv);
                assert(stk.linked_at(rr, if stk.anchor_pos(curv) + 1 == stk.ring(rr).len() {
                    0
                } else {
                    stk.anchor_pos(curv) + 1
                }));
                assert(stk.syms@[orv2].left is Some);
                assert(s as int != curv && s as int != orv2);
                assert(0 <= (s as int) && (s as int) < stk.n_syms());
                assert(post.syms@[s as int] == stk.syms@[s as int]);
            }
            k = k + 1;
        }
        proof {
            let post = *self;
            assert(pre.payloads(qq).take(pre.payloads(qq).len() as int) =~= pre.payloads(qq));
            assert(post.payloads(rr) == pre.payloads(rr).take(ii) + pre.payloads(qq)
                + pre.payloads(rr).skip(ii + 1));
            assert forall|t: int| 0 <= t < pre.n_rules() implies (t == qq ==> post.refcount_of(t)
                == pre.refcount_of(t) - 1) && (t != qq ==> post.refcount_of(t) == pre.refcount_of(
                t,
            ) + Self::count_refs_to(pre.payloads(qq), t)) by {
                if t == qq {
                    Self::lemma_count_zero(pre.payloads(qq), qq);
                }
            }
        }
    }

    /// Tears the rule down: dissolves its single remaining reference, then
    /// releases the body and severs the guard, leaving the rule permanently
    /// unusable.
    #[verifier::rlimit(100)]
    pub fn delete(&mut self, r: usize)
        requires
            old(self).wf(),
            old(self).alive(r as int),
            old(self).refcount_of(r as int) == 1,
            old(self).loc_rule(old(self).refs_of(r as int)[0] as int) != r as int,
        ensures
            final (self).wf(),
            !final (self).alive(r as int),
            final (self).syms@[old(self).guard_of(r as int)].left is None,
            final (self).syms@[old(self).guard_of(r as int)].right is None,
            final (self).syms@[old(self).guard_of(r as int)].payload is None,
            final (self).syms@[old(self).refs_of(r as int)[0] as int].left is None,
            final (self).syms@[old(self).refs_of(r as int)[0] as int].right is None,
            final (self).syms@[old(self).refs_of(r as int)[0] as int].payload is None,
            forall|j: int|
                0 <= j < old(self).bod(r as int).len() ==> final (self).syms@[old(self).bod(
                    r as int,
                )[j]].left is None && final (self).syms@[old(self).bod(r as int)[j]].right is None
                    && final (self).syms@[old(self).bod(r as int)[j]].payload is None,
            final (self).bod(r as int).len() == 0,
            final (self).refs_of(r as int).len() == 0,
            final (self).payloads(old(self).loc_rule(old(self).refs_of(r as int)[0] as int)) == old(
                self,
            ).payloads(old(self).loc_rule(old(self).refs_of(r as int)[0] as int)).take(
                old(self).loc_pos(old(self).refs_of(r as int)[0] as int),
            ) + old(self).payloads(r as int) + old(self).payloads(
                old(self).loc_rule(old(self).refs_of(r as int)[0] as int),
            ).skip(old(self).loc_pos(old(self).refs_of(r as int)[0] as int) + 1),
            forall|t: int|
                old(self).alive(t) && t != r as int && t != old(self).loc_rule(
                    old(self).refs_of(r as int)[0] as int,
                ) ==> final (self).payloads(t) == old(self).payloads(t),
            forall|t: int|
                0 <= t < old(self).n_rules() ==> (final (self).alive(t) <==> (old(self).alive(t)
                    && t != r as int)),
            forall|t: int|
                0 <= t < old(self).n_rules() && t != r as int ==> final (self).refcount_of(t)
                    == old(self).refcount_of(t),
    {
        let ghost pre = *self;
        let ghost rv = r as int;
        let nlen = self.syms.len();
        proof {
            assert(pre.n_syms() == nlen as int);
        }
        let s0 = self.rules[r].refs[0];
        let ghost rr2 = pre.loc_rule(s0 as int);
        let ghost ii2 = pre.loc_pos(s0 as int);
        proof {
            assert(pre.refs_wf(rv));
            assert(pre.ref_entry_ok(rv, 0));
            assert(pre.in_body(s0 as int));
            assert(pre.is_nt_to(s0 as int, rv));
            assert(pre.sym_is_nt(s0 as int));
            assert(pre.nt_target(s0 as int) == rv);
            assert forall|j: int| 0 <= j < pre.bod(rv).len() implies !pre.is_nt_to(
                pre.bod(rv)[j],
                rv,
            ) by {
                if pre.is_nt_to(pre.bod(rv)[j], rv) {
                    assert(pre.entry_ok(rv, j));
                    assert(pre.located(pre.bod(rv)[j], rv, j));
                    assert(pre.refs_of(rv).contains(pre.bod(rv)[j] as usize));
                    let k = choose|k: int|
                        0 <= k < pre.refs_of(rv).len() && pre.refs_of(rv)[k] == pre.bod(
                            rv,
                        )[j] as usize;
                    assert(k == 0);
                    assert(pre.bod(rv)[j] == s0 as int);
                    assert(pre.located(s0 as int, rv, j));
                    pre.lemma_loc(s0 as int, rv, j);
                    assert(false);
                }
            }
        }
        self.dissolve(s0);
        let ghost st1 = *self;
        proof {
            assert(st1.payloads(rv) == pre.payloads(rv));
            assert(st1.bod(rv) == pre.bod(rv));
            assert(st1.refcount_of(rv) == 0);
            assert(st1.alive(rv));
            assert(st1.syms@[s0 as int].left is None);
            assert((s0 as int) < pre.n_syms());
        }
        let g = self.rules[r].guard;
        let ghost full = st1.payloads(rv);
        let ghost mut k: int = 0;
        let nlen0 = self.syms.len();
        proof {
            assert(st1.linked_at(rv, 0));
            st1.lemma_ring_distinct(rv);
        }
        let mut cur = self.syms[g].right.unwrap();
        while cur != g
            invariant
                self.wf(),
                self.alive(rv),
                g as int == self.guard_of(rv),
                0 <= k <= full.len(),
                self.payloads(rv) == full.skip(k),
                self.n_rules() == st1.n_rules(),
                self.tokens@ == st1.tokens@,
                forall|t: int| self.alive(t) <==> st1.alive(t),
                forall|t: int|
                    0 <= t < st1.n_rules() ==> self.guard_of(t) == st1.guard_of(t)
                        && self.rule_id(t) == st1.rule_id(t),
                forall|t: int|
                    st1.alive(t) && t != rv ==> self.payloads(t) == st1.payloads(t),
                forall|t: int|
                    0 <= t < st1.n_rules() ==> self.refcount_of(t) == st1.refcount_of(t)
                        - Self::count_refs_to(full.take(k), t),
                self.n_syms() == nlen0 as int,
                st1.n_syms() == nlen0 as int,
                st1.wf(),
                st1.alive(rv),
                full == st1.payloads(rv),
                (s0 as int) < nlen0 as int,
                self.bod(rv) == st1.bod(rv).skip(k),
                self.syms@[s0 as int].left is None,
                self.syms@[s0 as int].right is None,
                self.syms@[s0 as int].payload is None,
                forall|j: int|
                    0 <= j < k ==> self.syms@[st1.bod(rv)[j]].left is None && self.syms@[st1.bod(
                        rv,
                    )[j]].right is None && self.syms@[st1.bod(rv)[j]].payload is None,
                cur as int == self.first_sym(rv),
            decreases full.len() - k,
        {
            let ghost stk = *self;
            proof {
                if stk.bod(rv).len() == 0 {
                    assert(cur == g);
                }
                assert(stk.located(cur as int, rv, 0));
                stk.lemma_loc(cur as int, rv, 0);
                assert(stk.payloads(rv)[0] == full.skip(k)[0]);
            }
            let ghost curv = cur as int;
            self.remove_symbol(cur);
            proof {
                let post = *self;
                stk.payloads(rv).remove_ensures(0);
                assert(post.payloads(rv) =~= full.skip(k + 1)) by {
                    assert(post.payloads(rv) == stk.payloads(rv).remove(0));
                    assert(stk.payloads(rv) == full.skip(k));
                }
                stk.bod(rv).remove_ensures(0);
                assert(0 <= k);
                assert(st1.payloads(rv).len() == st1.bod(rv).len());
                assert(k <= st1.bod(rv).len());
                assert(stk.bod(rv) == st1.bod(rv).skip(k));
                assert(stk.bod(rv).len() == st1.bod(rv).len() - k);
                assert forall|j: int| 0 <= j < stk.bod(rv).len() implies stk.bod(rv)[j]
                    == st1.bod(rv)[k + j] by {
                    assert(st1.bod(rv).subrange(k, st1.bod(rv).len() as int)[j] == st1.bod(
                        rv,
                    )[k + j]);
                }
                assert(post.bod(rv) =~= st1.bod(rv).skip(k + 1)) by {
                    assert(post.bod(rv) == stk.bod(rv).remove(0));
                }
                assert(curv == stk.bod(rv)[0]);
                assert(curv == st1.bod(rv)[k]);
                // previously cleared symbols stay cleared: the splice rewrites
                // only the removed symbol's two neighbors, which are linked
                stk.lemma_anchor(curv);
                assert(stk.anchor_rule(curv) == rv && stk.anchor_pos(curv) == 1);
                let lv2 = stk.left_sym(curv);
                let rv2 = stk.right_sym(curv);
                assert(stk.linked_at(rv, 0));
                assert(lv2 == stk.guard_of(rv));
                assert(stk.syms@[lv2].left is Some);
                assert(stk.linked_at(rv, if 2 == stk.ring(rv).len() {
                    0
                } else {
                    2
                }));
                assert(stk.syms@[rv2].left is Some);
                assert(stk.linked_at(rv, 1));
                assert(stk.ring(rv)[1] == curv);
                assert(stk.syms@[curv].left is Some);
                assert(s0 as int != curv && s0 as int != lv2 && s0 as int != rv2);
                assert(post.syms@[s0 as int] == stk.syms@[s0 as int]);
                assert forall|j: int|
                    0 <= j < k + 1 implies post.syms@[st1.bod(rv)[j]].left is None
                    && post.syms@[st1.bod(rv)[j]].right is None && post.syms@[st1.bod(
                    rv,
                )[j]].payload is None by {
                    let u = st1.bod(rv)[j];
                    if j == k {
                        assert(u == curv);
                    } else {
                        assert(stk.syms@[u].left is None);
                        assert(0 <= u && u < nlen0 as int) by {
                            assert(st1.entry_ok(rv, j));
                        }
                        assert(u != curv && u != lv2 && u != rv2);
                        assert(post.syms@[u] == stk.syms@[u]);
                    }
                }
                assert(full.take(k + 1) =~= full.take(k).push(full[k]));
                assert forall|t: int| 0 <= t < st1.n_rules() implies post.refcount_of(t)
                    == st1.refcount_of(t) - Self::count_refs_to(full.take(k + 1), t) by {
                    assert(stk.refcount_of(t) == st1.refcount_of(t) - Self::count_refs_to(
                        full.take(k),
                        t,
                    ));
                    assert(0 <= t < stk.n_rules());
                    Self::lemma_count_push(full.take(k), full[k], t);
                    assert(stk.is_nt_to(cur as int, t) <==> Self::pay_v_refs(full[k], t)) by {
                        assert(stk.entry_ok(rv, 0));
                        assert(stk.bod(rv)[0] == cur as int);
                        assert(stk.payloads(rv)[0] == stk.pay(cur as int));
                        assert(stk.pay(cur as int) == full[k]);
                        match stk.syms@[cur as int].payload {
                            Some(Payload::Nonterminal(u)) => {
                                assert(full[k] == PayloadV::Nonterminal(u as int));
                            },
                            Some(Payload::Terminal(u)) => {
                                assert(full[k] == PayloadV::Terminal(stk.tokens@[u as int]@));
                            },
                            _ => {},
                        }
                    }
                    if stk.is_nt_to(cur as int, t) {
                        assert(post.refs_of(t).len() == stk.refs_of(t).len() - 1);
                    } else {
                        assert(post.refs_of(t) == stk.refs_of(t));
                    }
                }
                k = k + 1;
            }
            proof {
                assert(self.linked_at(rv, 0));
                self.lemma_ring_distinct(rv);
            }
            cur = self.syms[g].right.unwrap();
        }
        let ghost st2 = *self;
        proof {
            if st2.bod(rv).len() > 0 {
                assert(st2.entry_ok(rv, 0));
                assert(cur as int == st2.bod(rv)[0]);
                assert(false);
            }
            assert(st2.bod(rv).len() == 0);
            assert(k == full.len()) by {
                assert(st2.payloads(rv) == full.skip(k));
            }
            assert(k == st1.bod(rv).len());
            assert(full.take(full.len() as int) =~= full);
            assert forall|j: int| 0 <= j < full.len() implies !Self::pay_v_refs(full[j], rv) by {
                assert(full[j] == pre.payloads(rv)[j]);
                assert(pre.payloads(rv)[j] == pre.pay(pre.bod(rv)[j]));
                assert(pre.entry_ok(rv, j));
                assert(!pre.is_nt_to(pre.bod(rv)[j], rv));
                match pre.syms@[pre.bod(rv)[j]].payload {
                    Some(Payload::Nonterminal(u)) => {
                        assert(full[j] == PayloadV::Nonterminal(u as int));
                        assert(u as int != rv);
                    },
                    Some(Payload::Terminal(u)) => {
                        assert(full[j] == PayloadV::Terminal(pre.tokens@[u as int]@));
                    },
                    _ => {},
                }
            }
            Self::lemma_count_zero(full, rv);
            assert(st2.refcount_of(rv) == 0);
            assert forall|t: int| 0 <= t < st1.n_rules() && t != rv implies st2.refcount_of(t)
                == pre.refcount_of(t) by {
                assert(st2.refcount_of(t) == st1.refcount_of(t) - Self::count_refs_to(full, t));
                assert(st1.refcount_of(t) == pre.refcount_of(t) + Self::count_refs_to(
                    pre.payloads(rv),
                    t,
                ));
                assert(full == pre.payloads(rv));
            }
        }
        proof {
            assert(st2.linked_at(rv, 0));
            assert(st2.syms@[g as int].left is Some);
            assert(g as int != s0 as int);
            assert(forall|j: int|
                0 <= j < st1.bod(rv).len() ==> #[trigger] st1.bod(rv)[j] != g as int);
        }
        self.syms[g] = Symbol { left: None, right: None, payload: None };
        proof {
            let post = *self;
            assert(!post.alive(rv));
            assert(post.syms@[s0 as int] == st2.syms@[s0 as int]);
            assert forall|j: int|
                0 <= j < pre.bod(rv).len() implies post.syms@[pre.bod(rv)[j]].left is None
                && post.syms@[pre.bod(rv)[j]].right is None && post.syms@[pre.bod(
                rv,
            )[j]].payload is None by {
                let u = pre.bod(rv)[j];
                assert(u == st1.bod(rv)[j]);
                assert(st2.syms@[u].left is None);
                assert(0 <= u && u < nlen0 as int) by {
                    assert(st1.entry_ok(rv, j));
                }
                assert(u != g as int);
                assert(post.syms@[u] == st2.syms@[u]);
            }
            assert forall|t: int| 0 <= t < st2.n_rules() && t != rv implies (post.alive(t)
                <==> st2.alive(t)) by {
                assert(st2.guard_of(t) == post.guard_of(t));
                if st2.alive(t) {
                    assert(st2.guard_of(t) != g as int);
                    assert(post.syms@[st2.guard_of(t)] == st2.syms@[st2.guard_of(t)]);
                }
            }
            assert forall|u: int, r1: int, i1: int| post.located(u, r1, i1) implies st2.located(
                u,
                r1,
                i1,
            ) && r1 != rv by {
                assert(post.bod(r1) == st2.bod(r1));
            }
            assert forall|u: int, r1: int, i1: int|
                st2.located(u, r1, i1) && r1 != rv implies post.located(u, r1, i1) by {}
            assert forall|t: int| post.alive(t) implies post.rule_wf(t) && post.refs_wf(t)
                && post.payloads(t) == st2.payloads(t) by {
                assert(st2.alive(t) && t != rv);
                assert forall|i: int| 0 <= i < st2.ring(t).len() implies !set![g as int].contains(
                    st2.ring(t)[i],
                ) by {
                    if i == 0 {
                        assert(st2.ring(t)[0] == st2.guard_of(t));
                    } else {
                        assert(st2.located(st2.bod(t)[i - 1], t, i - 1));
                        assert(st2.alive(rv));
                    }
                }
                assert forall|i: int|
                    0 <= i < st2.bod(t).len() implies (match st2.syms@[#[trigger] st2.bod(
                    t,
                )[i]].payload {
                    Some(Payload::Nonterminal(u)) => post.alive(u as int),
                    _ => true,
                }) by {
                    assert(st2.entry_ok(t, i));
                    match st2.syms@[st2.bod(t)[i]].payload {
                        Some(Payload::Nonterminal(u)) => {
                            if u as int == rv {
                                assert(st2.is_nt_to(st2.bod(t)[i], rv));
                                assert(st2.located(st2.bod(t)[i], t, i));
                                assert(st2.refs_of(rv).contains(st2.bod(t)[i] as usize));
                                let kz = choose|kz: int|
                                    0 <= kz < st2.refs_of(rv).len() && st2.refs_of(rv)[kz]
                                        == st2.bod(t)[i] as usize;
                                assert(false);
                            }
                            assert(st2.alive(u as int));
                        },
                        _ => {},
                    }
                }
                Self::lemma_rule_frame(st2, post, t, set![g as int]);
                assert(st2.refs_wf(t));
                assert forall|kk: int| 0 <= kk < post.refs_of(t).len() implies post.ref_entry_ok(
                    t,
                    kk,
                ) by {
                    assert(st2.ref_entry_ok(t, kk));
                    let u = st2.refs_of(t)[kk] as int;
                    let (r2, i2) = choose|r2: int, i2: int| st2.located(u, r2, i2);
                    assert(st2.located(u, r2, i2));
                    assert(r2 != rv);
                    assert(post.located(u, r2, i2));
                    assert(u != g as int);
                    assert(post.syms@[u].payload == st2.syms@[u].payload);
                }
            }
            assert(post.bodies_disjoint());
            assert(post.guards_separate()) by {
                assert forall|r1: int, u: int, r2: int, i: int|
                    post.alive(r1) && post.located(u, r2, i) implies u != post.guard_of(r1) by {
                    assert(st2.alive(r1));
                    assert(st2.located(u, r2, i));
                }
            }
            assert(post.refs_complete()) by {
                assert forall|t: int, u: int, r2: int, i: int|
                    post.alive(t) && post.located(u, r2, i) && post.is_nt_to(u, t) implies
                    post.refs_of(t).contains(u as usize) by {
                    assert(st2.located(u, r2, i));
                    assert(st2.entry_ok(r2, i));
                    assert(0 <= u && u < st2.n_syms());
                    assert(st2.alive(rv));
                    assert(u != st2.guard_of(rv));
                    assert(u != g as int);
                    assert(post.syms@[u].payload == st2.syms@[u].payload);
                    assert(st2.is_nt_to(u, t));
                }
            }
            assert(post.payloads(rr2) == st1.payloads(rr2)) by {
                assert(rr2 != rv);
                assert(st1.alive(rr2));
                assert(post.alive(rr2));
                assert(st2.payloads(rr2) == st1.payloads(rr2));
            }
            assert forall|t: int|
                pre.alive(t) && t != rv && t != rr2 implies post.payloads(t) == pre.payloads(
                t,
            ) by {
                assert(st1.payloads(t) == pre.payloads(t));
                assert(st2.payloads(t) == st1.payloads(t));
                assert(post.alive(t));
            }
        }
    }

    /// The display name of rule `r`: the letter r followed by its identifier
    /// in decimal.
    pub open spec fn name_str(self, r: int) -> Seq<char> {
        seq!['r'] + dec_digits(self.rule_id(r) as nat)
    }

    /// The raw text of one body element: the token itself, or the referenced
    /// rule's display name.
    pub open spec fn elem_str(self, p: PayloadV) -> Seq<char> {
        match p {
            PayloadV::Terminal(t) => t,
            PayloadV::Nonterminal(q) => self.name_str(q),
            PayloadV::Guard(_) => Seq::empty(),
        }
    }

    /// The texts of the rule's body elements, in order.
    pub open spec fn elem_strs(self, r: int) -> Seq<Seq<char>> {
        self.payloads(r).map_values(|p: PayloadV| self.elem_str(p))
    }

    /// The canonical rendering of rule `r`: its name, a colon, then each body
    /// element escaped and preceded by one space.
    pub open spec fn rule_str(self, r: int) -> Seq<char> {
        self.name_str(r) + seq![':'] + render_tokens(self.elem_strs(r))
    }

    /// The rule's display name as text.
    pub fn to_str(&self, r: usize) -> (out: String)
        requires
            self.wf(),
            (r as int) < self.n_rules(),
        ensures
            out@ == self.name_str(r as int),
    {
        let mut v: Vec<char> = Vec::new();
        v.push('r');
        push_dec_digits(&mut v, self.rules[r].id);
        proof {
            assert(v@ =~= self.name_str(r as int));
        }
        chars_to_string(&v)
    }

    /// The canonical rendering of the rule: name, colon, escaped tokens.
    pub fn to_rule_str(&self, r: usize) -> (out: String)
        requires
            self.wf(),
            self.alive(r as int),
        ensures
            out@ == self.rule_str(r as int),
    {
        let mut v: Vec<char> = Vec::new();
        v.push('r');
        push_dec_digits(&mut v, self.rules[r].id);
        v.push(':');
        let ghost hdr = v@;
        proof {
            assert(hdr =~= self.name_str(r as int) + seq![':']);
        }
        let ids = self.body_symbols(r);
        let ghost elems = self.elem_strs(r as int);
        let mut j: usize = 0;
        while j < ids.len()
            invariant
                self.wf(),
                self.alive(r as int),
                ids@.len() == self.bod(r as int).len(),
                forall|u: int| 0 <= u < ids@.len() ==> ids@[u] as int == self.bod(r as int)[u],
                elems == self.elem_strs(r as int),
                hdr == self.name_str(r as int) + seq![':'],
                elems.len() == ids@.len(),
                j <= ids.len(),
                v@ == hdr + render_tokens(elems.take(j as int)),
            decreases ids.len() - j,
        {
            let ghost jj = j as int;
            proof {
                assert(self.entry_ok(r as int, jj));
                assert(elems[jj] == self.elem_str(self.payloads(r as int)[jj]));
                assert(self.payloads(r as int)[jj] == self.pay(self.bod(r as int)[jj]));
                assert(elems.take(jj) =~= elems.take(jj));
            }
            let ghost v0 = v@;
            v.push(' ');
            let sid = ids[j];
            let pl = self.syms[sid].payload.unwrap();
            match pl {
                Payload::Terminal(ti) => {
                    push_escaped(&mut v, &self.tokens[ti]);
                    proof {
                        assert(self.payloads(r as int)[jj] == PayloadV::Terminal(
                            self.tokens@[ti as int]@,
                        ));
                        assert(elems[jj] == self.tokens@[ti as int]@);
                    }
                },
                Payload::Nonterminal(qt) => {
                    proof {
                        assert(self.alive(qt as int));
                    }
                    let mut nm: Vec<char> = Vec::new();
                    nm.push('r');
                    push_dec_digits(&mut nm, self.rules[qt].id);
                    proof {
                        assert(nm@ =~= self.name_str(qt as int));
                        assert(self.payloads(r as int)[jj] == PayloadV::Nonterminal(qt as int));
                        assert(elems[jj] == self.name_str(qt as int));
                    }
                    push_escaped(&mut v, &nm);
                },
                Payload::Guard(_) => {
                    proof {
                        assert(false);
                    }
                },
            }
            proof {
                crate::text::lemma_render_tokens_push(elems.take(jj), elems[jj]);
                assert(elems.take(jj + 1) =~= elems.take(jj).push(elems[jj]));
                assert(v@ =~= hdr + render_tokens(elems.take(jj + 1)));
            }
            j = j + 1;
        }
        proof {
            assert(elems.take(elems.len() as int) =~= elems);
            assert(v@ =~= self.rule_str(r as int));
        }
        chars_to_string(&v)
    }

    /// The payload descriptors of the rule's body, in order.
    pub fn to_vec(&self, r: usize) -> (v: Vec<Payload>)
        requires
            self.wf(),
            self.alive(r as int),
        ensures
            v@.len() == self.payloads(r as int).len(),
            forall|j: int|
                0 <= j < v@.len() ==> self.pay_of(v@[j]) == self.payloads(r as int)[j],
    {
        let v = self.body_payloads(r);
        proof {
            assert forall|j: int| 0 <= j < v@.len() implies self.pay_of(v@[j]) == self.payloads(
                r as int,
            )[j] by {
                assert(self.entry_ok(r as int, j));
                assert(Some(v@[j]) == self.syms@[self.bod(r as int)[j]].payload);
                assert(self.payloads(r as int)[j] == self.pay(self.bod(r as int)[j]));
            }
        }
        v
    }

    /// The display texts of the rule's body elements, in order, unescaped.
    pub fn to_str_vec(&self, r: usize) -> (v: Vec<String>)
        requires
            self.wf(),
            self.alive(r as int),
        ensures
            v@.len() == self.payloads(r as int).len(),
            forall|j: int|
                0 <= j < v@.len() ==> v@[j]@ == self.elem_str(self.payloads(r as int)[j]),
    {
        let pays = self.body_payloads(r);
        let mut v: Vec<String> = Vec::new();
        let mut j: usize = 0;
        while j < pays.len()
            invariant
                self.wf(),
                self.alive(r as int),
                pays@.len() == self.bod(r as int).len(),
                forall|u: int|
                    0 <= u < pays@.len() ==> Some(pays@[u]) == self.syms@[self.bod(
                        r as int,
                    )[u]].payload,
                j <= pays.len(),
                v@.len() == j as int,
                forall|u: int|
                    0 <= u < v@.len() ==> v@[u]@ == self.elem_str(self.payloads(r as int)[u]),
            decreases pays.len() - j,
        {
            let ghost jj = j as int;
            proof {
                assert(self.entry_ok(r as int, jj));
                assert(self.payloads(r as int)[jj] == self.pay(self.bod(r as int)[jj]));
            }
            let txt = match pays[j] {
                Payload::Terminal(ti) => chars_to_string(&self.tokens[ti]),
                Payload::Nonterminal(qt) => self.to_str(qt),
                Payload::Guard(_) => {
                    proof {
                        assert(false);
                    }
                    String::new()
                },
            };
            v.push(txt);
            j = j + 1;
        }
        v
    }

    /// The display text of one body symbol.
    pub fn sym_to_str(&self, s: usize) -> (out: String)
        requires
            self.wf(),
            self.in_body(s as int),
        ensures
            out@ == self.elem_str(self.pay(s as int)),
    {
        proof {
            let (r0, i0) = choose|r0: int, i0: int| self.located(s as int, r0, i0);
            assert(self.located(s as int, r0, i0));
            assert(self.entry_ok(r0, i0));
        }
        match self.syms[s].payload {
            Some(Payload::Terminal(ti)) => chars_to_string(&self.tokens[ti]),
            Some(Payload::Nonterminal(qt)) => self.to_str(qt),
            _ => {
                proof {
                    assert(false);
                }
                String::new()
            },
        }
    }

}

} // verus!
