use sequitur::grammar::Grammar;
use sequitur::grammar::Payload;

#[test]
fn test_rule_append() {
    let mut g = Grammar::new();
    let r = g.new_rule(23);
    let guard = g.get_guard(r);
    assert!(g.get_tail(r) == guard);
    assert!(g.get_head(r) == guard);
    g.append(r, "1");
    g.append(r, "2");
    g.append(r, "3");
    assert_eq!(g.to_rule_str(r), "r23: 1 2 3");
}

#[test]
fn test_rule_apply() {
    let mut g = Grammar::new();
    let r = g.new_rule(0);
    g.append(r, "1");
    g.append(r, "2");
    g.append(r, "1");
    g.append(r, "2");
    let s = g.new_rule(1);
    g.append(s, "1");
    g.append(s, "2");
    let a = g.get_tail(r);
    let b = g.get_left(g.get_head(r));
    assert_eq!(g.to_rule_str(r), "r0: 1 2 1 2");
    assert_eq!(g.to_rule_str(s), "r1: 1 2");
    let newa = g.apply(s, a);
    assert!(g.get_tail(r) == newa);
    assert_eq!(g.to_rule_str(r), "r0: r1 1 2");
    assert_eq!(g.to_rule_str(s), "r1: 1 2");
    let newb = g.apply(s, b);
    assert!(g.get_head(r) == newb);
    assert_eq!(g.to_rule_str(r), "r0: r1 r1");
    assert_eq!(g.to_rule_str(s), "r1: 1 2");
}

#[test]
fn test_rule_ref() {
    let mut g = Grammar::new();
    let r = g.new_rule(0);
    g.append(r, "1");
    g.append(r, "2");
    g.append(r, "1");
    g.append(r, "2");
    let s = g.new_rule(1);
    g.append(s, "1");
    g.append(s, "2");
    let a = g.get_tail(r);
    let b = g.get_left(g.get_head(r));
    println!("{}", g.refcount(s));
    let newa = g.apply(s, a);
    println!("{}", g.refcount(s));
    let _newb = g.apply(s, b);
    println!("{}", g.refcount(s));
    g.dissolve(newa);
    println!("{}", g.refcount(s));
    g.delete(s);
    println!("{}", g.refcount(s));
}

#[test]
fn test_refcount_tracks_apply_and_dissolve() {
    let mut g = Grammar::new();
    let r = g.new_rule(0);
    g.append(r, "1");
    g.append(r, "2");
    g.append(r, "1");
    g.append(r, "2");
    let s = g.new_rule(1);
    g.append(s, "1");
    g.append(s, "2");
    let a = g.get_tail(r);
    let b = g.get_left(g.get_head(r));
    assert_eq!(g.refcount(s), 0);
    let newa = g.apply(s, a);
    assert_eq!(g.refcount(s), 1);
    let _newb = g.apply(s, b);
    assert_eq!(g.refcount(s), 2);
    g.dissolve(newa);
    assert_eq!(g.refcount(s), 1);
    g.delete(s);
    assert_eq!(g.refcount(s), 0);
    assert_eq!(g.to_rule_str(r), "r0: 1 2 1 2");
}

#[test]
fn test_dissolve_restores_applied_digram() {
    let mut g = Grammar::new();
    let r = g.new_rule(4);
    g.append(r, "x");
    g.append(r, "y");
    g.append(r, "z");
    let s = g.new_rule(5);
    g.append(s, "y");
    g.append(s, "z");
    let d = g.get_right(g.get_tail(r));
    let n = g.apply(s, d);
    assert_eq!(g.to_rule_str(r), "r4: x r5");
    g.dissolve(n);
    assert_eq!(g.to_rule_str(r), "r4: x y z");
    assert_eq!(g.to_rule_str(s), "r5: y z");
    assert_eq!(g.refcount(s), 0);
}

#[test]
fn test_delete_invalidates_guard() {
    let mut g = Grammar::new();
    let r = g.new_rule(0);
    g.append(r, "1");
    g.append(r, "2");
    let s = g.new_rule(1);
    g.append(s, "1");
    g.append(s, "2");
    let a = g.get_tail(r);
    let _n = g.apply(s, a);
    let guard = g.get_guard(s);
    g.delete(s);
    assert!(g.syms[guard].left.is_none());
    assert!(g.syms[guard].right.is_none());
    assert!(g.syms[guard].payload.is_none());
}

#[test]
fn test_empty_rule() {
    let mut g = Grammar::new();
    let r = g.new_rule(7);
    assert_eq!(g.to_rule_str(r), "r7:");
    let guard = g.get_guard(r);
    assert!(g.get_head(r) == guard);
    assert!(g.get_tail(r) == guard);
    assert_eq!(g.get_id(r), 7);
    assert_eq!(g.to_str(r), "r7");
}

#[test]
fn test_to_str_vec_and_to_vec() {
    let mut g = Grammar::new();
    let r = g.new_rule(2);
    g.append(r, "ab");
    g.append(r, "cd");
    let s = g.new_rule(3);
    g.append(s, "ab");
    g.append(s, "cd");
    let strs = g.to_str_vec(r);
    assert_eq!(strs.len(), 2);
    assert_eq!(strs[0], "ab");
    assert_eq!(strs[1], "cd");
    let a = g.get_tail(r);
    assert_eq!(g.sym_to_str(a), "ab");
    let _n = g.apply(s, a);
    let strs2 = g.to_str_vec(r);
    assert_eq!(strs2.len(), 1);
    assert_eq!(strs2[0], "r3");
    let pays = g.to_vec(r);
    assert_eq!(pays.len(), 1);
    assert!(matches!(pays[0], Payload::Nonterminal(q) if q == s));
}

#[test]
fn test_insert_after_at_guard() {
    let mut g = Grammar::new();
    let r = g.new_rule(9);
    g.append(r, "tail");
    let guard = g.get_guard(r);
    let ti = g.add_token("head");
    let _n = g.insert_after(guard, Payload::Terminal(ti));
    assert_eq!(g.to_rule_str(r), "r9: head tail");
}
