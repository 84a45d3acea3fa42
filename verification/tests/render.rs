use sequitur::grammar::Grammar;

#[test]
fn test_escape_space() {
    let mut g = Grammar::new();
    let r = g.new_rule(0);
    g.append(r, "a b");
    assert_eq!(g.to_rule_str(r), "r0: a\\ b");
}

#[test]
fn test_escape_newline_and_tab() {
    let mut g = Grammar::new();
    let r = g.new_rule(1);
    g.append(r, "x\ny");
    g.append(r, "\t");
    assert_eq!(g.to_rule_str(r), "r1: x\\ny \\t");
}

#[test]
fn test_escape_backslash_and_quotes() {
    let mut g = Grammar::new();
    let r = g.new_rule(2);
    g.append(r, "t\\");
    g.append(r, "\"q'");
    assert_eq!(g.to_rule_str(r), "r2: t\\\\ \\\"q\\'");
}

#[test]
fn test_escape_unicode() {
    let mut g = Grammar::new();
    let r = g.new_rule(3);
    g.append(r, "\u{1}");
    g.append(r, "\u{e9}");
    assert_eq!(g.to_rule_str(r), "r3: \\u{1} \\u{e9}");
}

#[test]
fn test_token_count_recoverable_by_splitting() {
    let mut g = Grammar::new();
    let r = g.new_rule(12);
    g.append(r, "a b");
    g.append(r, "c\\");
    g.append(r, "d");
    let rendered = g.to_rule_str(r);
    // split on unescaped spaces: a backslash consumes the next character
    let chars: Vec<char> = rendered.chars().collect();
    let mut fields: usize = 0;
    let mut i: usize = 0;
    while i < chars.len() {
        if chars[i] == '\\' {
            i += 2;
        } else if chars[i] == ' ' {
            fields += 1;
            i += 1;
        } else {
            i += 1;
        }
    }
    assert_eq!(fields, 3);
}

#[test]
fn test_append_order_many_tokens() {
    let mut g = Grammar::new();
    let r = g.new_rule(5);
    g.append(r, "alpha");
    g.append(r, "beta");
    g.append(r, "gamma");
    g.append(r, "delta");
    assert_eq!(g.to_rule_str(r), "r5: alpha beta gamma delta");
}

#[test]
fn test_large_rule_id() {
    let mut g = Grammar::new();
    let r = g.new_rule(9876543210);
    assert_eq!(g.to_str(r), "r9876543210");
    assert_eq!(g.to_rule_str(r), "r9876543210:");
}
