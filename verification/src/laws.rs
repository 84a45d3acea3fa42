//! Laws relating the structural operations to the rendering: append keeps
//! call order, dissolve undoes apply, an empty rule renders as its bare name,
//! and a rendered rule can be re-tokenized by splitting on unescaped spaces.

use vstd::prelude::*;

use crate::grammar::Grammar;
use crate::grammar::PayloadV;
use crate::text::active_spaces;
use crate::text::dec_digits;
use crate::text::escape_closed;
use crate::text::escape_seq;
use crate::text::lemma_dec_digits_plain;
use crate::text::lemma_plain_scan;
use crate::text::lemma_render_tokens_push;
use crate::text::lemma_render_tokens_spaces;
use crate::text::lemma_scan_concat;

verus! {

/// Appending one token extends the rule's rendering by exactly that token,
/// escaped and preceded by one space. So a sequence of appended tokens is
/// listed by `to_rule_str` in call order.
///
/// `pre` and `post` are the grammars before and after one `append` of `tok`
/// to rule `r`; the hypotheses are what `append` ensures.
pub proof fn lemma_append_extends_rendering(pre: Grammar, post: Grammar, r: int, tok: Seq<char>)
    requires
        post.payloads(r) == pre.payloads(r).push(PayloadV::Terminal(tok)),
        post.n_rules() == pre.n_rules(),
        forall|t: int| 0 <= t < pre.n_rules() ==> post.rule_id(t) == pre.rule_id(t),
        0 <= r < pre.n_rules(),
        forall|j: int|
            0 <= j < pre.payloads(r).len() ==> (match #[trigger] pre.payloads(r)[j] {
                PayloadV::Nonterminal(u) => 0 <= u < pre.n_rules(),
                _ => true,
            }),
    ensures
        post.rule_str(r) == pre.rule_str(r) + seq![' '] + escape_seq(tok),
{
    assert(post.elem_strs(r) =~= pre.elem_strs(r).push(tok)) by {
        assert forall|j: int| 0 <= j < post.payloads(r).len() implies post.elem_strs(r)[j] == (
        pre.elem_strs(r).push(tok))[j] by {
            if j < pre.payloads(r).len() {
                assert(post.payloads(r)[j] == pre.payloads(r)[j]);
                match pre.payloads(r)[j] {
                    PayloadV::Nonterminal(u) => {
                        assert(post.rule_id(u) == pre.rule_id(u));
                    },
                    _ => {},
                }
            } else {
                assert(post.payloads(r)[j] == PayloadV::Terminal(tok));
            }
        }
    }
    lemma_render_tokens_push(pre.elem_strs(r), tok);
    assert(post.name_str(r) == pre.name_str(r));
    assert(post.rule_str(r) =~= pre.rule_str(r) + seq![' '] + escape_seq(tok));
}

/// Dissolving the symbol that `apply` inserted restores the surrounding
/// list's contents exactly, provided the applied rule's body equals the
/// replaced digram.
///
/// `g0`, `g1` and `g2` are the grammars before `apply`, between the calls and
/// after `dissolve`; the hypotheses are what the two operations ensure for a
/// digram at position `i` of rule `r`, factored through rule `q`.
pub proof fn lemma_dissolve_inverts_apply(
    g0: Grammar,
    g1: Grammar,
    g2: Grammar,
    q: int,
    r: int,
    i: int,
)
    requires
        0 <= i,
        i + 2 <= g0.payloads(r).len(),
        g0.payloads(q) == g0.payloads(r).subrange(i, i + 2),
        g1.payloads(r) == g0.payloads(r).take(i) + seq![PayloadV::Nonterminal(q)] + g0.payloads(
            r,
        ).skip(i + 2),
        g1.payloads(q) == g0.payloads(q),
        g2.payloads(r) == g1.payloads(r).take(i) + g1.payloads(q) + g1.payloads(r).skip(i + 1),
    ensures
        g2.payloads(r) == g0.payloads(r),
{
    assert(g1.payloads(r).take(i) =~= g0.payloads(r).take(i));
    assert(g1.payloads(r).skip(i + 1) =~= g0.payloads(r).skip(i + 2));
    assert(g2.payloads(r) =~= g0.payloads(r));
}

/// A rule with an empty body renders as its bare name and a colon, with no
/// trailing tokens.
pub proof fn lemma_empty_rule_renders_bare_name(g: Grammar, r: int)
    requires
        g.payloads(r).len() == 0,
    ensures
        g.rule_str(r) == g.name_str(r) + seq![':'],
{
    assert(g.elem_strs(r).len() == 0);
    assert(g.rule_str(r) =~= g.name_str(r) + seq![':']);
}

/// A rendered rule scans cleanly and shows exactly one unescaped space per
/// body element: splitting the rendering on unescaped spaces recovers the
/// token count.
pub proof fn lemma_rule_str_token_count(g: Grammar, r: int)
    ensures
        escape_closed(g.rule_str(r)),
        active_spaces(g.rule_str(r)) == g.payloads(r).len(),
{
    let hdr = g.name_str(r) + seq![':'];
    let body = crate::text::render_tokens(g.elem_strs(r));
    assert forall|i: int| 0 <= i < hdr.len() implies hdr[i] != '\\' && hdr[i] != ' ' by {
        lemma_dec_digits_plain(g.rule_id(r) as nat);
        if i == 0 {
            assert(hdr[0] == 'r');
        } else if i < hdr.len() - 1 {
            assert(hdr[i] == dec_digits(g.rule_id(r) as nat)[i - 1]);
        } else {
            assert(hdr[i] == ':');
        }
    }
    lemma_plain_scan(hdr);
    lemma_render_tokens_spaces(g.elem_strs(r));
    lemma_scan_concat(hdr, body);
    assert(g.rule_str(r) =~= hdr + body);
    assert(g.elem_strs(r).len() == g.payloads(r).len());
}

} // verus!
