//! Rendering helpers: decimal rule identifiers, token escaping, and the
//! facts about escaping that make a rendered rule string re-tokenizable by
//! splitting on unescaped spaces.

use vstd::prelude::*;

verus! {

/// The character for one decimal digit.
pub open spec fn digit_char(d: nat) -> char {
    if d == 0 {
        '0'
    } else if d == 1 {
        '1'
    } else if d == 2 {
        '2'
    } else if d == 3 {
        '3'
    } else if d == 4 {
        '4'
    } else if d == 5 {
        '5'
    } else if d == 6 {
        '6'
    } else if d == 7 {
        '7'
    } else if d == 8 {
        '8'
    } else {
        '9'
    }
}

/// The decimal rendering of `n`, most significant digit first, no leading zeros.
pub open spec fn dec_digits(n: nat) -> Seq<char>
    decreases n,
{
    if n < 10 {
        seq![digit_char(n)]
    } else {
        dec_digits(n / 10) + seq![digit_char(n % 10)]
    }
}

/// The character for one hexadecimal digit, lower case.
pub open spec fn hex_char(d: nat) -> char {
    if d < 10 {
        digit_char(d)
    } else if d == 10 {
        'a'
    } else if d == 11 {
        'b'
    } else if d == 12 {
        'c'
    } else if d == 13 {
        'd'
    } else if d == 14 {
        'e'
    } else {
        'f'
    }
}

/// The hexadecimal rendering of `n`, most significant digit first.
pub open spec fn hex_digits(n: nat) -> Seq<char>
    decreases n,
{
    if n < 16 {
        seq![hex_char(n)]
    } else {
        hex_digits(n / 16) + seq![hex_char(n % 16)]
    }
}

/// How one token character renders inside a rule string: the default text
/// escaping (tab, carriage return, line feed, quotes and backslash get a
/// two-character escape; other printable ASCII stands for itself; anything
/// else becomes a braced unicode escape), with a literal space additionally
/// escaped so tokens stay whitespace-delimited.
pub open spec fn escape_char(c: char) -> Seq<char> {
    if c == '\t' {
        seq!['\\', 't']
    } else if c == '\r' {
        seq!['\\', 'r']
    } else if c == '\n' {
        seq!['\\', 'n']
    } else if c == '\\' {
        seq!['\\', '\\']
    } else if c == '\'' {
        seq!['\\', '\'']
    } else if c == '"' {
        seq!['\\', '"']
    } else if c == ' ' {
        seq!['\\', ' ']
    } else if 0x20 <= c as u32 && c as u32 <= 0x7e {
        seq![c]
    } else {
        seq!['\\', 'u', '{'] + hex_digits(c as u32 as nat) + seq!['}']
    }
}

/// A whole token, escaped character by character.
pub open spec fn escape_seq(s: Seq<char>) -> Seq<char>
    decreases s.len(),
{
    if s.len() == 0 {
        Seq::empty()
    } else {
        escape_char(s[0]) + escape_seq(s.skip(1))
    }
}

/// The rendering of a rule body: one leading space before each element,
/// each element escaped.
pub open spec fn render_tokens(toks: Seq<Seq<char>>) -> Seq<char>
    decreases toks.len(),
{
    if toks.len() == 0 {
        Seq::empty()
    } else {
        seq![' '] + escape_seq(toks[0]) + render_tokens(toks.skip(1))
    }
}

/// Number of unescaped spaces in `s`: a backslash consumes the following
/// character, so an escaped space does not count.
pub open spec fn active_spaces(s: Seq<char>) -> nat
    decreases s.len(),
{
    if s.len() == 0 {
        0
    } else if s[0] == '\\' {
        if s.len() == 1 {
            0
        } else {
            active_spaces(s.skip(2))
        }
    } else if s[0] == ' ' {
        1 + active_spaces(s.skip(1))
    } else {
        active_spaces(s.skip(1))
    }
}

/// The escape scan consumes `s` cleanly: no backslash is left without the
/// character it escapes.
pub open spec fn escape_closed(s: Seq<char>) -> bool
    decreases s.len(),
{
    if s.len() == 0 {
        true
    } else if s[0] == '\\' {
        s.len() >= 2 && escape_closed(s.skip(2))
    } else {
        escape_closed(s.skip(1))
    }
}

/// No character of a decimal rendering is a backslash or a space.
pub proof fn lemma_dec_digits_plain(n: nat)
    ensures
        forall|i: int|
            0 <= i < dec_digits(n).len() ==> dec_digits(n)[i] != '\\' && dec_digits(n)[i] != ' ',
    decreases n,
{
    if n >= 10 {
        lemma_dec_digits_plain(n / 10);
        let d = dec_digits(n);
        let p = dec_digits(n / 10);
        assert forall|i: int| 0 <= i < d.len() implies d[i] != '\\' && d[i] != ' ' by {
            if i < p.len() {
                assert(d[i] == p[i]);
            } else {
                assert(d[i] == digit_char(n % 10));
            }
        }
    } else {
        assert(dec_digits(n)[0] == digit_char(n));
    }
}

/// No character of a hexadecimal rendering is a backslash or a space.
pub proof fn lemma_hex_digits_plain(n: nat)
    ensures
        forall|i: int|
            0 <= i < hex_digits(n).len() ==> hex_digits(n)[i] != '\\' && hex_digits(n)[i] != ' ',
    decreases n,
{
    if n >= 16 {
        lemma_hex_digits_plain(n / 16);
        let d = hex_digits(n);
        let p = hex_digits(n / 16);
        assert forall|i: int| 0 <= i < d.len() implies d[i] != '\\' && d[i] != ' ' by {
            if i < p.len() {
                assert(d[i] == p[i]);
            } else {
                assert(d[i] == hex_char(n % 16));
            }
        }
    } else {
        assert(hex_digits(n)[0] == hex_char(n));
    }
}

/// A sequence without backslashes and spaces scans cleanly and holds no
/// unescaped space.
pub proof fn lemma_plain_scan(s: Seq<char>)
    requires
        forall|i: int| 0 <= i < s.len() ==> s[i] != '\\' && s[i] != ' ',
    ensures
        escape_closed(s),
        active_spaces(s) == 0,
    decreases s.len(),
{
    if s.len() > 0 {
        lemma_plain_scan(s.skip(1));
    }
}

/// Scanning a clean prefix and then the rest counts each part on its own.
pub proof fn lemma_scan_concat(a: Seq<char>, b: Seq<char>)
    requires
        escape_closed(a),
    ensures
        active_spaces(a + b) == active_spaces(a) + active_spaces(b),
        escape_closed(b) ==> escape_closed(a + b),
    decreases a.len(),
{
    if a.len() == 0 {
        assert(a + b =~= b);
    } else if a[0] == '\\' {
        assert((a + b).skip(2) =~= a.skip(2) + b);
        lemma_scan_concat(a.skip(2), b);
    } else {
        assert((a + b).skip(1) =~= a.skip(1) + b);
        lemma_scan_concat(a.skip(1), b);
    }
}

/// One escaped character scans cleanly and holds no unescaped space.
pub proof fn lemma_escape_char_scan(c: char)
    ensures
        escape_closed(escape_char(c)),
        active_spaces(escape_char(c)) == 0,
{
    reveal_with_fuel(escape_closed, 3);
    reveal_with_fuel(active_spaces, 3);
    let e = escape_char(c);
    if c == '\t' || c == '\r' || c == '\n' || c == '\\' || c == '\'' || c == '"' || c == ' ' {
        assert(e.skip(2) =~= Seq::<char>::empty());
    } else if 0x20 <= c as u32 && c as u32 <= 0x7e {
        assert(forall|i: int| 0 <= i < e.len() ==> e[i] != '\\' && e[i] != ' ') by {
            assert(e[0] == c);
        }
        lemma_plain_scan(e);
    } else {
        let h = hex_digits(c as u32 as nat);
        let tail = seq!['{'] + h + seq!['}'];
        assert(e.skip(2) =~= tail);
        lemma_hex_digits_plain(c as u32 as nat);
        assert(forall|i: int| 0 <= i < tail.len() ==> tail[i] != '\\' && tail[i] != ' ') by {
            assert(tail[0] == '{');
            assert(tail[tail.len() - 1] == '}');
            assert(forall|i: int| 1 <= i < tail.len() - 1 ==> tail[i] == h[i - 1]);
        }
        lemma_plain_scan(tail);
    }
}

/// An escaped token scans cleanly and holds no unescaped space.
pub proof fn lemma_escape_seq_scan(s: Seq<char>)
    ensures
        escape_closed(escape_seq(s)),
        active_spaces(escape_seq(s)) == 0,
    decreases s.len(),
{
    if s.len() > 0 {
        lemma_escape_char_scan(s[0]);
        lemma_escape_seq_scan(s.skip(1));
        lemma_scan_concat(escape_char(s[0]), escape_seq(s.skip(1)));
    }
}

/// Escaping distributes over appending one character at the end.
pub proof fn lemma_escape_seq_push(s: Seq<char>, c: char)
    ensures
        escape_seq(s.push(c)) == escape_seq(s) + escape_char(c),
    decreases s.len(),
{
    if s.len() == 0 {
        reveal_with_fuel(escape_seq, 2);
        assert(s.push(c)[0] == c);
        assert(s.push(c).skip(1) =~= Seq::<char>::empty());
        assert(escape_seq(s.push(c)) =~= escape_seq(s) + escape_char(c));
    } else {
        assert(s.push(c).skip(1) =~= s.skip(1).push(c));
        lemma_escape_seq_push(s.skip(1), c);
        assert(escape_seq(s.push(c)) =~= escape_seq(s) + escape_char(c));
    }
}

/// Rendering distributes over appending one token at the end: tokens appear
/// in exactly the order they are added.
pub proof fn lemma_render_tokens_push(toks: Seq<Seq<char>>, t: Seq<char>)
    ensures
        render_tokens(toks.push(t)) == render_tokens(toks) + seq![' '] + escape_seq(t),
    decreases toks.len(),
{
    if toks.len() == 0 {
        reveal_with_fuel(render_tokens, 2);
        assert(toks.push(t)[0] == t);
        assert(toks.push(t).skip(1) =~= Seq::<Seq<char>>::empty());
        assert(render_tokens(toks.push(t)) =~= render_tokens(toks) + seq![' '] + escape_seq(t));
    } else {
        assert(toks.push(t).skip(1) =~= toks.skip(1).push(t));
        lemma_render_tokens_push(toks.skip(1), t);
        assert(render_tokens(toks.push(t)) =~= render_tokens(toks) + seq![' '] + escape_seq(t));
    }
}

/// A rendered body scans cleanly and shows exactly one unescaped space per
/// token, so splitting on unescaped spaces recovers the token count.
pub proof fn lemma_render_tokens_spaces(toks: Seq<Seq<char>>)
    ensures
        escape_closed(render_tokens(toks)),
        active_spaces(render_tokens(toks)) == toks.len(),
    decreases toks.len(),
{
    if toks.len() > 0 {
        lemma_escape_seq_scan(toks[0]);
        lemma_render_tokens_spaces(toks.skip(1));
        let sp = seq![' '];
        let e = escape_seq(toks[0]);
        let rest = render_tokens(toks.skip(1));
        assert(escape_closed(sp) && active_spaces(sp) == 1) by {
            reveal_with_fuel(escape_closed, 2);
            reveal_with_fuel(active_spaces, 2);
            assert(sp.skip(1) =~= Seq::<char>::empty());
        }
        lemma_scan_concat(e, rest);
        lemma_scan_concat(sp, e + rest);
        assert(sp + (e + rest) =~= sp + e + rest);
    }
}

/// Exec digit for a value below ten.
fn digit_exec(d: u64) -> (c: char)
    requires
        d < 10,
    ensures
        c == digit_char(d as nat),
{
    if d == 0 {
        '0'
    } else if d == 1 {
        '1'
    } else if d == 2 {
        '2'
    } else if d == 3 {
        '3'
    } else if d == 4 {
        '4'
    } else if d == 5 {
        '5'
    } else if d == 6 {
        '6'
    } else if d == 7 {
        '7'
    } else if d == 8 {
        '8'
    } else {
        '9'
    }
}

/// Exec digit for a value below sixteen.
fn hex_exec(d: u32) -> (c: char)
    requires
        d < 16,
    ensures
        c == hex_char(d as nat),
{
    if d < 10 {
        digit_exec(d as u64)
    } else if d == 10 {
        'a'
    } else if d == 11 {
        'b'
    } else if d == 12 {
        'c'
    } else if d == 13 {
        'd'
    } else if d == 14 {
        'e'
    } else {
        'f'
    }
}

/// Appends the decimal rendering of `n` to `out`.
pub fn push_dec_digits(out: &mut Vec<char>, n: u64)
    ensures
        final(out)@ == old(out)@ + dec_digits(n as nat),
    decreases n,
{
    if n < 10 {
        out.push(digit_exec(n));
        assert(out@ =~= old(out)@ + dec_digits(n as nat));
    } else {
        push_dec_digits(out, n / 10);
        out.push(digit_exec(n % 10));
        assert(out@ =~= old(out)@ + dec_digits(n as nat));
    }
}

/// Appends the hexadecimal rendering of `n` to `out`.
fn push_hex_digits(out: &mut Vec<char>, n: u32)
    ensures
        final(out)@ == old(out)@ + hex_digits(n as nat),
    decreases n,
{
    if n < 16 {
        out.push(hex_exec(n));
        assert(out@ =~= old(out)@ + hex_digits(n as nat));
    } else {
        push_hex_digits(out, n / 16);
        out.push(hex_exec(n % 16));
        assert(out@ =~= old(out)@ + hex_digits(n as nat));
    }
}

/// Appends the escaped form of one token character to `out`.
pub fn push_escaped_char(out: &mut Vec<char>, c: char)
    ensures
        final(out)@ == old(out)@ + escape_char(c),
{
    if c == '\t' {
        out.push('\\');
        out.push('t');
    } else if c == '\r' {
        out.push('\\');
        out.push('r');
    } else if c == '\n' {
        out.push('\\');
        out.push('n');
    } else if c == '\\' {
        out.push('\\');
        out.push('\\');
    } else if c == '\'' {
        out.push('\\');
        out.push('\'');
    } else if c == '"' {
        out.push('\\');
        out.push('"');
    } else if c == ' ' {
        out.push('\\');
        out.push(' ');
    } else {
        let u = c as u32;
        if 0x20 <= u && u <= 0x7e {
            out.push(c);
        } else {
            out.push('\\');
            out.push('u');
            out.push('{');
            push_hex_digits(out, u);
            out.push('}');
        }
    }
    assert(out@ =~= old(out)@ + escape_char(c));
}

/// Appends the escaped form of a whole token to `out`.
pub fn push_escaped(out: &mut Vec<char>, tok: &Vec<char>)
    ensures
        final(out)@ == old(out)@ + escape_seq(tok@),
{
    let mut j: usize = 0;
    while j < tok.len()
        invariant
            j <= tok.len(),
            out@ == old(out)@ + escape_seq(tok@.take(j as int)),
        decreases tok.len() - j,
    {
        push_escaped_char(out, tok[j]);
        proof {
            assert(tok@.take(j + 1 as int) =~= tok@.take(j as int).push(tok@[j as int]));
            lemma_escape_seq_push(tok@.take(j as int), tok@[j as int]);
            assert(old(out)@ + escape_seq(tok@.take(j as int)) + escape_char(tok@[j as int]) =~= old(
                out,
            )@ + escape_seq(tok@.take(j + 1 as int)));
        }
        j = j + 1;
    }
    assert(tok@.take(tok@.len() as int) =~= tok@);
}

/// Builds a `String` from a sequence of characters.
///
/// Relies on `String`'s `FromIterator<char>` implementation: collecting an
/// iterator of characters yields the string of those characters in order.
#[verifier::external_body]
pub fn chars_to_string(v: &Vec<char>) -> (s: String)
    ensures
        s@ == v@,
{
    v.iter().collect()
}

/// Collects the characters of a string slice into a vector.
pub fn str_to_chars(s: &str) -> (v: Vec<char>)
    ensures
        v@ == s@,
{
    let n = s.unicode_len();
    let mut v: Vec<char> = Vec::new();
    let mut i: usize = 0;
    while i < n
        invariant
            i <= n,
            n == s@.len(),
            v@ == s@.take(i as int),
        decreases n - i,
    {
        v.push(s.get_char(i));
        proof {
            assert(v@ =~= s@.take(i + 1 as int));
        }
        i = i + 1;
    }
    proof {
        assert(s@.take(n as int) =~= s@);
    }
    v
}

} // verus!
