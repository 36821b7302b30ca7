use vstd::prelude::*;

use crate::text::{
    append_range, chars_of, pieces, ranges_within, string_views, trim, trim_range, word_ranges, words,
};

verus! {

/// `s` with every occurrence of `pat`, read left to right without overlap, replaced by `rep`.
pub open spec fn replace_all(s: Seq<char>, pat: Seq<char>, rep: Seq<char>) -> Seq<char>
    decreases s.len(),
{
    if pat.len() == 0 || s.len() < pat.len() {
        s
    } else if s.take(pat.len() as int) == pat {
        rep + replace_all(s.skip(pat.len() as int), pat, rep)
    } else {
        seq![s[0]] + replace_all(s.drop_first(), pat, rep)
    }
}

/// The reset placeholder `$(c0)`.
pub open spec fn tok_reset() -> Seq<char> {
    seq!['$', '(', 'c', '0', ')']
}

/// The primary-accent placeholder `$(c1)`.
pub open spec fn tok_primary() -> Seq<char> {
    seq!['$', '(', 'c', '1', ')']
}

/// The secondary-accent placeholder `$(c2)`.
pub open spec fn tok_secondary() -> Seq<char> {
    seq!['$', '(', 'c', '2', ')']
}

/// The escape sequence that resets color and formatting.
pub open spec fn esc_reset() -> Seq<char> {
    seq!['\x1B', '[', '0', 'm']
}

/// Reset, then orange.
pub open spec fn esc_primary() -> Seq<char> {
    esc_reset() + seq!['\x1B', '[', '3', '8', ';', '5', ';', '2', '0', '8', 'm']
}

/// Reset, then dim gray.
pub open spec fn esc_secondary() -> Seq<char> {
    esc_reset() + seq!['\x1B', '[', '3', '8', ';', '5', ';', '8', 'm']
}

/// `s` with its placeholders turned into escape sequences, or removed when `color` is off.
pub open spec fn colorized(s: Seq<char>, color: bool) -> Seq<char> {
    let r0 = if color {
        esc_reset()
    } else {
        seq![]
    };
    let r1 = if color {
        esc_primary()
    } else {
        seq![]
    };
    let r2 = if color {
        esc_secondary()
    } else {
        seq![]
    };
    replace_all(replace_all(replace_all(s, tok_reset(), r0), tok_primary(), r1), tok_secondary(), r2)
}

/// `true` when `v[i..]` starts with `p`.
fn matches_at(v: &Vec<char>, i: usize, p: &Vec<char>) -> (r: bool)
    requires
        i <= v.len(),
    ensures
        r == (p@.len() <= v@.len() - i && v@.subrange(i as int, i + p@.len()) == p@),
{
    let m = p.len();
    if m > v.len() - i {
        return false;
    }
    let mut j: usize = 0;
    while j < m
        invariant
            m == p@.len(),
            i + m <= v@.len(),
            v@.len() == v.len(),
            j <= m,
            forall|k: int| 0 <= k < j ==> v@[i + k] == #[trigger] p@[k],
        decreases m - j,
    {
        if v[i + j] != p[j] {
            assert(v@.subrange(i as int, i + m)[j as int] != p@[j as int]);
            return false;
        }
        j = j + 1;
    }
    assert forall|k: int| 0 <= k < m implies v@.subrange(i as int, i + m)[k] == p@[k] by {
        assert(v@[i + k] == p@[k]);
    }
    assert(v@.subrange(i as int, i + m) =~= p@);
    true
}

/// `s` with every occurrence of `pat` replaced by `rep`.
pub fn replace_token(s: &str, pat: &str, rep: &str) -> (r: String)
    requires
        pat@.len() > 0,
    ensures
        r@ == replace_all(s@, pat@, rep@),
{
    let v = chars_of(s);
    let p = chars_of(pat);
    let n = v.len();
    let m = p.len();
    let mut out = String::new();
    let mut i: usize = 0;
    assert(v@.skip(0) =~= v@);
    assert(out@ + replace_all(v@.skip(0), p@, rep@) =~= replace_all(v@, p@, rep@));
    while i < n
        invariant
            v@ == s@,
            p@ == pat@,
            n == v@.len(),
            m == p@.len(),
            m > 0,
            i <= n,
            out@ + replace_all(v@.skip(i as int), p@, rep@) == replace_all(v@, p@, rep@),
        decreases n - i,
    {
        let ghost rest = v@.skip(i as int);
        let ghost before = out@;
        if matches_at(&v, i, &p) {
            assert(rest.take(m as int) =~= v@.subrange(i as int, i + m));
            assert(rest.skip(m as int) =~= v@.skip(i + m));
            out.append(rep);
            assert(out@ + replace_all(v@.skip(i + m), p@, rep@) =~= before + replace_all(
                rest,
                p@,
                rep@,
            ));
            i = i + m;
        } else {
            assert(rest.drop_first() =~= v@.skip(i + 1));
            append_range(&mut out, s, i, i + 1);
            assert(v@.subrange(i as int, i + 1) =~= seq![rest[0]]);
            if n - i < m {
                assert(replace_all(v@.skip(i + 1), p@, rep@) == v@.skip(i + 1));
                assert(rest =~= seq![rest[0]] + v@.skip(i + 1));
            } else {
                assert(rest.take(m as int) =~= v@.subrange(i as int, i + m));
            }
            assert(out@ + replace_all(v@.skip(i + 1), p@, rep@) =~= before + replace_all(
                rest,
                p@,
                rep@,
            ));
            i = i + 1;
        }
    }
    assert(v@.skip(n as int) =~= Seq::<char>::empty());
    assert(out@ =~= replace_all(v@, p@, rep@));
    out
}

/// Turns the placeholders `$(c0)` (reset), `$(c1)` (orange) and `$(c2)` (dim gray) into ANSI
/// escape sequences when `color` is on, and removes them when it is off.
pub fn colorize(s: &str, color: bool) -> (r: String)
    ensures
        r@ == colorized(s@, color),
{
    proof {
        reveal_strlit("$(c0)");
        reveal_strlit("$(c1)");
        reveal_strlit("$(c2)");
        reveal_strlit("\x1B[0m");
        reveal_strlit("\x1B[0m\x1B[38;5;208m");
        reveal_strlit("\x1B[0m\x1B[38;5;8m");
        reveal_strlit("");
    }
    assert("$(c0)"@ =~= tok_reset());
    assert("$(c1)"@ =~= tok_primary());
    assert("$(c2)"@ =~= tok_secondary());
    if color {
        assert("\x1B[0m"@ =~= esc_reset());
        assert("\x1B[0m\x1B[38;5;208m"@ =~= esc_primary());
        assert("\x1B[0m\x1B[38;5;8m"@ =~= esc_secondary());
        let a = replace_token(s, "$(c0)", "\x1B[0m");
        let b = replace_token(a.as_str(), "$(c1)", "\x1B[0m\x1B[38;5;208m");
        replace_token(b.as_str(), "$(c2)", "\x1B[0m\x1B[38;5;8m")
    } else {
        assert(""@ =~= Seq::<char>::empty());
        let a = replace_token(s, "$(c0)", "");
        let b = replace_token(a.as_str(), "$(c1)", "");
        replace_token(b.as_str(), "$(c2)", "")
    }
}

/// The arguments of a command line: its whitespace-separated words (no quoting).
pub fn split_command(cmd: &str) -> (r: Vec<String>)
    ensures
        string_views(r@) == words(cmd@),
{
    let v = chars_of(cmd);
    let n = v.len();
    let ws = word_ranges(&v, 0, n);
    assert(v@.subrange(0, n as int) =~= v@);
    let mut r: Vec<String> = Vec::new();
    let mut k: usize = 0;
    while k < ws.len()
        invariant
            v@ == cmd@,
            n == v@.len(),
            pieces(v@, ws@) == words(cmd@),
            ranges_within(ws@, 0, n as int),
            k <= ws@.len(),
            r@.len() == k,
            forall|j: int| 0 <= j < k ==> #[trigger] r@[j]@ == words(cmd@)[j],
        decreases ws@.len() - k,
    {
        let (a, b) = ws[k];
        assert(pieces(v@, ws@)[k as int] == v@.subrange(a as int, b as int));
        let mut w = String::new();
        append_range(&mut w, cmd, a, b);
        assert(w@ =~= v@.subrange(a as int, b as int));
        r.push(w);
        k = k + 1;
    }
    assert(string_views(r@) =~= words(cmd@));
    r
}

/// A command's captured output without leading or trailing whitespace.
pub fn trim_output(s: &str) -> (r: String)
    ensures
        r@ == trim(s@),
{
    let v = chars_of(s);
    let (a, b) = trim_range(&v, 0, v.len());
    assert(v@.subrange(0, v@.len() as int) =~= v@);
    let mut out = String::new();
    append_range(&mut out, s, a, b);
    assert(out@ =~= trim(s@));
    out
}

/// `s` does not hold `c`.
pub open spec fn lacks(s: Seq<char>, c: char) -> bool {
    forall|k: int| 0 <= k < s.len() ==> s[k] != c
}

pub proof fn lemma_lacks_concat(a: Seq<char>, b: Seq<char>, c: char)
    requires
        lacks(a, c),
        lacks(b, c),
    ensures
        lacks(a + b, c),
{
    assert forall|k: int| 0 <= k < (a + b).len() implies (a + b)[k] != c by {
        if k < a.len() {
            assert((a + b)[k] == a[k]);
        } else {
            assert((a + b)[k] == b[k - a.len()]);
        }
    }
}

/// Replacing never brings in a character that neither the text nor the replacement holds.
pub proof fn lemma_replace_lacks(s: Seq<char>, pat: Seq<char>, rep: Seq<char>, c: char)
    requires
        lacks(s, c),
        lacks(rep, c),
    ensures
        lacks(replace_all(s, pat, rep), c),
    decreases s.len(),
{
    if pat.len() == 0 || s.len() < pat.len() {
    } else if s.take(pat.len() as int) == pat {
        lemma_replace_lacks(s.skip(pat.len() as int), pat, rep, c);
        lemma_lacks_concat(rep, replace_all(s.skip(pat.len() as int), pat, rep), c);
    } else {
        lemma_replace_lacks(s.drop_first(), pat, rep, c);
        lemma_lacks_concat(seq![s[0]], replace_all(s.drop_first(), pat, rep), c);
    }
}

/// Text free of `$` passes through a replacement of a `$`-led pattern unchanged.
proof fn lemma_replace_skips_plain(x: Seq<char>, b: Seq<char>, pat: Seq<char>, rep: Seq<char>)
    requires
        pat.len() > 0,
        pat[0] == '$',
        lacks(x, '$'),
    ensures
        replace_all(x + b, pat, rep) == x + replace_all(b, pat, rep),
    decreases x.len(),
{
    let s = x + b;
    if x.len() == 0 {
        assert(s =~= b);
    } else if s.len() < pat.len() {
        assert(b.len() < pat.len());
    } else {
        assert(s.take(pat.len() as int)[0] != pat[0]);
        assert(s.drop_first() =~= x.drop_first() + b);
        lemma_replace_skips_plain(x.drop_first(), b, pat, rep);
        assert(s[0] == x[0]);
        assert(seq![x[0]] + (x.drop_first() + replace_all(b, pat, rep)) =~= x + replace_all(
            b,
            pat,
            rep,
        ));
    }
}

proof fn lemma_replace_plain(x: Seq<char>, pat: Seq<char>, rep: Seq<char>)
    requires
        pat.len() > 0,
        pat[0] == '$',
        lacks(x, '$'),
    ensures
        replace_all(x, pat, rep) == x,
{
    lemma_replace_skips_plain(x, seq![], pat, rep);
    assert(x + seq![] =~= x);
    assert(replace_all(seq![], pat, rep) == Seq::<char>::empty());
}

proof fn lemma_replace_self(t: Seq<char>, rep: Seq<char>)
    requires
        t.len() > 0,
    ensures
        replace_all(t, t, rep) == rep,
{
    reveal_with_fuel(replace_all, 2);
    assert(t.take(t.len() as int) =~= t);
    assert(t.skip(t.len() as int) =~= Seq::<char>::empty());
    assert(rep + Seq::<char>::empty() =~= rep);
}

proof fn lemma_replace_other_token(t: Seq<char>, pat: Seq<char>, rep: Seq<char>)
    requires
        t.len() == pat.len() == 5,
        t[3] != pat[3],
    ensures
        replace_all(t, pat, rep) == t,
{
    reveal_with_fuel(replace_all, 2);
    assert(t.take(5) =~= t);
    assert(t.take(5)[3] != pat[3]);
    assert(t.drop_first().len() < pat.len());
    assert(seq![t[0]] + t.drop_first() =~= t);
}

proof fn lemma_escapes_plain()
    ensures
        lacks(esc_reset(), '$'),
        lacks(esc_primary(), '$'),
        lacks(esc_secondary(), '$'),
{
    let e = esc_reset();
    let p = esc_primary();
    let q = esc_secondary();
    assert(lacks(e, '$'));
    assert forall|k: int| 0 <= k < p.len() implies p[k] != '$' by {
        if k < 4 {
            assert(p[k] == e[k]);
        }
    }
    assert forall|k: int| 0 <= k < q.len() implies q[k] != '$' by {
        if k < 4 {
            assert(q[k] == e[k]);
        }
    }
}

/// With color on, colorizing text that holds no `$` (such as text already colorized)
/// changes nothing, and a placeholder put back after such text becomes exactly its one
/// escape sequence; each accent sequence starts with a reset, so formatting never stacks.
pub proof fn lemma_colorize_reinserted(x: Seq<char>)
    requires
        lacks(x, '$'),
    ensures
        colorized(x, true) == x,
        colorized(x + tok_reset(), true) == x + esc_reset(),
        colorized(x + tok_primary(), true) == x + esc_primary(),
        colorized(x + tok_secondary(), true) == x + esc_secondary(),
        esc_primary().take(4) == esc_reset(),
        esc_secondary().take(4) == esc_reset(),
{
    let t0 = tok_reset();
    let t1 = tok_primary();
    let t2 = tok_secondary();
    let r0 = esc_reset();
    let r1 = esc_primary();
    let r2 = esc_secondary();
    lemma_escapes_plain();
    // plain text
    lemma_replace_plain(x, t0, r0);
    lemma_replace_plain(x, t1, r1);
    lemma_replace_plain(x, t2, r2);
    // reset placeholder
    lemma_replace_skips_plain(x, t0, t0, r0);
    lemma_replace_self(t0, r0);
    lemma_lacks_concat(x, r0, '$');
    lemma_replace_plain(x + r0, t1, r1);
    lemma_replace_plain(x + r0, t2, r2);
    // primary placeholder
    lemma_replace_skips_plain(x, t1, t0, r0);
    lemma_replace_other_token(t1, t0, r0);
    lemma_replace_skips_plain(x, t1, t1, r1);
    lemma_replace_self(t1, r1);
    lemma_lacks_concat(x, r1, '$');
    lemma_replace_plain(x + r1, t2, r2);
    // secondary placeholder
    lemma_replace_skips_plain(x, t2, t0, r0);
    lemma_replace_other_token(t2, t0, r0);
    lemma_replace_skips_plain(x, t2, t1, r1);
    lemma_replace_other_token(t2, t1, r1);
    lemma_replace_skips_plain(x, t2, t2, r2);
    lemma_replace_self(t2, r2);
    assert(r1.take(4) =~= r0);
    assert(r2.take(4) =~= r0);
}

/// With color off, colorizing text free of the escape character leaves it free of it.
pub proof fn lemma_colorize_off_plain(s: Seq<char>)
    requires
        lacks(s, '\x1B'),
    ensures
        lacks(colorized(s, false), '\x1B'),
{
    let e = Seq::<char>::empty();
    lemma_replace_lacks(s, tok_reset(), e, '\x1B');
    let a = replace_all(s, tok_reset(), e);
    lemma_replace_lacks(a, tok_primary(), e, '\x1B');
    let b = replace_all(a, tok_primary(), e);
    lemma_replace_lacks(b, tok_secondary(), e, '\x1B');
}

} // verus!
