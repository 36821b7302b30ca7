use vstd::prelude::*;

use indexmap::IndexMap;

use crate::facts::{entry_at, entry_count, map_entries};

use crate::text::{
    append_range, chars_of, line_ranges, lines, pieces, ranges_within, split_acc, string_views,
};
use crate::util::{
    colorize, colorized, lacks, lemma_colorize_off_plain, lemma_lacks_concat, tok_primary,
    tok_reset, tok_secondary,
};

verus! {

/// `$(c1)user$(c2)@$(c1)host`
pub open spec fn banner(user: Seq<char>, host: Seq<char>) -> Seq<char> {
    tok_primary() + user + tok_secondary() + seq!['@'] + tok_primary() + host
}

pub open spec fn dashes(n: nat) -> Seq<char> {
    Seq::new(n, |i: int| '-')
}

/// `$(c2)` and one dash for each character of `user@host`.
pub open spec fn separator(user: Seq<char>, host: Seq<char>) -> Seq<char> {
    tok_secondary() + dashes(user.len() + 1 + host.len())
}

/// `$(c1)label:$(c0) value`
pub open spec fn fact_line(label: Seq<char>, value: Seq<char>) -> Seq<char> {
    tok_primary() + label + seq![':'] + tok_reset() + seq![' '] + value
}

/// The text beside the main logo: the second logo's lines, a blank line, the banner, the
/// separator and one line per fact, in order.
pub open spec fn output_block(
    user: Seq<char>,
    host: Seq<char>,
    facts: Seq<(Seq<char>, Seq<char>)>,
    logo_b: Seq<char>,
) -> Seq<Seq<char>> {
    lines(logo_b) + seq![seq![], banner(user, host), separator(user, host)] + Seq::new(
        facts.len(),
        |k: int| fact_line(facts[k].0, facts[k].1),
    )
}

/// Logo line `i`, a space, and line `i` of the block where there is one.
pub open spec fn rendered_line(logo_line: Seq<char>, block: Seq<Seq<char>>, i: int) -> Seq<char> {
    logo_line + seq![' '] + if i < block.len() {
        block[i]
    } else {
        seq![]
    }
}

/// The display: a blank line, one colorized line per line of the main logo, a blank line.
/// Block lines beyond the main logo's length are not shown.
pub open spec fn rendered(
    user: Seq<char>,
    host: Seq<char>,
    facts: Seq<(Seq<char>, Seq<char>)>,
    logo_a: Seq<char>,
    logo_b: Seq<char>,
    color: bool,
) -> Seq<Seq<char>> {
    let la = lines(logo_a);
    let b = output_block(user, host, facts, logo_b);
    seq![seq![]] + Seq::new(la.len(), |i: int| colorized(rendered_line(la[i], b, i), color))
        + seq![seq![]]
}

/// The lines of `s` as strings.
fn lines_of(s: &str) -> (r: Vec<String>)
    ensures
        string_views(r@) == lines(s@),
{
    let v = chars_of(s);
    let n = v.len();
    let ls = line_ranges(&v, 0, n);
    assert(v@.subrange(0, n as int) =~= v@);
    let mut r: Vec<String> = Vec::new();
    let mut k: usize = 0;
    while k < ls.len()
        invariant
            v@ == s@,
            n == v@.len(),
            pieces(v@, ls@) == lines(s@),
            ranges_within(ls@, 0, n as int),
            k <= ls@.len(),
            r@.len() == k,
            forall|j: int| 0 <= j < k ==> #[trigger] r@[j]@ == lines(s@)[j],
        decreases ls@.len() - k,
    {
        let (a, b) = ls[k];
        assert(pieces(v@, ls@)[k as int] == v@.subrange(a as int, b as int));
        let mut line = String::new();
        append_range(&mut line, s, a, b);
        assert(line@ =~= v@.subrange(a as int, b as int));
        r.push(line);
        k = k + 1;
    }
    assert(string_views(r@) =~= lines(s@));
    r
}

/// Builds the text block that stands beside the main logo.
fn build_block(user: &str, hostname: &str, facts: &IndexMap<String, String>, logo_b: &str) -> (r: Vec<
    String,
>)
    ensures
        string_views(r@) == output_block(user@, hostname@, map_entries(*facts), logo_b@),
{
    proof {
        reveal_strlit("$(c0)");
        reveal_strlit("$(c1)");
        reveal_strlit("$(c2)");
        reveal_strlit("@");
        reveal_strlit("-");
        reveal_strlit(":");
        reveal_strlit(" ");
    }
    assert("$(c0)"@ =~= tok_reset());
    assert("$(c1)"@ =~= tok_primary());
    assert("$(c2)"@ =~= tok_secondary());
    let mut r = lines_of(logo_b);
    let ghost nb = r@.len();
    r.push(String::new());
    let mut b = String::new();
    b.append("$(c1)");
    b.append(user);
    b.append("$(c2)");
    b.append("@");
    b.append("$(c1)");
    b.append(hostname);
    assert(b@ =~= banner(user@, hostname@));
    r.push(b);
    // one dash per character of user@host
    let mut d = String::new();
    d.append("$(c2)");
    let nu = user.unicode_len();
    let nh = hostname.unicode_len();
    let mut i: usize = 0;
    while i < nu
        invariant
            i <= nu,
            d@ == tok_secondary() + dashes(i as nat),
            "-"@ == seq!['-'],
        decreases nu - i,
    {
        d.append("-");
        i = i + 1;
        assert(d@ =~= tok_secondary() + dashes(i as nat));
    }
    d.append("-");
    assert(d@ =~= tok_secondary() + dashes((nu + 1) as nat));
    let mut i: usize = 0;
    while i < nh
        invariant
            i <= nh,
            d@ == tok_secondary() + dashes((nu + 1 + i) as nat),
            "-"@ == seq!['-'],
        decreases nh - i,
    {
        d.append("-");
        i = i + 1;
        assert(d@ =~= tok_secondary() + dashes((nu + 1 + i) as nat));
    }
    assert(d@ == separator(user@, hostname@));
    r.push(d);
    let ghost head = r@;
    assert(string_views(head) =~= lines(logo_b@) + seq![
        seq![],
        banner(user@, hostname@),
        separator(user@, hostname@),
    ]);
    let ghost fv = map_entries(*facts);
    let mut k: usize = 0;
    let nf = entry_count(facts);
    while k < nf
        invariant
            nf == fv.len(),
            fv == map_entries(*facts),
            head.len() == nb + 3,
            string_views(head) == lines(logo_b@) + seq![
                seq![],
                banner(user@, hostname@),
                separator(user@, hostname@),
            ],
            k <= nf,
            r@.len() == head.len() + k,
            forall|j: int| 0 <= j < head.len() ==> #[trigger] r@[j] == head[j],
            forall|j: int|
                0 <= j < k ==> #[trigger] r@[head.len() + j]@ == fact_line(fv[j].0, fv[j].1),
            "$(c0)"@ == tok_reset(),
            "$(c1)"@ == tok_primary(),
            ":"@ == seq![':'],
            " "@ == seq![' '],
        decreases nf - k,
    {
        let (label, value) = entry_at(facts, k);
        let mut line = String::new();
        line.append("$(c1)");
        line.append(label.as_str());
        line.append(":");
        line.append("$(c0)");
        line.append(" ");
        line.append(value.as_str());
        assert(line@ =~= fact_line(fv[k as int].0, fv[k as int].1));
        r.push(line);
        k = k + 1;
    }
    let ghost ob = output_block(user@, hostname@, fv, logo_b@);
    assert forall|j: int| 0 <= j < r@.len() implies #[trigger] string_views(r@)[j] == ob[j] by {
        if j < head.len() {
            assert(r@[j] == head[j]);
            assert(string_views(head)[j] == head[j]@);
        } else {
            assert(r@[head.len() + (j - head.len())]@ == fact_line(
                fv[j - head.len()].0,
                fv[j - head.len()].1,
            ));
        }
    }
    assert(string_views(r@) =~= ob);
    r
}

/// Lays the block of facts beside the main logo and colorizes each line (or strips the
/// placeholders when `color` is off), between a leading and a trailing blank line.
pub fn render(
    user: &str,
    hostname: &str,
    facts: &IndexMap<String, String>,
    logo_a: &str,
    logo_b: &str,
    color: bool,
) -> (r: Vec<String>)
    ensures
        string_views(r@) == rendered(
            user@,
            hostname@,
            map_entries(*facts),
            logo_a@,
            logo_b@,
            color,
        ),
{
    let block = build_block(user, hostname, facts, logo_b);
    let la = lines_of(logo_a);
    let ghost bv = string_views(block@);
    let ghost lav = lines(logo_a@);
    let mut r: Vec<String> = Vec::new();
    r.push(String::new());
    let mut i: usize = 0;
    proof {
        reveal_strlit(" ");
    }
    while i < la.len()
        invariant
            bv == string_views(block@),
            lav == string_views(la@),
            " "@ == seq![' '],
            i <= la@.len(),
            r@.len() == i + 1,
            r@[0]@ == Seq::<char>::empty(),
            forall|j: int|
                0 <= j < i ==> #[trigger] r@[j + 1]@ == colorized(
                    rendered_line(lav[j], bv, j),
                    color,
                ),
        decreases la@.len() - i,
    {
        let mut line = String::new();
        line.append(la[i].as_str());
        line.append(" ");
        if i < block.len() {
            line.append(block[i].as_str());
        }
        assert(line@ =~= rendered_line(lav[i as int], bv, i as int));
        let c = colorize(line.as_str(), color);
        r.push(c);
        i = i + 1;
    }
    r.push(String::new());
    let ghost want = rendered(user@, hostname@, map_entries(*facts), logo_a@, logo_b@, color);
    assert forall|j: int| 0 <= j < r@.len() implies #[trigger] string_views(r@)[j] == want[j] by {
        if j == 0 {
        } else if j <= lav.len() {
            assert(r@[(j - 1) + 1]@ == colorized(rendered_line(lav[j - 1], bv, j - 1), color));
        } else {
        }
    }
    assert(string_views(r@) =~= rendered(
        user@,
        hostname@,
        map_entries(*facts),
        logo_a@,
        logo_b@,
        color,
    ));
    r
}

proof fn lemma_split_acc_lacks(s: Seq<char>, d: char, cur: Seq<char>, c: char)
    requires
        lacks(s, c),
        lacks(cur, c),
    ensures
        forall|k: int|
            0 <= k < split_acc(s, d, cur).len() ==> lacks(#[trigger] split_acc(s, d, cur)[k], c),
    decreases s.len(),
{
    if s.len() == 0 {
        assert(split_acc(s, d, cur) == seq![cur]);
    } else if s[0] == d {
        assert(lacks(s.drop_first(), c));
        lemma_split_acc_lacks(s.drop_first(), d, seq![], c);
        let rest = split_acc(s.drop_first(), d, seq![]);
        assert(split_acc(s, d, cur) == seq![cur] + rest);
        assert forall|k: int| 0 <= k < split_acc(s, d, cur).len() implies lacks(
            #[trigger] split_acc(s, d, cur)[k],
            c,
        ) by {
            if k > 0 {
                assert(split_acc(s, d, cur)[k] == rest[k - 1]);
            } else {
                assert(split_acc(s, d, cur)[k] == cur);
            }
        }
    } else {
        assert(lacks(cur.push(s[0]), c));
        assert(lacks(s.drop_first(), c));
        lemma_split_acc_lacks(s.drop_first(), d, cur.push(s[0]), c);
        assert(split_acc(s, d, cur) == split_acc(s.drop_first(), d, cur.push(s[0])));
    }
}

proof fn lemma_lines_lack(s: Seq<char>, c: char)
    requires
        lacks(s, c),
    ensures
        forall|k: int| 0 <= k < lines(s).len() ==> lacks(#[trigger] lines(s)[k], c),
{
    lemma_split_acc_lacks(s, '\n', seq![], c);
    let p = split_acc(s, '\n', seq![]);
    assert forall|k: int| 0 <= k < lines(s).len() implies lacks(#[trigger] lines(s)[k], c) by {
        assert(lacks(p[k], c));
    }
}

proof fn lemma_tokens_lack_esc()
    ensures
        lacks(tok_reset(), '\x1B'),
        lacks(tok_primary(), '\x1B'),
        lacks(tok_secondary(), '\x1B'),
        lacks(seq!['@'], '\x1B'),
        lacks(seq![':'], '\x1B'),
        lacks(seq![' '], '\x1B'),
{
}

/// With color off, a display built from text free of the escape character holds no
/// escape character on any line.
pub proof fn lemma_render_plain(
    user: Seq<char>,
    host: Seq<char>,
    facts: Seq<(Seq<char>, Seq<char>)>,
    logo_a: Seq<char>,
    logo_b: Seq<char>,
)
    requires
        lacks(user, '\x1B'),
        lacks(host, '\x1B'),
        lacks(logo_a, '\x1B'),
        lacks(logo_b, '\x1B'),
        forall|k: int|
            0 <= k < facts.len() ==> lacks(#[trigger] facts[k].0, '\x1B') && lacks(facts[k].1, '\x1B'),
    ensures
        forall|i: int|
            0 <= i < rendered(user, host, facts, logo_a, logo_b, false).len() ==> lacks(
                #[trigger] rendered(user, host, facts, logo_a, logo_b, false)[i],
                '\x1B',
            ),
{
    let e = '\x1B';
    let la = lines(logo_a);
    let lb = lines(logo_b);
    let b = output_block(user, host, facts, logo_b);
    lemma_lines_lack(logo_a, e);
    lemma_lines_lack(logo_b, e);
    lemma_tokens_lack_esc();
    // banner
    lemma_lacks_concat(tok_primary(), user, e);
    lemma_lacks_concat(tok_primary() + user, tok_secondary(), e);
    lemma_lacks_concat(tok_primary() + user + tok_secondary(), seq!['@'], e);
    lemma_lacks_concat(tok_primary() + user + tok_secondary() + seq!['@'], tok_primary(), e);
    lemma_lacks_concat(
        tok_primary() + user + tok_secondary() + seq!['@'] + tok_primary(),
        host,
        e,
    );
    // separator
    let n = (user.len() + 1 + host.len()) as nat;
    assert(lacks(dashes(n), e));
    lemma_lacks_concat(tok_secondary(), dashes(n), e);
    assert forall|j: int| 0 <= j < b.len() implies lacks(#[trigger] b[j], e) by {
        if j < lb.len() {
            assert(b[j] == lb[j]);
        } else if j == lb.len() {
            assert(b[j] == Seq::<char>::empty());
        } else if j == lb.len() + 1 {
            assert(b[j] == banner(user, host));
        } else if j == lb.len() + 2 {
            assert(b[j] == separator(user, host));
        } else {
            let k = j - lb.len() - 3;
            assert(b[j] == fact_line(facts[k].0, facts[k].1));
            assert(lacks(facts[k].0, e) && lacks(facts[k].1, e));
            lemma_lacks_concat(tok_primary(), facts[k].0, e);
            lemma_lacks_concat(tok_primary() + facts[k].0, seq![':'], e);
            lemma_lacks_concat(tok_primary() + facts[k].0 + seq![':'], tok_reset(), e);
            lemma_lacks_concat(
                tok_primary() + facts[k].0 + seq![':'] + tok_reset(),
                seq![' '],
                e,
            );
            lemma_lacks_concat(
                tok_primary() + facts[k].0 + seq![':'] + tok_reset() + seq![' '],
                facts[k].1,
                e,
            );
        }
    }
    let r = rendered(user, host, facts, logo_a, logo_b, false);
    assert forall|i: int| 0 <= i < r.len() implies lacks(#[trigger] r[i], e) by {
        if 1 <= i <= la.len() {
            let j = i - 1;
            let tail = if j < b.len() {
                b[j]
            } else {
                seq![]
            };
            assert(lacks(la[j], e));
            assert(lacks(tail, e));
            lemma_lacks_concat(la[j], seq![' '], e);
            lemma_lacks_concat(la[j] + seq![' '], tail, e);
            assert(rendered_line(la[j], b, j) == la[j] + seq![' '] + tail);
            lemma_colorize_off_plain(rendered_line(la[j], b, j));
            assert(r[i] == colorized(rendered_line(la[j], b, j), false));
        } else {
            assert(r[i] == Seq::<char>::empty());
        }
    }
}

} // verus!
