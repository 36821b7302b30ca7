use vstd::prelude::*;

use crate::text::{
    append_dec, dec, join, range_eq_str, trim, trim_range, word_ranges, words, append_range, chars_of, line_ranges, lines, pieces, range_eq, ranges_within, split, split_ranges,
};

verus! {

/// Why a command's output could not be turned into a fact.
#[derive(Debug, Clone, Copy, PartialEq, Eq, Structural)]
pub enum ProbeError {
    /// A line holds fewer fields than its format has.
    MissingField,
    /// The output holds fewer lines than its format has.
    MissingLine,
    /// No boot environment is marked to be active on reboot (`R`).
    NoNextBootEnv,
    /// No boot environment is marked active now (`N`).
    NoCurrentBootEnv,
    /// Two boot environments carry the same `R` or `N` flag.
    InconsistentBootEnv,
    /// A field that should hold a `u64` does not.
    BadNumber,
    /// The boot time lies after the current time.
    BootInFuture,
}

/// What a probe's result holds, with its text as characters.
pub open spec fn result_view(r: Result<String, ProbeError>) -> Result<Seq<char>, ProbeError> {
    match r {
        Ok(s) => Ok(s@),
        Err(e) => Err(e),
    }
}

// ---- boot environments -------------------------------------------------------------------

/// Every record of a boot-environment listing has a name, a second field and flags.
pub open spec fn be_records_ok(ls: Seq<Seq<char>>) -> bool {
    forall|k: int| 0 <= k < ls.len() ==> #[trigger] split(ls[k], ';').len() >= 3
}

pub open spec fn be_name(l: Seq<char>) -> Seq<char> {
    split(l, ';')[0]
}

pub open spec fn be_flagged(l: Seq<char>, c: char) -> bool {
    split(l, ';')[2].contains(c)
}

/// How many records carry flag `c`.
pub open spec fn count_flagged(ls: Seq<Seq<char>>, c: char) -> nat
    decreases ls.len(),
{
    if ls.len() == 0 {
        0
    } else {
        count_flagged(ls.drop_last(), c) + if be_flagged(ls.last(), c) {
            1nat
        } else {
            0nat
        }
    }
}

/// The index of the last record that carries flag `c`, or -1.
pub open spec fn last_flagged(ls: Seq<Seq<char>>, c: char) -> int
    decreases ls.len(),
{
    if ls.len() == 0 {
        -1
    } else if be_flagged(ls.last(), c) {
        ls.len() - 1
    } else {
        last_flagged(ls.drop_last(), c)
    }
}

pub open spec fn staged_text(current: Seq<char>, next: Seq<char>) -> Seq<char> {
    current + seq![' ', '(', 's', 't', 'a', 'g', 'e', 'd', ' '] + next + seq![')']
}

/// The boot-environment fact from a `;`-separated listing (name;...;flags per line):
/// the record flagged `N` is current, the one flagged `R` is next.
pub open spec fn boot_env_fact(s: Seq<char>) -> Result<Seq<char>, ProbeError> {
    let ls = lines(s);
    if !be_records_ok(ls) {
        Err(ProbeError::MissingField)
    } else if count_flagged(ls, 'R') >= 2 || count_flagged(ls, 'N') >= 2 {
        Err(ProbeError::InconsistentBootEnv)
    } else if count_flagged(ls, 'R') == 0 {
        Err(ProbeError::NoNextBootEnv)
    } else if count_flagged(ls, 'N') == 0 {
        Err(ProbeError::NoCurrentBootEnv)
    } else {
        let next = be_name(ls[last_flagged(ls, 'R')]);
        let current = be_name(ls[last_flagged(ls, 'N')]);
        if next == current {
            Ok(current)
        } else {
            Ok(staged_text(current, next))
        }
    }
}

proof fn lemma_last_flagged_bounds(ls: Seq<Seq<char>>, c: char)
    ensures
        -1 <= last_flagged(ls, c) < ls.len(),
        count_flagged(ls, c) > 0 <==> last_flagged(ls, c) >= 0,
    decreases ls.len(),
{
    if ls.len() > 0 {
        lemma_last_flagged_bounds(ls.drop_last(), c);
    }
}

/// `true` when `v[a..b]` holds `c`.
fn range_contains(v: &Vec<char>, a: usize, b: usize, c: char) -> (r: bool)
    requires
        a <= b <= v.len(),
    ensures
        r == v@.subrange(a as int, b as int).contains(c),
{
    let mut i = a;
    while i < b
        invariant
            a <= i <= b <= v.len(),
            forall|j: int| a <= j < i ==> v@[j] != c,
        decreases b - i,
    {
        if v[i] == c {
            assert(v@.subrange(a as int, b as int)[i - a] == c);
            return true;
        }
        i = i + 1;
    }
    assert forall|j: int| 0 <= j < b - a implies v@.subrange(a as int, b as int)[j] != c by {
        assert(v@[a + j] != c);
    }
    false
}

/// Reports the active boot environment, and the one staged for the next boot where they
/// differ, from the output of the boot-environment listing.
pub fn get_bootenvironment(output: &str) -> (r: Result<String, ProbeError>)
    ensures
        result_view(r) == boot_env_fact(output@),
{
    let v = chars_of(output);
    let n = v.len();
    let ls = line_ranges(&v, 0, n);
    let ghost lsv = lines(v@);
    assert(v@.subrange(0, n as int) =~= v@);
    // name and flags of each record
    let mut names: Vec<(usize, usize)> = Vec::new();
    let mut flags: Vec<(usize, usize)> = Vec::new();
    let mut k: usize = 0;
    while k < ls.len()
        invariant
            v@ == output@,
            lsv == lines(v@),
            pieces(v@, ls@) == lsv,
            ranges_within(ls@, 0, n as int),
            n == v@.len(),
            k <= ls@.len(),
            names@.len() == k,
            flags@.len() == k,
            ranges_within(names@, 0, n as int),
            ranges_within(flags@, 0, n as int),
            forall|j: int| 0 <= j < k ==> #[trigger] split(lsv[j], ';').len() >= 3,
            forall|j: int|
                0 <= j < k ==> #[trigger] pieces(v@, names@)[j] == be_name(lsv[j]),
            forall|j: int|
                0 <= j < k ==> #[trigger] pieces(v@, flags@)[j] == split(lsv[j], ';')[2],
        decreases ls@.len() - k,
    {
        let (a, b) = ls[k];
        assert(lsv[k as int] == v@.subrange(a as int, b as int));
        let f = split_ranges(&v, a, b, ';');
        if f.len() < 3 {
            assert(split(lsv[k as int], ';').len() < 3);
            assert(!be_records_ok(lsv));
            return Err(ProbeError::MissingField);
        }
        assert(pieces(v@, f@)[0] == be_name(lsv[k as int]));
        let ghost old_names = names@;
        let ghost old_flags = flags@;
        names.push(f[0]);
        flags.push(f[2]);
        assert forall|j: int| 0 <= j < k implies #[trigger] pieces(v@, names@)[j] == pieces(
            v@,
            old_names,
        )[j] by {
            assert(names@[j] == old_names[j]);
        }
        assert forall|j: int| 0 <= j < k implies #[trigger] pieces(v@, flags@)[j] == pieces(
            v@,
            old_flags,
        )[j] by {
            assert(flags@[j] == old_flags[j]);
        }
        assert(pieces(v@, names@)[k as int] == be_name(lsv[k as int]));
        assert(pieces(v@, flags@)[k as int] == split(lsv[k as int], ';')[2]);
        k = k + 1;
    }
    assert(be_records_ok(lsv));
    // scan the flags
    let mut n_next: usize = 0;
    let mut n_cur: usize = 0;
    let mut i_next: usize = 0;
    let mut i_cur: usize = 0;
    let mut k: usize = 0;
    while k < ls.len()
        invariant
            v@ == output@,
            lsv == lines(v@),
            ls@.len() == lsv.len() == names@.len() == flags@.len(),
            n == v@.len(),
            ranges_within(flags@, 0, n as int),
            forall|j: int|
                0 <= j < lsv.len() ==> #[trigger] pieces(v@, flags@)[j] == split(lsv[j], ';')[2],
            k <= ls@.len(),
            n_next as nat == count_flagged(lsv.take(k as int), 'R'),
            n_cur as nat == count_flagged(lsv.take(k as int), 'N'),
            n_next <= k,
            n_cur <= k,
            n_next > 0 ==> i_next as int == last_flagged(lsv.take(k as int), 'R'),
            n_cur > 0 ==> i_cur as int == last_flagged(lsv.take(k as int), 'N'),
        decreases ls@.len() - k,
    {
        assert(lsv.take(k + 1).drop_last() =~= lsv.take(k as int));
        assert(lsv.take(k + 1).last() == lsv[k as int]);
        let (a, b) = flags[k];
        assert(pieces(v@, flags@)[k as int] == split(lsv[k as int], ';')[2]);
        if range_contains(&v, a, b, 'R') {
            n_next = n_next + 1;
            i_next = k;
        }
        if range_contains(&v, a, b, 'N') {
            n_cur = n_cur + 1;
            i_cur = k;
        }
        k = k + 1;
    }
    assert(lsv.take(lsv.len() as int) =~= lsv);
    if n_next >= 2 || n_cur >= 2 {
        return Err(ProbeError::InconsistentBootEnv);
    }
    if n_next == 0 {
        return Err(ProbeError::NoNextBootEnv);
    }
    if n_cur == 0 {
        return Err(ProbeError::NoCurrentBootEnv);
    }
    proof {
        lemma_last_flagged_bounds(lsv, 'R');
        lemma_last_flagged_bounds(lsv, 'N');
    }
    assert(pieces(v@, names@)[i_next as int] == be_name(lsv[i_next as int]));
    assert(pieces(v@, names@)[i_cur as int] == be_name(lsv[i_cur as int]));
    let (na, nb) = names[i_next];
    let (ca, cb) = names[i_cur];
    let ghost next = be_name(lsv[i_next as int]);
    let ghost current = be_name(lsv[i_cur as int]);
    assert(v@.subrange(na as int, nb as int) == next);
    assert(v@.subrange(ca as int, cb as int) == current);
    let mut out = String::new();
    append_range(&mut out, output, ca, cb);
    assert(out@ =~= current);
    if !range_eq(&v, na, nb, ca, cb) {
        proof {
            reveal_strlit(" (staged ");
            reveal_strlit(")");
        }
        out.append(" (staged ");
        append_range(&mut out, output, na, nb);
        out.append(")");
        assert(out@ =~= staged_text(current, next));
    }
    Ok(out)
}

// ---- processors --------------------------------------------------------------------------

/// Every line of a brand statistic holds a key and a value, separated by a tab.
pub open spec fn cpu_lines_ok(ls: Seq<Seq<char>>) -> bool {
    forall|k: int| 0 <= k < ls.len() ==> #[trigger] split(ls[k], '\t').len() >= 2
}

/// The brand on each line.
pub open spec fn cpu_brands(ls: Seq<Seq<char>>) -> Seq<Seq<char>> {
    Seq::new(ls.len(), |k: int| split(ls[k], '\t')[1])
}

/// The distinct items of `b`, in the order in which each first occurs.
pub open spec fn firsts(b: Seq<Seq<char>>) -> Seq<Seq<char>>
    decreases b.len(),
{
    if b.len() == 0 {
        seq![]
    } else if b.drop_last().contains(b.last()) {
        firsts(b.drop_last())
    } else {
        firsts(b.drop_last()).push(b.last())
    }
}

/// How often `x` occurs in `b`.
pub open spec fn count_of(b: Seq<Seq<char>>, x: Seq<char>) -> nat
    decreases b.len(),
{
    if b.len() == 0 {
        0
    } else {
        count_of(b.drop_last(), x) + if b.last() == x {
            1nat
        } else {
            0nat
        }
    }
}

/// `"<count> x <brand>"`
pub open spec fn cpu_segment(b: Seq<Seq<char>>, x: Seq<char>) -> Seq<char> {
    dec(count_of(b, x)) + seq![' ', 'x', ' '] + x
}

pub open spec fn cpu_text(b: Seq<Seq<char>>) -> Seq<char> {
    join(firsts(b).map_values(|x: Seq<char>| cpu_segment(b, x)), seq![',', ' '])
}

/// The processor fact from a tab-separated brand statistic: one segment per distinct
/// brand, in the order of first occurrence, with the number of processors of that brand.
pub open spec fn cpu_fact(s: Seq<char>) -> Result<Seq<char>, ProbeError> {
    let ls = lines(s);
    if !cpu_lines_ok(ls) {
        Err(ProbeError::MissingField)
    } else {
        Ok(cpu_text(cpu_brands(ls)))
    }
}

proof fn lemma_join_push(parts: Seq<Seq<char>>, sep: Seq<char>, x: Seq<char>)
    ensures
        join(parts.push(x), sep) == if parts.len() == 0 {
            x
        } else {
            join(parts, sep) + sep + x
        },
{
    assert(parts.push(x).drop_last() =~= parts);
}

/// Counts the processors of each brand in a brand statistic.
pub fn get_cpu(output: &str) -> (r: Result<String, ProbeError>)
    ensures
        result_view(r) == cpu_fact(output@),
{
    let v = chars_of(output);
    let n = v.len();
    let ls = line_ranges(&v, 0, n);
    let ghost lsv = lines(v@);
    assert(v@.subrange(0, n as int) =~= v@);
    let mut bs: Vec<(usize, usize)> = Vec::new();
    let mut k: usize = 0;
    while k < ls.len()
        invariant
            v@ == output@,
            lsv == lines(v@),
            pieces(v@, ls@) == lsv,
            ranges_within(ls@, 0, n as int),
            n == v@.len(),
            k <= ls@.len(),
            bs@.len() == k,
            ranges_within(bs@, 0, n as int),
            forall|j: int| 0 <= j < k ==> #[trigger] split(lsv[j], '\t').len() >= 2,
            forall|j: int|
                0 <= j < k ==> #[trigger] pieces(v@, bs@)[j] == split(lsv[j], '\t')[1],
        decreases ls@.len() - k,
    {
        let (a, b) = ls[k];
        assert(lsv[k as int] == v@.subrange(a as int, b as int));
        let f = split_ranges(&v, a, b, '\t');
        if f.len() < 2 {
            assert(split(lsv[k as int], '\t').len() < 2);
            return Err(ProbeError::MissingField);
        }
        let ghost old_bs = bs@;
        bs.push(f[1]);
        assert forall|j: int| 0 <= j < k implies #[trigger] pieces(v@, bs@)[j] == pieces(
            v@,
            old_bs,
        )[j] by {
            assert(bs@[j] == old_bs[j]);
        }
        assert(pieces(v@, bs@)[k as int] == split(lsv[k as int], '\t')[1]);
        k = k + 1;
    }
    let ghost b = cpu_brands(lsv);
    assert(pieces(v@, bs@) =~= b);
    let nb = bs.len();
    let mut out = String::new();
    let ghost mut segs: Seq<Seq<char>> = seq![];
    let mut any = false;
    let mut i: usize = 0;
    assert(b.take(0) =~= Seq::<Seq<char>>::empty());
    assert(firsts(b.take(0)).map_values(|x: Seq<char>| cpu_segment(b, x)) =~= segs);
    while i < nb
        invariant
            v@ == output@,
            n == v@.len(),
            nb == bs@.len() == b.len(),
            ranges_within(bs@, 0, n as int),
            pieces(v@, bs@) == b,
            i <= nb,
            segs == firsts(b.take(i as int)).map_values(|x: Seq<char>| cpu_segment(b, x)),
            out@ == join(segs, seq![',', ' ']),
            any == (segs.len() > 0),
        decreases nb - i,
    {
        assert(b.take(i + 1).drop_last() =~= b.take(i as int));
        assert(b.take(i + 1).last() == b[i as int]);
        let (a, e) = bs[i];
        assert(b[i as int] == v@.subrange(a as int, e as int));
        // seen before?
        let mut seen = false;
        let mut j: usize = 0;
        while j < i && !seen
            invariant
                nb == bs@.len() == b.len(),
                ranges_within(bs@, 0, n as int),
                n == v@.len(),
                pieces(v@, bs@) == b,
                j <= i < nb,
                a <= e <= n,
                b[i as int] == v@.subrange(a as int, e as int),
                seen ==> b.take(i as int).contains(b[i as int]),
                !seen ==> forall|t: int| 0 <= t < j ==> b[t] != b[i as int],
            decreases i - j + if seen { 0int } else { 1int },
        {
            let (c, d) = bs[j];
            assert(b[j as int] == v@.subrange(c as int, d as int));
            if range_eq(&v, c, d, a, e) {
                assert(b.take(i as int)[j as int] == b[i as int]);
                seen = true;
            } else {
                j = j + 1;
            }
        }
        if !seen {
            assert forall|t: int| 0 <= t < i implies b.take(i as int)[t] != b[i as int] by {
                assert(b[t] != b[i as int]);
            }
            // count occurrences
            let mut c: usize = 0;
            let mut j: usize = 0;
            while j < nb
                invariant
                    nb == bs@.len() == b.len(),
                    ranges_within(bs@, 0, n as int),
                    n == v@.len(),
                    pieces(v@, bs@) == b,
                    j <= nb,
                    a <= e <= n,
                    b[i as int] == v@.subrange(a as int, e as int),
                    c <= j,
                    c as nat == count_of(b.take(j as int), b[i as int]),
                decreases nb - j,
            {
                assert(b.take(j + 1).drop_last() =~= b.take(j as int));
                let (p, q) = bs[j];
                assert(b[j as int] == v@.subrange(p as int, q as int));
                if range_eq(&v, p, q, a, e) {
                    c = c + 1;
                }
                j = j + 1;
            }
            assert(b.take(nb as int) =~= b);
            let ghost seg = cpu_segment(b, b[i as int]);
            proof {
                lemma_join_push(segs, seq![',', ' '], seg);
                reveal_strlit(", ");
                reveal_strlit(" x ");
            }
            let ghost before = out@;
            if any {
                out.append(", ");
            }
            append_dec(&mut out, c as u64);
            out.append(" x ");
            append_range(&mut out, output, a, e);
            assert(firsts(b.take(i + 1)) == firsts(b.take(i as int)).push(b[i as int]));
            assert(firsts(b.take(i + 1)).map_values(|x: Seq<char>| cpu_segment(b, x))
                =~= segs.push(seg));
            if any {
                assert(out@ =~= before + seq![',', ' '] + seg);
            } else {
                assert(out@ =~= seg);
            }
            proof {
                segs = segs.push(seg);
            }
            any = true;
        }
        i = i + 1;
    }
    assert(b.take(nb as int) =~= b);
    Ok(out)
}

/// The counts of the items `f`, added up.
pub open spec fn sum_counts(b: Seq<Seq<char>>, f: Seq<Seq<char>>) -> nat
    decreases f.len(),
{
    if f.len() == 0 {
        0
    } else {
        sum_counts(b, f.drop_last()) + count_of(b, f.last())
    }
}

proof fn lemma_count_absent(b: Seq<Seq<char>>, x: Seq<char>)
    requires
        !b.contains(x),
    ensures
        count_of(b, x) == 0,
    decreases b.len(),
{
    if b.len() > 0 {
        assert(b.last() == b[b.len() - 1]);
        assert forall|k: int| 0 <= k < b.drop_last().len() implies b.drop_last()[k] != x by {
            assert(b.drop_last()[k] == b[k]);
        }
        lemma_count_absent(b.drop_last(), x);
    }
}

proof fn lemma_sum_push(b: Seq<Seq<char>>, y: Seq<char>, f: Seq<Seq<char>>)
    requires
        f.no_duplicates(),
    ensures
        sum_counts(b.push(y), f) == sum_counts(b, f) + if f.contains(y) {
            1nat
        } else {
            0nat
        },
    decreases f.len(),
{
    if f.len() > 0 {
        let g = f.drop_last();
        assert(g.no_duplicates());
        lemma_sum_push(b, y, g);
        assert(b.push(y).drop_last() =~= b);
        assert(count_of(b.push(y), f.last()) == count_of(b, f.last()) + if y == f.last() {
            1nat
        } else {
            0nat
        });
        if f.last() == y {
            assert(f.contains(y));
            assert forall|k: int| 0 <= k < g.len() implies g[k] != y by {
                assert(f[k] == g[k]);
                assert(f[f.len() - 1] == y);
            }
            assert(!g.contains(y));
        } else {
            if g.contains(y) {
                let k = choose|k: int| 0 <= k < g.len() && g[k] == y;
                assert(f[k] == y);
            }
            if f.contains(y) {
                let k = choose|k: int| 0 <= k < f.len() && f[k] == y;
                assert(k < g.len());
                assert(g[k] == y);
            }
        }
    }
}

/// The processor fact has one segment per distinct brand, each brand once, and the counts
/// of the segments add up to the number of lines.
pub proof fn lemma_cpu_counts(s: Seq<char>)
    requires
        cpu_fact(s) is Ok,
    ensures
        sum_counts(cpu_brands(lines(s)), firsts(cpu_brands(lines(s)))) == lines(s).len(),
        firsts(cpu_brands(lines(s))).no_duplicates(),
        forall|x: Seq<char>|
            cpu_brands(lines(s)).contains(x) <==> #[trigger] firsts(
                cpu_brands(lines(s)),
            ).contains(x),
{
    lemma_firsts_counts(cpu_brands(lines(s)));
}

proof fn lemma_firsts_counts(b: Seq<Seq<char>>)
    ensures
        sum_counts(b, firsts(b)) == b.len(),
        firsts(b).no_duplicates(),
        forall|x: Seq<char>| b.contains(x) <==> #[trigger] firsts(b).contains(x),
    decreases b.len(),
{
    if b.len() > 0 {
        let p = b.drop_last();
        let y = b.last();
        lemma_firsts_counts(p);
        assert(p.push(y) =~= b);
        let f = firsts(p);
        lemma_sum_push(p, y, f);
        assert forall|x: Seq<char>| b.contains(x) <==> p.contains(x) || x == y by {
            if b.contains(x) {
                let k = choose|k: int| 0 <= k < b.len() && b[k] == x;
                if k < p.len() {
                    assert(p[k] == x);
                }
            }
            if p.contains(x) {
                let k = choose|k: int| 0 <= k < p.len() && p[k] == x;
                assert(b[k] == x);
            }
            if x == y {
                assert(b[b.len() - 1] == x);
            }
        }
        if p.contains(y) {
            assert(firsts(b) == f);
            assert forall|x: Seq<char>| b.contains(x) <==> #[trigger] firsts(b).contains(x) by {
                assert(b.contains(x) <==> p.contains(x) || x == y);
                assert(p.contains(x) <==> f.contains(x));
            }
        } else {
            assert(firsts(b) == f.push(y));
            assert(!f.contains(y));
            lemma_count_absent(p, y);
            assert(count_of(b, y) == 1) by {
                assert(b.drop_last() =~= p);
            }
            lemma_sum_push(p, y, f);
            assert(f.push(y).drop_last() =~= f);
            assert forall|x: Seq<char>| f.push(y).contains(x) <==> f.contains(x) || x == y by {
                if f.push(y).contains(x) {
                    let k = choose|k: int| 0 <= k < f.push(y).len() && f.push(y)[k] == x;
                    if k < f.len() {
                        assert(f[k] == x);
                    }
                }
                if f.contains(x) {
                    let k = choose|k: int| 0 <= k < f.len() && f[k] == x;
                    assert(f.push(y)[k] == x);
                }
                if x == y {
                    assert(f.push(y)[f.len() as int] == x);
                }
            }
            assert forall|i: int, j: int|
                0 <= i < f.push(y).len() && 0 <= j < f.push(y).len() && i != j implies f.push(
                    y,
                )[i] != f.push(y)[j] by {
                if i < f.len() && j < f.len() {
                } else if i < f.len() {
                    assert(f.contains(f[i]));
                } else if j < f.len() {
                    assert(f.contains(f[j]));
                }
            }
            assert forall|x: Seq<char>| b.contains(x) <==> #[trigger] firsts(b).contains(x) by {
                assert(b.contains(x) <==> p.contains(x) || x == y);
                assert(p.contains(x) <==> f.contains(x));
                assert(f.push(y).contains(x) <==> f.contains(x) || x == y);
            }
        }
    } else {
        assert forall|x: Seq<char>| b.contains(x) <==> #[trigger] firsts(b).contains(x) by {
            assert(firsts(b).len() == 0);
        }
    }
}

// ---- storage pools -----------------------------------------------------------------------

/// Every line of a pool listing holds name, capacity, allocated and size.
pub open spec fn zpool_lines_ok(ls: Seq<Seq<char>>) -> bool {
    forall|k: int| 0 <= k < ls.len() ==> #[trigger] words(ls[k]).len() >= 4
}

/// `"<name> <allocated>/<size>"`
pub open spec fn zpool_segment(l: Seq<char>) -> Seq<char> {
    let w = words(l);
    w[0] + seq![' '] + w[2] + seq!['/'] + w[3]
}

/// The storage fact from a whitespace-separated pool listing.
pub open spec fn zpool_fact(s: Seq<char>) -> Result<Seq<char>, ProbeError> {
    let ls = lines(s);
    if !zpool_lines_ok(ls) {
        Err(ProbeError::MissingField)
    } else {
        Ok(join(ls.map_values(|l: Seq<char>| zpool_segment(l)), seq![',', ' ']))
    }
}

/// Lists each storage pool with its allocated space and size.
pub fn get_zpools(output: &str) -> (r: Result<String, ProbeError>)
    ensures
        result_view(r) == zpool_fact(output@),
{
    let v = chars_of(output);
    let n = v.len();
    let ls = line_ranges(&v, 0, n);
    let ghost lsv = lines(v@);
    assert(v@.subrange(0, n as int) =~= v@);
    let mut out = String::new();
    let ghost mut segs: Seq<Seq<char>> = seq![];
    let mut k: usize = 0;
    while k < ls.len()
        invariant
            v@ == output@,
            lsv == lines(v@),
            pieces(v@, ls@) == lsv,
            ranges_within(ls@, 0, n as int),
            n == v@.len(),
            k <= ls@.len(),
            forall|j: int| 0 <= j < k ==> #[trigger] words(lsv[j]).len() >= 4,
            segs == lsv.take(k as int).map_values(|l: Seq<char>| zpool_segment(l)),
            out@ == join(segs, seq![',', ' ']),
        decreases ls@.len() - k,
    {
        let (a, b) = ls[k];
        assert(lsv[k as int] == v@.subrange(a as int, b as int));
        let w = word_ranges(&v, a, b);
        if w.len() < 4 {
            assert(words(lsv[k as int]).len() < 4);
            return Err(ProbeError::MissingField);
        }
        let ghost seg = zpool_segment(lsv[k as int]);
        let ghost before = out@;
        proof {
            lemma_join_push(segs, seq![',', ' '], seg);
            reveal_strlit(", ");
            reveal_strlit(" ");
            reveal_strlit("/");
        }
        if k > 0 {
            out.append(", ");
        }
        let (a0, b0) = w[0];
        let (a2, b2) = w[2];
        let (a3, b3) = w[3];
        append_range(&mut out, output, a0, b0);
        out.append(" ");
        append_range(&mut out, output, a2, b2);
        out.append("/");
        append_range(&mut out, output, a3, b3);
        assert(pieces(v@, w@)[0] == v@.subrange(a0 as int, b0 as int));
        assert(pieces(v@, w@)[2] == v@.subrange(a2 as int, b2 as int));
        assert(pieces(v@, w@)[3] == v@.subrange(a3 as int, b3 as int));
        if k > 0 {
            assert(out@ =~= before + seq![',', ' '] + seg);
        } else {
            assert(out@ =~= seg);
        }
        assert(lsv.take(k + 1).map_values(|l: Seq<char>| zpool_segment(l)) =~= segs.push(seg));
        proof {
            segs = segs.push(seg);
        }
        k = k + 1;
    }
    assert(lsv.take(lsv.len() as int) =~= lsv);
    Ok(out)
}

// ---- services and zones ------------------------------------------------------------------

pub open spec fn online_word() -> Seq<char> {
    seq!['o', 'n', 'l', 'i', 'n', 'e']
}

/// How many lines of `ls` equal `t`.
pub open spec fn count_lines(ls: Seq<Seq<char>>, t: Seq<char>) -> nat
    decreases ls.len(),
{
    if ls.len() == 0 {
        0
    } else {
        count_lines(ls.drop_last(), t) + if ls.last() == t {
            1nat
        } else {
            0nat
        }
    }
}

/// `"<count> svcs online"`, counting the lines of a service-state listing that read `online`.
pub open spec fn smf_fact(s: Seq<char>) -> Seq<char> {
    dec(count_lines(lines(s), online_word())) + seq![
        ' ',
        's',
        'v',
        'c',
        's',
        ' ',
        'o',
        'n',
        'l',
        'i',
        'n',
        'e',
    ]
}

/// Counts the services that are online in a service-state listing (one state per line).
pub fn get_smf(output: &str) -> (r: String)
    ensures
        r@ == smf_fact(output@),
{
    let v = chars_of(output);
    let n = v.len();
    let ls = line_ranges(&v, 0, n);
    let ghost lsv = lines(v@);
    assert(v@.subrange(0, n as int) =~= v@);
    let mut c: usize = 0;
    let mut k: usize = 0;
    while k < ls.len()
        invariant
            pieces(v@, ls@) == lsv,
            ranges_within(ls@, 0, n as int),
            n == v@.len(),
            k <= ls@.len(),
            c <= k,
            c as nat == count_lines(lsv.take(k as int), online_word()),
        decreases ls@.len() - k,
    {
        assert(lsv.take(k + 1).drop_last() =~= lsv.take(k as int));
        let (a, b) = ls[k];
        assert(lsv[k as int] == v@.subrange(a as int, b as int));
        proof {
            reveal_strlit("online");
        }
        assert("online"@ =~= online_word());
        assert(lsv.take(k + 1).last() == lsv[k as int]);
        if range_eq_str(&v, a, b, "online") {
            c = c + 1;
        }
        k = k + 1;
    }
    assert(lsv.take(lsv.len() as int) =~= lsv);
    let mut out = String::new();
    append_dec(&mut out, c as u64);
    proof {
        reveal_strlit(" svcs online");
    }
    out.append(" svcs online");
    assert(out@ =~= smf_fact(output@));
    out
}

/// `"<running> running (<total> total)"`, counting the lines of the two zone listings.
pub open spec fn zones_fact(running: Seq<char>, all: Seq<char>) -> Seq<char> {
    dec(lines(running).len()) + seq![' ', 'r', 'u', 'n', 'n', 'i', 'n', 'g', ' ', '(']
        + dec(lines(all).len()) + seq![' ', 't', 'o', 't', 'a', 'l', ')']
}

/// Counts the running zones and all configured zones from the two zone listings.
pub fn get_zones(running: &str, all: &str) -> (r: String)
    ensures
        r@ == zones_fact(running@, all@),
{
    let v = chars_of(running);
    let w = chars_of(all);
    let lr = line_ranges(&v, 0, v.len());
    let la = line_ranges(&w, 0, w.len());
    assert(v@.subrange(0, v@.len() as int) =~= v@);
    assert(w@.subrange(0, w@.len() as int) =~= w@);
    proof {
        reveal_strlit(" running (");
        reveal_strlit(" total)");
    }
    let mut out = String::new();
    append_dec(&mut out, lr.len() as u64);
    out.append(" running (");
    append_dec(&mut out, la.len() as u64);
    out.append(" total)");
    assert(out@ =~= zones_fact(running@, all@));
    out
}

// ---- release -----------------------------------------------------------------------------

/// The release fact: the first line of the release file, trimmed.
pub open spec fn os_fact(s: Seq<char>) -> Result<Seq<char>, ProbeError> {
    if lines(s).len() == 0 {
        Err(ProbeError::MissingLine)
    } else {
        Ok(trim(lines(s)[0]))
    }
}

/// Reads the release name from the text of the release file.
pub fn get_os(data: &str) -> (r: Result<String, ProbeError>)
    ensures
        result_view(r) == os_fact(data@),
{
    let v = chars_of(data);
    let n = v.len();
    let ls = line_ranges(&v, 0, n);
    assert(v@.subrange(0, n as int) =~= v@);
    if ls.len() == 0 {
        return Err(ProbeError::MissingLine);
    }
    let (a, b) = ls[0];
    assert(lines(v@)[0] == v@.subrange(a as int, b as int));
    let (x, y) = trim_range(&v, a, b);
    let mut out = String::new();
    append_range(&mut out, data, x, y);
    assert(out@ =~= v@.subrange(x as int, y as int));
    Ok(out)
}

// ---- kernel and memory -------------------------------------------------------------------

/// The kernel fact: the version text without surrounding whitespace.
pub fn get_kernel(output: &str) -> (r: String)
    ensures
        r@ == trim(output@),
{
    let v = chars_of(output);
    let (a, b) = trim_range(&v, 0, v.len());
    assert(v@.subrange(0, v@.len() as int) =~= v@);
    let mut out = String::new();
    append_range(&mut out, output, a, b);
    assert(out@ =~= trim(output@));
    out
}

/// The memory fact: the trimmed text after the first `:` on the second line.
pub open spec fn memory_fact(s: Seq<char>) -> Result<Seq<char>, ProbeError> {
    let ls = lines(s);
    if ls.len() < 2 {
        Err(ProbeError::MissingLine)
    } else if split(ls[1], ':').len() < 2 {
        Err(ProbeError::MissingField)
    } else {
        Ok(trim(split(ls[1], ':')[1]))
    }
}

/// Reads the installed memory from a locality-group memory listing.
pub fn get_memory(output: &str) -> (r: Result<String, ProbeError>)
    ensures
        result_view(r) == memory_fact(output@),
{
    let v = chars_of(output);
    let n = v.len();
    let ls = line_ranges(&v, 0, n);
    assert(v@.subrange(0, n as int) =~= v@);
    if ls.len() < 2 {
        return Err(ProbeError::MissingLine);
    }
    let (a, b) = ls[1];
    assert(lines(v@)[1] == v@.subrange(a as int, b as int));
    let f = split_ranges(&v, a, b, ':');
    if f.len() < 2 {
        return Err(ProbeError::MissingField);
    }
    let (c, d) = f[1];
    assert(pieces(v@, f@)[1] == v@.subrange(c as int, d as int));
    let (x, y) = trim_range(&v, c, d);
    let mut out = String::new();
    append_range(&mut out, output, x, y);
    assert(out@ =~= v@.subrange(x as int, y as int));
    Ok(out)
}

// ---- uptime ------------------------------------------------------------------------------

pub open spec fn is_digit(c: char) -> bool {
    '0' <= c && c <= '9'
}

pub open spec fn digit_val(c: char) -> nat {
    if is_digit(c) {
        (c as u32 - '0' as u32) as nat
    } else {
        0
    }
}

/// The value of a string of decimal digits.
pub open spec fn dec_value(t: Seq<char>) -> nat
    decreases t.len(),
{
    if t.len() == 0 {
        0
    } else {
        dec_value(t.drop_last()) * 10 + digit_val(t.last())
    }
}

pub open spec fn all_digits(u: Seq<char>) -> bool {
    forall|k: int| 0 <= k < u.len() ==> is_digit(#[trigger] u[k])
}

/// `t` read as a `u64`: an optional `+` and one or more decimal digits, within range.
pub open spec fn parse_u64(t: Seq<char>) -> Option<u64> {
    let u = if t.len() > 0 && t[0] == '+' {
        t.drop_first()
    } else {
        t
    };
    if u.len() > 0 && all_digits(u) && dec_value(u) <= u64::MAX {
        Some(dec_value(u) as u64)
    } else {
        None
    }
}

/// `"up <days> days"`
pub open spec fn uptime_text(days: nat) -> Seq<char> {
    seq!['u', 'p', ' '] + dec(days) + seq![' ', 'd', 'a', 'y', 's']
}

/// The boot time that a boot-time statistic gives, where it gives one.
pub open spec fn boot_time(s: Seq<char>) -> int {
    match parse_u64(split(s, '\t')[1]) {
        Some(boot) => boot as int,
        None => 0,
    }
}

/// The uptime fact from a boot-time statistic (`key<TAB>seconds`) at time `now`.
pub open spec fn uptime_fact(s: Seq<char>, now: u64) -> Result<Seq<char>, ProbeError> {
    let f = split(s, '\t');
    if f.len() < 2 {
        Err(ProbeError::MissingField)
    } else {
        match parse_u64(f[1]) {
            None => Err(ProbeError::BadNumber),
            Some(boot) => if now < boot {
                Err(ProbeError::BootInFuture)
            } else {
                Ok(uptime_text(((now - boot) / 86400) as nat))
            },
        }
    }
}

proof fn lemma_dec_value_prefix(t: Seq<char>, j: int)
    requires
        0 <= j <= t.len(),
    ensures
        dec_value(t.take(j)) <= dec_value(t),
    decreases t.len(),
{
    if j < t.len() {
        assert(t.drop_last().take(j) =~= t.take(j));
        lemma_dec_value_prefix(t.drop_last(), j);
    } else {
        assert(t.take(j) =~= t);
    }
}

/// Reads `v[a..b]` as a `u64`.
fn parse_u64_range(v: &Vec<char>, a: usize, b: usize) -> (r: Option<u64>)
    requires
        a <= b <= v.len(),
    ensures
        r == parse_u64(v@.subrange(a as int, b as int)),
{
    let ghost t = v@.subrange(a as int, b as int);
    let mut i = a;
    if i < b && v[i] == '+' {
        i = i + 1;
    }
    let ghost u = v@.subrange(i as int, b as int);
    assert(u =~= if t.len() > 0 && t[0] == '+' {
        t.drop_first()
    } else {
        t
    });
    if i == b {
        return None;
    }
    let start = i;
    let mut val: u64 = 0;
    while i < b
        invariant
            a <= start <= i <= b <= v.len(),
            u == v@.subrange(start as int, b as int),
            t == v@.subrange(a as int, b as int),
            u == (if t.len() > 0 && t[0] == '+' {
                t.drop_first()
            } else {
                t
            }),
            u.len() > 0,
            forall|k: int| start <= k < i ==> is_digit(#[trigger] v@[k]),
            val as nat == dec_value(u.take(i - start)),
        decreases b - i,
    {
        let c = v[i];
        assert(u.take(i - start + 1).drop_last() =~= u.take(i - start));
        assert(u.take(i - start + 1).last() == c);
        if !('0' <= c && c <= '9') {
            assert(!is_digit(u[i - start]));
            assert(!all_digits(u));
            return None;
        }
        let d = (c as u32 - '0' as u32) as u64;
        assert(digit_val(c) == d);
        assert(dec_value(u.take(i - start + 1)) == val * 10 + d);
        if val > (u64::MAX - d) / 10 {
            proof {
                assert(val * 10 + d > u64::MAX) by (nonlinear_arith)
                    requires
                        val > (u64::MAX - d) / 10,
                        d <= 9,
                ;
                lemma_dec_value_prefix(u, i - start + 1);
            }
            return None;
        }
        assert(val * 10 + d <= u64::MAX) by (nonlinear_arith)
            requires
                val <= (u64::MAX - d) / 10,
                d <= 9,
        ;
        val = val * 10 + d;
        i = i + 1;
    }
    assert(u.take(u.len() as int) =~= u);
    assert forall|k: int| 0 <= k < u.len() implies is_digit(#[trigger] u[k]) by {
        assert(is_digit(v@[start + k]));
    }
    Some(val)
}

/// Reports whole days since boot from a boot-time statistic, at time `now` (seconds since
/// the epoch).
pub fn get_uptime(output: &str, now: u64) -> (r: Result<String, ProbeError>)
    ensures
        result_view(r) == uptime_fact(output@, now),
{
    let v = chars_of(output);
    let n = v.len();
    let f = split_ranges(&v, 0, n, '\t');
    assert(v@.subrange(0, n as int) =~= v@);
    if f.len() < 2 {
        return Err(ProbeError::MissingField);
    }
    let (a, b) = f[1];
    assert(pieces(v@, f@)[1] == v@.subrange(a as int, b as int));
    match parse_u64_range(&v, a, b) {
        None => Err(ProbeError::BadNumber),
        Some(boot) => {
            if now < boot {
                Err(ProbeError::BootInFuture)
            } else {
                let mut out = String::new();
                proof {
                    reveal_strlit("up ");
                    reveal_strlit(" days");
                }
                out.append("up ");
                append_dec(&mut out, (now - boot) / 86400);
                out.append(" days");
                assert(out@ =~= uptime_text(((now - boot) / 86400) as nat));
                Ok(out)
            }
        },
    }
}

/// A day later, the reported uptime is exactly one day more; and from a whole number of
/// days, less than a day later it is unchanged.
pub proof fn lemma_uptime_day_step(s: Seq<char>, now: u64, extra: u64)
    requires
        uptime_fact(s, now) is Ok,
        now + 86400 <= u64::MAX,
        now + extra <= u64::MAX,
    ensures
        uptime_fact(s, now) == Ok::<Seq<char>, ProbeError>(
            uptime_text(((now - boot_time(s)) / 86400) as nat),
        ),
        uptime_fact(s, (now + 86400) as u64) == Ok::<Seq<char>, ProbeError>(
            uptime_text(((now - boot_time(s)) / 86400 + 1) as nat),
        ),
        extra < 86400 && (now - boot_time(s)) % 86400 == 0 ==> uptime_fact(s, (now + extra) as u64)
            == uptime_fact(s, now),
{
    let d = now - boot_time(s);
    assert(d >= 0);
    assert((d + 86400) / 86400 == d / 86400 + 1) by (nonlinear_arith)
        requires
            d >= 0,
    ;
    if extra < 86400 && d % 86400 == 0 {
        assert((d + extra) / 86400 == d / 86400) by (nonlinear_arith)
            requires
                d >= 0,
                extra < 86400,
                d % 86400 == 0,
        ;
    }
}

} // verus!
