use vstd::prelude::*;

verus! {

/// Pieces of `s` between occurrences of `d`, where `cur` is the piece read so far.
pub open spec fn split_acc(s: Seq<char>, d: char, cur: Seq<char>) -> Seq<Seq<char>>
    decreases s.len(),
{
    if s.len() == 0 {
        seq![cur]
    } else if s[0] == d {
        seq![cur] + split_acc(s.drop_first(), d, seq![])
    } else {
        split_acc(s.drop_first(), d, cur.push(s[0]))
    }
}

/// The pieces of `s` between occurrences of `d` (never empty: `""` gives one empty piece).
pub open spec fn split(s: Seq<char>, d: char) -> Seq<Seq<char>> {
    split_acc(s, d, seq![])
}

/// A line without its trailing carriage return, if it has one.
pub open spec fn strip_cr(l: Seq<char>) -> Seq<char> {
    if l.len() > 0 && l.last() == '\r' {
        l.drop_last()
    } else {
        l
    }
}

/// The lines of `s`: pieces between `'\n'`, with a final empty piece left out, and a
/// `'\r'` just before a `'\n'` taken off its line.
pub open spec fn lines(s: Seq<char>) -> Seq<Seq<char>> {
    let p = split(s, '\n');
    let q = if p.len() > 0 && p.last().len() == 0 {
        p.drop_last()
    } else {
        p
    };
    Seq::new(
        q.len(),
        |k: int|
            if k < p.len() - 1 {
                strip_cr(q[k])
            } else {
                q[k]
            },
    )
}

/// Unicode's White_Space property.
pub open spec fn is_ws(c: char) -> bool {
    ('\t' <= c && c <= '\r') || c == ' ' || c == '\u{85}' || c == '\u{a0}' || c == '\u{1680}'
        || ('\u{2000}' <= c && c <= '\u{200a}') || c == '\u{2028}' || c == '\u{2029}' || c
        == '\u{202f}' || c == '\u{205f}' || c == '\u{3000}'
}

/// Whitespace-separated words of `s`, where `cur` is the word read so far.
pub open spec fn words_acc(s: Seq<char>, cur: Seq<char>) -> Seq<Seq<char>>
    decreases s.len(),
{
    let done: Seq<Seq<char>> = if cur.len() > 0 {
        seq![cur]
    } else {
        seq![]
    };
    if s.len() == 0 {
        done
    } else if is_ws(s[0]) {
        done + words_acc(s.drop_first(), seq![])
    } else {
        words_acc(s.drop_first(), cur.push(s[0]))
    }
}

/// The non-empty whitespace-separated words of `s`.
pub open spec fn words(s: Seq<char>) -> Seq<Seq<char>> {
    words_acc(s, seq![])
}

/// `s` without its leading whitespace.
pub open spec fn trim_start(s: Seq<char>) -> Seq<char>
    decreases s.len(),
{
    if s.len() > 0 && is_ws(s[0]) {
        trim_start(s.drop_first())
    } else {
        s
    }
}

/// `s` without its trailing whitespace.
pub open spec fn trim_end(s: Seq<char>) -> Seq<char>
    decreases s.len(),
{
    if s.len() > 0 && is_ws(s.last()) {
        trim_end(s.drop_last())
    } else {
        s
    }
}

/// `s` without leading or trailing whitespace.
pub open spec fn trim(s: Seq<char>) -> Seq<char> {
    trim_end(trim_start(s))
}

/// `parts` joined with `sep` between neighbours.
pub open spec fn join(parts: Seq<Seq<char>>, sep: Seq<char>) -> Seq<char>
    decreases parts.len(),
{
    if parts.len() == 0 {
        seq![]
    } else if parts.len() == 1 {
        parts[0]
    } else {
        join(parts.drop_last(), sep) + sep + parts.last()
    }
}

pub open spec fn digit_char(d: nat) -> char {
    if d == 0 { '0' }
    else if d == 1 { '1' }
    else if d == 2 { '2' }
    else if d == 3 { '3' }
    else if d == 4 { '4' }
    else if d == 5 { '5' }
    else if d == 6 { '6' }
    else if d == 7 { '7' }
    else if d == 8 { '8' }
    else { '9' }
}

/// Decimal digits of `n`, without leading zeros.
pub open spec fn dec(n: nat) -> Seq<char>
    decreases n,
{
    if n < 10 {
        seq![digit_char(n)]
    } else {
        dec(n / 10).push(digit_char(n % 10))
    }
}

/// The pieces of `v` that the index ranges `r` pick out.
pub open spec fn pieces(v: Seq<char>, r: Seq<(usize, usize)>) -> Seq<Seq<char>> {
    Seq::new(r.len(), |k: int| v.subrange(r[k].0 as int, r[k].1 as int))
}

/// Every range of `r` lies within `lo..hi`.
pub open spec fn ranges_within(r: Seq<(usize, usize)>, lo: int, hi: int) -> bool {
    forall|k: int| 0 <= k < r.len() ==> lo <= #[trigger] r[k].0 <= r[k].1 <= hi
}

/// The views of a sequence of strings.
pub open spec fn string_views(v: Seq<String>) -> Seq<Seq<char>> {
    Seq::new(v.len(), |k: int| v[k]@)
}

/// The characters of `s`, one by one.
pub fn chars_of(s: &str) -> (r: Vec<char>)
    ensures
        r@ == s@,
{
    let n = s.unicode_len();
    let mut r: Vec<char> = Vec::new();
    let mut i: usize = 0;
    while i < n
        invariant
            n == s@.len(),
            i <= n,
            r@ == s@.subrange(0, i as int),
        decreases n - i,
    {
        let c = s.get_char(i);
        r.push(c);
        i = i + 1;
        assert(r@ =~= s@.subrange(0, i as int));
    }
    assert(r@ =~= s@);
    r
}

/// Index ranges of the pieces of `v[lo..hi]` between occurrences of `d`.
pub fn split_ranges(v: &Vec<char>, lo: usize, hi: usize, d: char) -> (r: Vec<(usize, usize)>)
    requires
        lo <= hi <= v.len(),
    ensures
        pieces(v@, r@) == split(v@.subrange(lo as int, hi as int), d),
        ranges_within(r@, lo as int, hi as int),
        r@.len() >= 1,
{
    let mut r: Vec<(usize, usize)> = Vec::new();
    let mut start = lo;
    let mut i = lo;
    assert(v@.subrange(lo as int, lo as int) =~= Seq::<char>::empty());
    assert(pieces(v@, r@) =~= Seq::<Seq<char>>::empty());
    assert(pieces(v@, r@) + split_acc(v@.subrange(lo as int, hi as int), d, seq![]) =~= split(
        v@.subrange(lo as int, hi as int),
        d,
    ));
    while i < hi
        invariant
            lo <= start <= i <= hi <= v.len(),
            ranges_within(r@, lo as int, start as int),
            pieces(v@, r@) + split_acc(
                v@.subrange(i as int, hi as int),
                d,
                v@.subrange(start as int, i as int),
            ) == split(v@.subrange(lo as int, hi as int), d),
        decreases hi - i,
    {
        let ghost rest = v@.subrange(i as int, hi as int);
        let ghost cur = v@.subrange(start as int, i as int);
        let ghost old_p = pieces(v@, r@);
        assert(rest.drop_first() =~= v@.subrange(i + 1, hi as int));
        if v[i] == d {
            r.push((start, i));
            assert(pieces(v@, r@) =~= old_p.push(cur));
            assert(v@.subrange(i + 1, i + 1) =~= Seq::<char>::empty());
            assert(old_p + (seq![cur] + split_acc(rest.drop_first(), d, seq![])) =~= old_p.push(
                cur,
            ) + split_acc(rest.drop_first(), d, seq![]));
            start = i + 1;
        } else {
            assert(cur.push(v@[i as int]) =~= v@.subrange(start as int, i + 1));
        }
        i = i + 1;
    }
    let ghost old_p = pieces(v@, r@);
    let ghost cur = v@.subrange(start as int, hi as int);
    assert(v@.subrange(hi as int, hi as int) =~= Seq::<char>::empty());
    r.push((start, hi));
    assert(pieces(v@, r@) =~= old_p + seq![cur]);
    r
}

/// Index ranges of the lines of `v[lo..hi]`.
pub fn line_ranges(v: &Vec<char>, lo: usize, hi: usize) -> (r: Vec<(usize, usize)>)
    requires
        lo <= hi <= v.len(),
    ensures
        pieces(v@, r@) == lines(v@.subrange(lo as int, hi as int)),
        ranges_within(r@, lo as int, hi as int),
{
    let ghost s = v@.subrange(lo as int, hi as int);
    let p = split_ranges(v, lo, hi, '\n');
    let ghost sp = split(s, '\n');
    let np = p.len();
    let last = p[np - 1];
    let n = if last.0 == last.1 {
        np - 1
    } else {
        np
    };
    let ghost q = if sp.len() > 0 && sp.last().len() == 0 {
        sp.drop_last()
    } else {
        sp
    };
    assert(sp.last() == pieces(v@, p@)[np - 1]);
    assert(q.len() == n);
    let mut r: Vec<(usize, usize)> = Vec::new();
    let mut k: usize = 0;
    while k < n
        invariant
            lo <= hi <= v.len(),
            n <= p@.len(),
            q.len() == n,
            forall|j: int| 0 <= j < n ==> #[trigger] q[j] == pieces(v@, p@)[j],
            ranges_within(p@, lo as int, hi as int),
            ranges_within(r@, lo as int, hi as int),
            k <= n,
            r@.len() == k,
            np == p@.len(),
            forall|j: int|
                0 <= j < k ==> #[trigger] pieces(v@, r@)[j] == if j < np - 1 {
                    strip_cr(q[j])
                } else {
                    q[j]
                },
        decreases n - k,
    {
        let (a, b) = p[k];
        assert(q[k as int] == pieces(v@, p@)[k as int]);
        let e = if k + 1 < np && a < b && v[b - 1] == '\r' {
            assert(v@.subrange(a as int, b as int).drop_last() =~= v@.subrange(
                a as int,
                b - 1,
            ));
            b - 1
        } else {
            b
        };
        let ghost old_r = r@;
        r.push((a, e));
        assert forall|j: int| 0 <= j < k implies #[trigger] pieces(v@, r@)[j] == pieces(
            v@,
            old_r,
        )[j] by {
            assert(r@[j] == old_r[j]);
        }
        assert(pieces(v@, r@)[k as int] == if k < np - 1 {
            strip_cr(q[k as int])
        } else {
            q[k as int]
        });
        k = k + 1;
    }
    assert(pieces(v@, r@) =~= lines(s));
    r
}

/// `true` when `v[a1..b1]` and `v[a2..b2]` hold the same characters.
pub fn range_eq(v: &Vec<char>, a1: usize, b1: usize, a2: usize, b2: usize) -> (r: bool)
    requires
        a1 <= b1 <= v.len(),
        a2 <= b2 <= v.len(),
    ensures
        r == (v@.subrange(a1 as int, b1 as int) == v@.subrange(a2 as int, b2 as int)),
{
    if b1 - a1 != b2 - a2 {
        assert(v@.subrange(a1 as int, b1 as int).len() != v@.subrange(a2 as int, b2 as int).len());
        return false;
    }
    let n = b1 - a1;
    let mut i: usize = 0;
    while i < n
        invariant
            n == b1 - a1 == b2 - a2,
            a1 <= b1 <= v.len(),
            a2 <= b2 <= v.len(),
            i <= n,
            forall|j: int| 0 <= j < i ==> #[trigger] v@[a1 + j] == v@[a2 + j],
        decreases n - i,
    {
        if v[a1 + i] != v[a2 + i] {
            assert(v@.subrange(a1 as int, b1 as int)[i as int] != v@.subrange(
                a2 as int,
                b2 as int,
            )[i as int]);
            return false;
        }
        i = i + 1;
    }
    assert forall|j: int| 0 <= j < n implies v@.subrange(a1 as int, b1 as int)[j]
        == v@.subrange(a2 as int, b2 as int)[j] by {
        assert(v@[a1 + j] == v@[a2 + j]);
    }
    assert(v@.subrange(a1 as int, b1 as int) =~= v@.subrange(a2 as int, b2 as int));
    true
}

/// `true` when `v[a..b]` holds the same characters as `t`.
pub fn range_eq_str(v: &Vec<char>, a: usize, b: usize, t: &str) -> (r: bool)
    requires
        a <= b <= v.len(),
    ensures
        r == (v@.subrange(a as int, b as int) == t@),
{
    let n = t.unicode_len();
    if b - a != n {
        assert(v@.subrange(a as int, b as int).len() != t@.len());
        return false;
    }
    let mut i: usize = 0;
    while i < n
        invariant
            n == b - a == t@.len(),
            a <= b <= v.len(),
            i <= n,
            forall|j: int| 0 <= j < i ==> v@[a + j] == #[trigger] t@[j],
        decreases n - i,
    {
        if v[a + i] != t.get_char(i) {
            assert(v@.subrange(a as int, b as int)[i as int] != t@[i as int]);
            return false;
        }
        i = i + 1;
    }
    assert forall|j: int| 0 <= j < n implies v@.subrange(a as int, b as int)[j] == t@[j] by {
        assert(v@[a + j] == t@[j]);
    }
    assert(v@.subrange(a as int, b as int) =~= t@);
    true
}

/// Appends `s[a..b]` to `out`.
pub fn append_range(out: &mut String, s: &str, a: usize, b: usize)
    requires
        a <= b <= s@.len(),
    ensures
        final(out)@ == old(out)@ + s@.subrange(a as int, b as int),
{
    out.append(s.substring_char(a, b));
}

fn digit_str(d: u64) -> (r: &'static str)
    requires
        d < 10,
    ensures
        r@ == seq![digit_char(d as nat)],
{
    proof {
        reveal_strlit("0");
        reveal_strlit("1");
        reveal_strlit("2");
        reveal_strlit("3");
        reveal_strlit("4");
        reveal_strlit("5");
        reveal_strlit("6");
        reveal_strlit("7");
        reveal_strlit("8");
        reveal_strlit("9");
    }
    let r = if d == 0 { "0" }
    else if d == 1 { "1" }
    else if d == 2 { "2" }
    else if d == 3 { "3" }
    else if d == 4 { "4" }
    else if d == 5 { "5" }
    else if d == 6 { "6" }
    else if d == 7 { "7" }
    else if d == 8 { "8" }
    else { "9" };
    assert(r@ =~= seq![digit_char(d as nat)]);
    r
}

/// Appends the decimal digits of `n` to `out`.
pub fn append_dec(out: &mut String, n: u64)
    ensures
        final(out)@ == old(out)@ + dec(n as nat),
    decreases n,
{
    if n >= 10 {
        append_dec(out, n / 10);
        out.append(digit_str(n % 10));
        assert(dec(n as nat) == dec((n / 10) as nat).push(digit_char((n % 10) as nat)));
    } else {
        out.append(digit_str(n));
    }
    assert(out@ =~= old(out)@ + dec(n as nat));
}

/// `true` for the characters of Unicode's White_Space property.
pub fn is_whitespace(c: char) -> (r: bool)
    ensures
        r == is_ws(c),
{
    ('\t' <= c && c <= '\r') || c == ' ' || c == '\u{85}' || c == '\u{a0}' || c == '\u{1680}'
        || ('\u{2000}' <= c && c <= '\u{200a}') || c == '\u{2028}' || c == '\u{2029}' || c
        == '\u{202f}' || c == '\u{205f}' || c == '\u{3000}'
}

/// Index ranges of the whitespace-separated words of `v[lo..hi]`.
pub fn word_ranges(v: &Vec<char>, lo: usize, hi: usize) -> (r: Vec<(usize, usize)>)
    requires
        lo <= hi <= v.len(),
    ensures
        pieces(v@, r@) == words(v@.subrange(lo as int, hi as int)),
        ranges_within(r@, lo as int, hi as int),
{
    let mut r: Vec<(usize, usize)> = Vec::new();
    let mut start = lo;
    let mut i = lo;
    assert(v@.subrange(lo as int, lo as int) =~= Seq::<char>::empty());
    assert(pieces(v@, r@) =~= Seq::<Seq<char>>::empty());
    assert(pieces(v@, r@) + words_acc(v@.subrange(lo as int, hi as int), seq![]) =~= words(
        v@.subrange(lo as int, hi as int),
    ));
    while i < hi
        invariant
            lo <= start <= i <= hi <= v.len(),
            ranges_within(r@, lo as int, start as int),
            pieces(v@, r@) + words_acc(
                v@.subrange(i as int, hi as int),
                v@.subrange(start as int, i as int),
            ) == words(v@.subrange(lo as int, hi as int)),
        decreases hi - i,
    {
        let ghost rest = v@.subrange(i as int, hi as int);
        let ghost cur = v@.subrange(start as int, i as int);
        let ghost old_p = pieces(v@, r@);
        assert(rest.drop_first() =~= v@.subrange(i + 1, hi as int));
        if is_whitespace(v[i]) {
            assert(v@.subrange(i + 1, i + 1) =~= Seq::<char>::empty());
            if start < i {
                r.push((start, i));
                assert(pieces(v@, r@) =~= old_p.push(cur));
                assert(old_p + (seq![cur] + words_acc(rest.drop_first(), seq![])) =~= old_p.push(
                    cur,
                ) + words_acc(rest.drop_first(), seq![]));
            } else {
                assert(old_p + (Seq::<Seq<char>>::empty() + words_acc(rest.drop_first(), seq![]))
                    =~= old_p + words_acc(rest.drop_first(), seq![]));
            }
            start = i + 1;
        } else {
            assert(cur.push(v@[i as int]) =~= v@.subrange(start as int, i + 1));
        }
        i = i + 1;
    }
    let ghost old_p = pieces(v@, r@);
    let ghost cur = v@.subrange(start as int, hi as int);
    assert(v@.subrange(hi as int, hi as int) =~= Seq::<char>::empty());
    if start < hi {
        r.push((start, hi));
        assert(pieces(v@, r@) =~= old_p + seq![cur]);
    } else {
        assert(old_p + Seq::<Seq<char>>::empty() =~= old_p);
    }
    r
}

/// The index range of `v[a..b]` without leading or trailing whitespace.
pub fn trim_range(v: &Vec<char>, a: usize, b: usize) -> (r: (usize, usize))
    requires
        a <= b <= v.len(),
    ensures
        a <= r.0 <= r.1 <= b,
        v@.subrange(r.0 as int, r.1 as int) == trim(v@.subrange(a as int, b as int)),
{
    let mut i = a;
    while i < b && is_whitespace(v[i])
        invariant
            a <= i <= b <= v.len(),
            trim_start(v@.subrange(i as int, b as int)) == trim_start(
                v@.subrange(a as int, b as int),
            ),
        decreases b - i,
    {
        assert(v@.subrange(i as int, b as int).drop_first() =~= v@.subrange(i + 1, b as int));
        i = i + 1;
    }
    let mut j = b;
    while j > i && is_whitespace(v[j - 1])
        invariant
            a <= i <= j <= b <= v.len(),
            trim_end(v@.subrange(i as int, j as int)) == trim_end(v@.subrange(i as int, b as int)),
        decreases j - i,
    {
        assert(v@.subrange(i as int, j as int).drop_last() =~= v@.subrange(i as int, j - 1));
        j = j - 1;
    }
    (i, j)
}

} // verus!
