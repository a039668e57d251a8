//! Small string rules: whitespace trimming, comma lists, label truncation, and
//! the weights file name that goes with a network description file.
use vstd::prelude::*;

verus! {

/// Unicode `White_Space`, the set that `char::is_whitespace` tests.
pub open spec fn is_ws(c: char) -> bool {
    ||| '\u{9}' <= c <= '\u{d}'
    ||| c == ' '
    ||| c == '\u{85}'
    ||| c == '\u{a0}'
    ||| c == '\u{1680}'
    ||| '\u{2000}' <= c <= '\u{200a}'
    ||| c == '\u{2028}'
    ||| c == '\u{2029}'
    ||| c == '\u{202f}'
    ||| c == '\u{205f}'
    ||| c == '\u{3000}'
}

pub fn is_whitespace(c: char) -> (r: bool)
    ensures
        r == is_ws(c),
{
    ('\u{9}' <= c && c <= '\u{d}') || c == ' ' || c == '\u{85}' || c == '\u{a0}' || c == '\u{1680}'
        || ('\u{2000}' <= c && c <= '\u{200a}') || c == '\u{2028}' || c == '\u{2029}' || c
        == '\u{202f}' || c == '\u{205f}' || c == '\u{3000}'
}

/// Number of whitespace characters at the start.
pub open spec fn lead_ws(s: Seq<char>) -> nat
    decreases s.len(),
{
    if s.len() > 0 && is_ws(s[0]) {
        1 + lead_ws(s.skip(1))
    } else {
        0
    }
}

/// Number of whitespace characters at the end.
pub open spec fn trail_ws(s: Seq<char>) -> nat
    decreases s.len(),
{
    if s.len() > 0 && is_ws(s.last()) {
        1 + trail_ws(s.drop_last())
    } else {
        0
    }
}

/// `s` without leading and trailing whitespace.
pub open spec fn spec_trim(s: Seq<char>) -> Seq<char> {
    let a = lead_ws(s);
    if a >= s.len() {
        Seq::empty()
    } else {
        s.subrange(a as int, s.len() - trail_ws(s))
    }
}

proof fn lemma_lead_ws(s: Seq<char>, a: int)
    requires
        0 <= a <= s.len(),
        forall|k: int| 0 <= k < a ==> is_ws(#[trigger] s[k]),
        a == s.len() || !is_ws(s[a]),
    ensures
        lead_ws(s) == a,
    decreases a,
{
    if a > 0 {
        assert forall|k: int| 0 <= k < a - 1 implies is_ws(#[trigger] s.skip(1)[k]) by {
            assert(s.skip(1)[k] == s[k + 1]);
        }
        if a < s.len() {
            assert(s.skip(1)[a - 1] == s[a]);
        }
        lemma_lead_ws(s.skip(1), a - 1);
    }
}

proof fn lemma_trail_ws(s: Seq<char>, b: int)
    requires
        0 <= b <= s.len(),
        forall|k: int| b <= k < s.len() ==> is_ws(#[trigger] s[k]),
        b == 0 || !is_ws(s[b - 1]),
    ensures
        trail_ws(s) == s.len() - b,
    decreases s.len() - b,
{
    if b < s.len() {
        assert forall|k: int| b <= k < s.len() - 1 implies is_ws(#[trigger] s.drop_last()[k]) by {
            assert(s.drop_last()[k] == s[k]);
        }
        if b > 0 {
            assert(s.drop_last()[b - 1] == s[b - 1]);
        }
        lemma_trail_ws(s.drop_last(), b);
    }
}

/// `s` without leading and trailing whitespace.
pub fn trim(s: &str) -> (r: String)
    ensures
        r@ == spec_trim(s@),
{
    let n = s.unicode_len();
    let mut a: usize = 0;
    while a < n && is_whitespace(s.get_char(a))
        invariant
            n == s@.len(),
            a <= n,
            forall|k: int| 0 <= k < a ==> is_ws(#[trigger] s@[k]),
        decreases n - a,
    {
        a = a + 1;
    }
    proof {
        lemma_lead_ws(s@, a as int);
    }
    if a == n {
        let r = String::new();
        assert(r@ =~= spec_trim(s@));
        return r;
    }
    let mut b: usize = n;
    while b > a && is_whitespace(s.get_char(b - 1))
        invariant
            n == s@.len(),
            a < n,
            !is_ws(s@[a as int]),
            a <= b <= n,
            forall|k: int| b <= k < n ==> is_ws(#[trigger] s@[k]),
        decreases b,
    {
        b = b - 1;
    }
    proof {
        lemma_trail_ws(s@, b as int);
    }
    String::from_str(s.substring_char(a, b))
}

/// The comma-separated pieces of `s` (as `str::split(',')` gives them).
pub open spec fn comma_pieces(s: Seq<char>) -> Seq<Seq<char>>
    decreases s.len(),
{
    if s.len() == 0 {
        seq![Seq::empty()]
    } else {
        let p = comma_pieces(s.drop_last());
        if s.last() == ',' {
            p.push(Seq::empty())
        } else {
            p.update(p.len() - 1, p.last().push(s.last()))
        }
    }
}

/// The first `n` pieces trimmed, the empty ones left out.
pub open spec fn trimmed_items(pieces: Seq<Seq<char>>, n: int) -> Seq<Seq<char>>
    decreases n,
{
    if n <= 0 {
        Seq::empty()
    } else {
        let r = trimmed_items(pieces, n - 1);
        let t = spec_trim(pieces[n - 1]);
        if t.len() > 0 {
            r.push(t)
        } else {
            r
        }
    }
}

/// The items of a comma-separated list: each piece trimmed, empty ones dropped.
pub open spec fn spec_comma_list(s: Seq<char>) -> Seq<Seq<char>> {
    let p = comma_pieces(s);
    trimmed_items(p, p.len() as int)
}

pub open spec fn string_views(v: Seq<String>) -> Seq<Seq<char>> {
    Seq::new(v.len(), |i: int| v[i]@)
}

/// The items of a comma-separated list, each trimmed, empty ones dropped.
pub fn comma_list(s: &str) -> (items: Vec<String>)
    ensures
        string_views(items@) == spec_comma_list(s@),
{
    let n = s.unicode_len();
    let mut items: Vec<String> = Vec::new();
    let mut start: usize = 0;
    let mut i: usize = 0;
    let ghost mut done: int = 0;
    while i < n
        invariant
            n == s@.len(),
            start <= i <= n,
            0 <= done,
            comma_pieces(s@.take(i as int)).len() == done + 1,
            comma_pieces(s@.take(i as int))[done] == s@.subrange(start as int, i as int),
            string_views(items@) == trimmed_items(comma_pieces(s@.take(i as int)), done),
        decreases n - i,
    {
        let ghost p = comma_pieces(s@.take(i as int));
        assert(s@.take(i + 1).drop_last() =~= s@.take(i as int));
        assert(s@.take(i + 1).last() == s@[i as int]);
        let c = s.get_char(i);
        if c == ',' {
            let piece = trim(s.substring_char(start, i));
            let ghost before = items@;
            if piece.unicode_len() > 0 {
                items.push(piece);
                assert(string_views(items@) =~= string_views(before).push(piece@));
            }
            let ghost q = comma_pieces(s@.take(i + 1));
            assert(q == p.push(Seq::empty()));
            assert forall|k: int| 0 <= k < done + 1 implies #[trigger] q[k] == p[k] by {}
            proof {
                lemma_trimmed_items_prefix(p, q, done + 1);
                done = done + 1;
            }
            start = i + 1;
        } else {
            let ghost q = comma_pieces(s@.take(i + 1));
            assert(q[done] =~= s@.subrange(start as int, i + 1));
            assert forall|k: int| 0 <= k < done implies #[trigger] q[k] == p[k] by {}
            proof {
                lemma_trimmed_items_prefix(p, q, done);
            }
        }
        i = i + 1;
    }
    assert(s@.take(n as int) =~= s@);
    let piece = trim(s.substring_char(start, n));
    let ghost p = comma_pieces(s@);
    if piece.unicode_len() > 0 {
        let ghost before = items@;
        items.push(piece);
        assert(string_views(items@) =~= string_views(before).push(piece@));
    }
    items
}

proof fn lemma_trimmed_items_prefix(p: Seq<Seq<char>>, q: Seq<Seq<char>>, n: int)
    requires
        0 <= n <= p.len(),
        n <= q.len(),
        forall|k: int| 0 <= k < n ==> #[trigger] q[k] == p[k],
    ensures
        trimmed_items(p, n) == trimmed_items(q, n),
    decreases n,
{
    if n > 0 {
        lemma_trimmed_items_prefix(p, q, n - 1);
    }
}

/// The label drawn beside a box: the text trimmed, and cut to `max_chars`
/// characters followed by `…` when longer.
pub open spec fn spec_truncate_label(text: Seq<char>, max_chars: int) -> Seq<char> {
    let t = spec_trim(text);
    if t.len() <= max_chars {
        t
    } else {
        t.take(max_chars) + seq!['…']
    }
}

pub fn truncate_label(text: &str, max_chars: usize) -> (r: String)
    ensures
        r@ == spec_truncate_label(text@, max_chars as int),
{
    let trimmed = trim(text);
    let n = trimmed.as_str().unicode_len();
    if n <= max_chars {
        return trimmed;
    }
    let mut r = String::from_str(trimmed.as_str().substring_char(0, max_chars));
    let ellipsis = "…";
    proof {
        reveal_strlit("…");
    }
    r.append(ellipsis);
    assert(r@ =~= spec_truncate_label(text@, max_chars as int));
    r
}


/// `s` with each occurrence of the non-empty `pat` replaced by `rep`, scanning
/// left to right without overlaps (as `str::replace` does).
pub open spec fn replace_all(s: Seq<char>, pat: Seq<char>, rep: Seq<char>) -> Seq<char>
    decreases s.len(),
{
    if s.len() == 0 {
        Seq::empty()
    } else if pat.len() > 0 && s.len() >= pat.len() && s.take(pat.len() as int) == pat {
        rep + replace_all(s.skip(pat.len() as int), pat, rep)
    } else {
        seq![s[0]] + replace_all(s.skip(1), pat, rep)
    }
}

/// `s` with every occurrence of `pat` (not empty) replaced by `rep`.
pub fn replace_all_str(s: &str, pat: &str, rep: &str) -> (r: String)
    requires
        pat@.len() > 0,
    ensures
        r@ == replace_all(s@, pat@, rep@),
{
    let n = s.unicode_len();
    let m = pat.unicode_len();
    let want = String::from_str(pat);
    let mut out = String::new();
    let mut i: usize = 0;
    assert(s@.skip(0) =~= s@);
    assert(out@ + replace_all(s@, pat@, rep@) =~= replace_all(s@, pat@, rep@));
    while i < n
        invariant
            n == s@.len(),
            m == pat@.len(),
            m > 0,
            want@ == pat@,
            i <= n,
            out@ + replace_all(s@.skip(i as int), pat@, rep@) == replace_all(s@, pat@, rep@),
        decreases n - i,
    {
        let ghost rest = s@.skip(i as int);
        let ghost before = out@;
        let mut matched = false;
        if n - i >= m {
            let window = String::from_str(s.substring_char(i, i + m));
            if window == want {
                matched = true;
            }
            assert(window@ == s@.subrange(i as int, i + m));
            assert(rest.take(m as int) =~= s@.subrange(i as int, i + m));
        }
        if matched {
            out.append(rep);
            assert(rest.skip(m as int) =~= s@.skip(i + m));
            assert(before + (rep@ + replace_all(rest.skip(m as int), pat@, rep@)) =~= out@
                + replace_all(s@.skip(i + m), pat@, rep@));
            i = i + m;
        } else {
            out.append(s.substring_char(i, i + 1));
            assert(rest.skip(1) =~= s@.skip(i + 1));
            assert(s@.subrange(i as int, i + 1) =~= seq![rest[0]]);
            assert(before + (seq![rest[0]] + replace_all(rest.skip(1), pat@, rep@)) =~= out@
                + replace_all(s@.skip(i + 1), pat@, rep@));
            i = i + 1;
        }
    }
    assert(s@.skip(n as int) =~= Seq::<char>::empty());
    assert(out@ + Seq::<char>::empty() =~= out@);
    out
}

} // verus!
