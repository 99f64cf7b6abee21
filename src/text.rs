use vstd::prelude::*;
use vstd::std_specs::iter::IteratorSpec;

verus! {

/// Index of the first `c` in `s` at or after `from`; `s.len()` where there is none.
pub open spec fn find_from(s: Seq<char>, c: char, from: int) -> int
    decreases s.len() - from,
{
    if from >= s.len() {
        s.len() as int
    } else if s[from] == c {
        from
    } else {
        find_from(s, c, from + 1)
    }
}

/// The pieces of `s` from `start` on, split at each `c`, in at most `n`
/// pieces: the last piece keeps the rest of the text, separators included.
pub open spec fn split_from(s: Seq<char>, c: char, start: int, n: nat) -> Seq<Seq<char>>
    decreases n,
{
    let i = find_from(s, c, start);
    if n <= 1 || i >= s.len() {
        seq![s.subrange(start, s.len() as int)]
    } else {
        seq![s.subrange(start, i)] + split_from(s, c, i + 1, (n - 1) as nat)
    }
}

/// `s` split at `c` into at most `n` pieces (`n >= 1`).
pub open spec fn split_n(s: Seq<char>, c: char, n: nat) -> Seq<Seq<char>> {
    split_from(s, c, 0, n)
}

/// `s` split at every `c`: a text of length `l` has at most `l + 1` pieces.
pub open spec fn split_all(s: Seq<char>, c: char) -> Seq<Seq<char>> {
    split_n(s, c, s.len() + 1)
}

/// Unicode White_Space, the characters that `str::trim_start` removes.
pub open spec fn is_white(c: char) -> bool {
    ('\u{9}' <= c && c <= '\u{d}') || c == ' ' || c == '\u{85}' || c == '\u{a0}' || c
        == '\u{1680}' || ('\u{2000}' <= c && c <= '\u{200a}') || c == '\u{2028}' || c
        == '\u{2029}' || c == '\u{202f}' || c == '\u{205f}' || c == '\u{3000}'
}

/// Number of leading white-space characters of `s` from `from` on.
pub open spec fn white_run(s: Seq<char>, from: int) -> int
    decreases s.len() - from,
{
    if from >= s.len() || !is_white(s[from]) {
        from
    } else {
        white_run(s, from + 1)
    }
}

/// `s` without its leading white space.
pub open spec fn trim_start(s: Seq<char>) -> Seq<char> {
    s.subrange(white_run(s, 0), s.len() as int)
}

/// `s` without one leading and one trailing `"`, each where present.
pub open spec fn strip_quotes(s: Seq<char>) -> Seq<char> {
    let a = if s.len() > 0 && s[0] == '"' {
        s.subrange(1, s.len() as int)
    } else {
        s
    };
    if a.len() > 0 && a.last() == '"' {
        a.drop_last()
    } else {
        a
    }
}

/// Whether `s` begins with `p`.
pub open spec fn starts_with(s: Seq<char>, p: Seq<char>) -> bool {
    p.len() <= s.len() && s.subrange(0, p.len() as int) == p
}

/// Whether `s` ends with `p`.
pub open spec fn ends_with(s: Seq<char>, p: Seq<char>) -> bool {
    p.len() <= s.len() && s.subrange(s.len() - p.len(), s.len() as int) == p
}

/// Whether every character of `s` is an ASCII decimal digit.
pub open spec fn all_digits(s: Seq<char>) -> bool {
    forall|i: int| 0 <= i < s.len() ==> '0' <= #[trigger] s[i] && s[i] <= '9'
}

/// The number that the decimal digits `s` write.
pub open spec fn digits_value(s: Seq<char>) -> int
    decreases s.len(),
{
    if s.len() == 0 {
        0
    } else {
        digits_value(s.drop_last()) * 10 + (s.last() as int - '0' as int)
    }
}

/// An unsigned 64-bit decimal number as `u64::from_str` reads it: an
/// optional `+`, then one or more digits, with a value that fits.
pub open spec fn parse_u64(s: Seq<char>) -> Option<u64> {
    let d = if s.len() > 0 && s[0] == '+' {
        s.subrange(1, s.len() as int)
    } else {
        s
    };
    if d.len() > 0 && all_digits(d) && digits_value(d) <= u64::MAX {
        Some(digits_value(d) as u64)
    } else {
        None
    }
}

proof fn lemma_find_from_bounds(s: Seq<char>, c: char, from: int)
    requires
        0 <= from <= s.len(),
    ensures
        from <= find_from(s, c, from) <= s.len(),
        find_from(s, c, from) < s.len() ==> s[find_from(s, c, from)] == c,
        forall|k: int| from <= k < find_from(s, c, from) ==> s[k] != c,
    decreases s.len() - from,
{
    if from < s.len() && s[from] != c {
        lemma_find_from_bounds(s, c, from + 1);
    }
}

/// The characters of `s`, in order.
pub fn to_chars(s: &str) -> (r: Vec<char>)
    ensures
        r@ == s@,
{
    broadcast use vstd::string::next_postcondition;

    let mut r: Vec<char> = Vec::new();
    let mut it = s.chars();
    proof {
        vstd::string::axiom_spec_iter(s);
    }
    loop
        invariant
            it.decrease() is Some,
            s@ == r@ + it.remaining(),
        ensures
            r@ == s@,
        decreases it.decrease()->0,
    {
        let ghost before = it.remaining();
        match it.next() {
            Some(c) => {
                r.push(c);
                assert(s@ =~= r@ + it.remaining());
            },
            None => {
                assert(before.len() == 0);
                assert(s@ =~= r@);
                break;
            },
        }
    }
    r
}

/// Index of the first `c` in `s` at or after `from`, or `s.len()`.
pub fn find_char(s: &Vec<char>, c: char, from: usize) -> (r: usize)
    requires
        from <= s@.len(),
    ensures
        r == find_from(s@, c, from as int),
        from <= r <= s@.len(),
{
    let mut i = from;
    proof {
        lemma_find_from_bounds(s@, c, from as int);
    }
    while i < s.len() && s[i] != c
        invariant
            from <= i <= s@.len(),
            find_from(s@, c, i as int) == find_from(s@, c, from as int),
        decreases s@.len() - i,
    {
        i = i + 1;
    }
    i
}

/// Index of the first `c` in `s[from..end]`, or `end`.
pub fn find_char_in(s: &Vec<char>, c: char, from: usize, end: usize) -> (r: usize)
    requires
        from <= end <= s@.len(),
    ensures
        r == from + find_from(s@.subrange(from as int, end as int), c, 0),
        from <= r <= end,
{
    let ghost t = s@.subrange(from as int, end as int);
    proof {
        lemma_find_from_bounds(t, c, 0);
    }
    let mut i = from;
    while i < end && s[i] != c
        invariant
            from <= i <= end <= s@.len(),
            t == s@.subrange(from as int, end as int),
            find_from(t, c, i - from) == find_from(t, c, 0),
        decreases end - i,
    {
        assert(t[i - from] == s@[i as int]);
        i = i + 1;
    }
    proof {
        if i < end {
            assert(t[i - from] == s@[i as int]);
        }
    }
    i
}

/// Index of the first character of `s[from..end]` that is not white space,
/// or `end`.
pub fn skip_white(s: &Vec<char>, from: usize, end: usize) -> (r: usize)
    requires
        from <= end <= s@.len(),
    ensures
        r == from + white_run(s@.subrange(from as int, end as int), 0),
        from <= r <= end,
{
    let ghost t = s@.subrange(from as int, end as int);
    let mut i = from;
    while i < end && is_white_char(s[i])
        invariant
            from <= i <= end <= s@.len(),
            t == s@.subrange(from as int, end as int),
            white_run(t, i - from) == white_run(t, 0),
        decreases end - i,
    {
        assert(t[i - from] == s@[i as int]);
        i = i + 1;
    }
    proof {
        if i < end {
            assert(t[i - from] == s@[i as int]);
        }
    }
    i
}

/// Whether `c` is Unicode white space.
pub fn is_white_char(c: char) -> (r: bool)
    ensures
        r == is_white(c),
{
    ('\u{9}' <= c && c <= '\u{d}') || c == ' ' || c == '\u{85}' || c == '\u{a0}' || c
        == '\u{1680}' || ('\u{2000}' <= c && c <= '\u{200a}') || c == '\u{2028}' || c
        == '\u{2029}' || c == '\u{202f}' || c == '\u{205f}' || c == '\u{3000}'
}

/// The bounds of the pieces of `s` split at `c` into at most `n` pieces.
pub fn split_bounds(s: &Vec<char>, c: char, n: usize) -> (r: Vec<(usize, usize)>)
    requires
        n >= 1,
    ensures
        r@.len() == split_n(s@, c, n as nat).len(),
        forall|k: int|
            0 <= k < r@.len() ==> #[trigger] r@[k].0 <= r@[k].1 <= s@.len() && s@.subrange(
                r@[k].0 as int,
                r@[k].1 as int,
            ) == split_n(s@, c, n as nat)[k],
{
    let mut r: Vec<(usize, usize)> = Vec::new();
    let mut start: usize = 0;
    let mut left: usize = n;
    loop
        invariant
            1 <= left <= n,
            start <= s@.len(),
            r@.len() + left == n,
            r@.len() <= start,
            forall|k: int|
                0 <= k < r@.len() ==> #[trigger] r@[k].0 <= r@[k].1 <= s@.len() && s@.subrange(
                    r@[k].0 as int,
                    r@[k].1 as int,
                ) == split_n(s@, c, n as nat)[k],
            split_n(s@, c, n as nat) == r@.map_values(
                |p: (usize, usize)| s@.subrange(p.0 as int, p.1 as int),
            ) + split_from(s@, c, start as int, left as nat),
        decreases left,
    {
        let i = find_char(s, c, start);
        let ghost before = r@.map_values(|p: (usize, usize)| s@.subrange(p.0 as int, p.1 as int));
        if left <= 1 || i >= s.len() {
            r.push((start, s.len()));
            proof {
                assert(split_from(s@, c, start as int, left as nat) == seq![
                    s@.subrange(start as int, s@.len() as int),
                ]);
                assert(r@.map_values(|p: (usize, usize)| s@.subrange(p.0 as int, p.1 as int))
                    =~= before.push(s@.subrange(start as int, s@.len() as int)));
                assert(split_n(s@, c, n as nat) =~= r@.map_values(
                    |p: (usize, usize)| s@.subrange(p.0 as int, p.1 as int),
                ));
            }
            return r;
        }
        r.push((start, i));
        proof {
            let rest = split_from(s@, c, i + 1, (left - 1) as nat);
            assert(split_from(s@, c, start as int, left as nat) == seq![
                s@.subrange(start as int, i as int),
            ] + rest);
            assert(r@.map_values(|p: (usize, usize)| s@.subrange(p.0 as int, p.1 as int))
                =~= before.push(s@.subrange(start as int, i as int)));
            assert(split_n(s@, c, n as nat) =~= r@.map_values(
                |p: (usize, usize)| s@.subrange(p.0 as int, p.1 as int),
            ) + rest);
            let k = r@.len() - 1;
            assert(split_n(s@, c, n as nat)[k] == s@.subrange(start as int, i as int));
        }
        start = i + 1;
        left = left - 1;
    }
}

/// Every prefix of a digit string writes a number no larger than the whole.
proof fn lemma_digits_prefix(d: Seq<char>, k: int)
    requires
        all_digits(d),
        0 <= k <= d.len(),
    ensures
        digits_value(d.subrange(0, k)) <= digits_value(d),
        digits_value(d) >= 0,
    decreases d.len(),
{
    if d.len() > 0 {
        let p = d.drop_last();
        assert(all_digits(p)) by {
            assert forall|i: int| 0 <= i < p.len() implies '0' <= #[trigger] p[i] && p[i]
                <= '9' by {
                assert(p[i] == d[i]);
            }
        }
        if k < d.len() {
            lemma_digits_prefix(p, k);
            assert(p.subrange(0, k) =~= d.subrange(0, k));
        } else {
            lemma_digits_prefix(p, 0);
            assert(d.subrange(0, k) =~= d);
        }
        assert(d[d.len() - 1] == d.last());
    }
}

/// The number that `s[a..b]` writes, read as `parse_u64` says.
pub fn parse_decimal(s: &Vec<char>, a: usize, b: usize) -> (r: Option<u64>)
    requires
        a <= b <= s@.len(),
    ensures
        r == parse_u64(s@.subrange(a as int, b as int)),
{
    let ghost t = s@.subrange(a as int, b as int);
    let mut i = a;
    if i < b && s[i] == '+' {
        i = i + 1;
    }
    let d0 = i;
    let ghost d = s@.subrange(d0 as int, b as int);
    assert(d =~= (if t.len() > 0 && t[0] == '+' {
        t.subrange(1, t.len() as int)
    } else {
        t
    }));
    if i == b {
        return None;
    }
    let mut v: u64 = 0;
    while i < b
        invariant
            a <= d0 <= i <= b <= s@.len(),
            d == s@.subrange(d0 as int, b as int),
            d.len() > 0,
            t == s@.subrange(a as int, b as int),
            d == (if t.len() > 0 && t[0] == '+' {
                t.subrange(1, t.len() as int)
            } else {
                t
            }),
            all_digits(s@.subrange(d0 as int, i as int)),
            v == digits_value(s@.subrange(d0 as int, i as int)),
        decreases b - i,
    {
        let c = s[i];
        let ghost prev = s@.subrange(d0 as int, i as int);
        let ghost next = s@.subrange(d0 as int, i + 1);
        assert(next.drop_last() =~= prev);
        assert(next.last() == c);
        if c < '0' || c > '9' {
            assert(d[i - d0] == c);
            assert(!all_digits(d));
            return None;
        }
        let dig = ((c as u32) - ('0' as u32)) as u64;
        assert(all_digits(next)) by {
            assert forall|j: int| 0 <= j < next.len() implies '0' <= #[trigger] next[j] && next[j]
                <= '9' by {
                if j < prev.len() {
                    assert(next[j] == prev[j]);
                }
            }
        }
        if v > (u64::MAX - dig) / 10 {
            proof {
                assert(v * 10 + dig > u64::MAX) by (nonlinear_arith)
                    requires
                        v > (u64::MAX - dig) / 10,
                        dig <= 9,
                ;
                if all_digits(d) {
                    lemma_digits_prefix(d, i + 1 - d0);
                    assert(d.subrange(0, i + 1 - d0) =~= next);
                }
            }
            return None;
        }
        proof {
            assert(v * 10 + dig <= u64::MAX) by (nonlinear_arith)
                requires
                    v <= (u64::MAX - dig) / 10,
                    dig <= 9,
            ;
        }
        v = v * 10 + dig;
        i = i + 1;
    }
    assert(s@.subrange(d0 as int, i as int) =~= d);
    Some(v)
}

/// Whether `s[a..b]` equals `p`.
pub fn range_equals(s: &Vec<char>, a: usize, b: usize, p: &Vec<char>) -> (r: bool)
    requires
        a <= b <= s@.len(),
    ensures
        r == (s@.subrange(a as int, b as int) == p@),
{
    if b - a != p.len() {
        return false;
    }
    let mut i: usize = 0;
    while i < p.len()
        invariant
            b - a == p@.len(),
            a <= b <= s@.len(),
            0 <= i <= p@.len(),
            forall|j: int| 0 <= j < i ==> s@[a + j] == p@[j],
        decreases p@.len() - i,
    {
        if s[a + i] != p[i] {
            assert(s@.subrange(a as int, b as int)[i as int] != p@[i as int]);
            return false;
        }
        i = i + 1;
    }
    assert(s@.subrange(a as int, b as int) =~= p@);
    true
}

/// Whether `s[a..b]` begins with `p`.
pub fn range_starts_with(s: &Vec<char>, a: usize, b: usize, p: &Vec<char>) -> (r: bool)
    requires
        a <= b <= s@.len(),
    ensures
        r == starts_with(s@.subrange(a as int, b as int), p@),
{
    if b - a < p.len() {
        return false;
    }
    let r = range_equals(s, a, a + p.len(), p);
    assert(s@.subrange(a as int, b as int).subrange(0, p@.len() as int) =~= s@.subrange(
        a as int,
        a + p@.len(),
    ));
    r
}

/// Whether `s[a..b]` ends with `p`.
pub fn range_ends_with(s: &Vec<char>, a: usize, b: usize, p: &Vec<char>) -> (r: bool)
    requires
        a <= b <= s@.len(),
    ensures
        r == ends_with(s@.subrange(a as int, b as int), p@),
{
    if b - a < p.len() {
        return false;
    }
    let r = range_equals(s, b - p.len(), b, p);
    assert(s@.subrange(a as int, b as int).subrange(b - a - p@.len(), b - a) =~= s@.subrange(
        b - p@.len(),
        b as int,
    ));
    r
}

/// The text `s[a..b]` as a `String`, given `t`, the characters of `s`.
pub fn piece(s: &str, t: &Vec<char>, a: usize, b: usize) -> (r: String)
    requires
        t@ == s@,
        a <= b <= t@.len(),
    ensures
        r@ == s@.subrange(a as int, b as int),
{
    s.substring_char(a, b).to_owned()
}

} // verus!
