use vstd::prelude::*;

verus! {

/// `c` with ASCII upper case letters taken to lower case; every other
/// character is left alone.
pub open spec fn ascii_fold(c: char) -> char {
    if 'A' <= c && c <= 'Z' {
        ((c as int) + 32) as char
    } else {
        c
    }
}

/// Whether the text `s` matches the `LIKE` pattern `p`: `%` stands for any run
/// of characters, `_` for exactly one, and every other character for itself
/// with ASCII letters compared regardless of case.
pub open spec fn like_match(p: Seq<char>, s: Seq<char>) -> bool
    decreases p.len() + s.len(),
{
    if p.len() == 0 {
        s.len() == 0
    } else if p[0] == '%' {
        like_match(p.drop_first(), s) || (s.len() > 0 && like_match(p, s.drop_first()))
    } else if s.len() == 0 {
        false
    } else if p[0] == '_' || ascii_fold(p[0]) == ascii_fold(s[0]) {
        like_match(p.drop_first(), s.drop_first())
    } else {
        false
    }
}

/// `c` with an ASCII upper case letter taken to lower case.
pub fn fold(c: char) -> (r: char)
    ensures
        r == ascii_fold(c),
{
    if 'A' <= c && c <= 'Z' {
        let code: u32 = c as u32 + 32;
        let b: u8 = code as u8;
        b as char
    } else {
        c
    }
}

proof fn lemma_like_step(p: Seq<char>, s: Seq<char>, i: int, j: int)
    requires
        0 <= i < p.len(),
        0 <= j <= s.len(),
    ensures
        like_match(p.skip(i), s.skip(j)) == if p[i] == '%' {
            like_match(p.skip(i + 1), s.skip(j)) || (j < s.len() && like_match(
                p.skip(i),
                s.skip(j + 1),
            ))
        } else if j == s.len() {
            false
        } else if p[i] == '_' || ascii_fold(p[i]) == ascii_fold(s[j]) {
            like_match(p.skip(i + 1), s.skip(j + 1))
        } else {
            false
        },
{
    assert(p.skip(i).drop_first() =~= p.skip(i + 1));
    assert(p.skip(i)[0] == p[i]);
    if j < s.len() {
        assert(s.skip(j).drop_first() =~= s.skip(j + 1));
        assert(s.skip(j)[0] == s[j]);
    }
}

/// Whether `text` matches the `LIKE` pattern `pattern`.
pub fn like_matches(pattern: &Vec<char>, text: &Vec<char>) -> (r: bool)
    ensures
        r == like_match(pattern@, text@),
{
    let n = pattern.len();
    let m = text.len();
    // `next[q]` (q < m) and `next_end` (q == m) hold whether the text from
    // position q on matches the pattern from position i on.
    let mut next: Vec<bool> = Vec::new();
    let mut k: usize = 0;
    while k < m
        invariant
            m == text@.len(),
            n == pattern@.len(),
            k <= m,
            next@.len() == k,
            forall|q: int|
                0 <= q < k ==> #[trigger] next@[q] == like_match(pattern@.skip(n as int), text@.skip(q)),
        decreases m - k,
    {
        assert(pattern@.skip(n as int).len() == 0);
        next.push(false);
        k = k + 1;
    }
    assert(pattern@.skip(n as int).len() == 0);
    assert(text@.skip(m as int).len() == 0);
    let mut next_end = true;
    let mut i: usize = n;
    while i > 0
        invariant
            m == text@.len(),
            n == pattern@.len(),
            i <= n,
            next@.len() == m,
            next_end == like_match(pattern@.skip(i as int), text@.skip(m as int)),
            forall|q: int|
                0 <= q < m ==> #[trigger] next@[q] == like_match(pattern@.skip(i as int), text@.skip(q)),
        decreases i,
    {
        i = i - 1;
        let pc = pattern[i];
        proof {
            lemma_like_step(pattern@, text@, i as int, m as int);
        }
        let cur_end = pc == '%' && next_end;
        let mut cur: Vec<bool> = Vec::new();
        let mut z: usize = 0;
        while z < m
            invariant
                z <= m,
                cur@.len() == z,
            decreases m - z,
        {
            cur.push(false);
            z = z + 1;
        }
        let mut j: usize = m;
        while j > 0
            invariant
                m == text@.len(),
                n == pattern@.len(),
                i < n,
                pc == pattern@[i as int],
                j <= m,
                next@.len() == m,
                cur@.len() == m,
                next_end == like_match(pattern@.skip(i + 1), text@.skip(m as int)),
                cur_end == like_match(pattern@.skip(i as int), text@.skip(m as int)),
                forall|q: int|
                    0 <= q < m ==> #[trigger] next@[q] == like_match(pattern@.skip(i + 1), text@.skip(q)),
                forall|q: int|
                    j <= q < m ==> #[trigger] cur@[q] == like_match(pattern@.skip(i as int), text@.skip(q)),
            decreases j,
        {
            j = j - 1;
            let next_after = if j + 1 == m {
                next_end
            } else {
                next[j + 1]
            };
            let cur_after = if j + 1 == m {
                cur_end
            } else {
                cur[j + 1]
            };
            let v: bool = if pc == '%' {
                next[j] || cur_after
            } else if pc == '_' || fold(pc) == fold(text[j]) {
                next_after
            } else {
                false
            };
            proof {
                lemma_like_step(pattern@, text@, i as int, j as int);
            }
            cur.set(j, v);
        }
        next = cur;
        next_end = cur_end;
    }
    assert(text@.skip(0) =~= text@);
    assert(pattern@.skip(0) =~= pattern@);
    if m == 0 {
        next_end
    } else {
        next[0]
    }
}

/// Whether `a` and `b` are the same text apart from the case of ASCII letters.
pub open spec fn folds_equal(a: Seq<char>, b: Seq<char>) -> bool {
    a.len() == b.len() && forall|i: int| 0 <= i < a.len() ==> ascii_fold(#[trigger] a[i]) == ascii_fold(b[i])
}

/// Whether `q` occurs in `s`, ASCII letters compared regardless of case.
pub open spec fn contains_folded(s: Seq<char>, q: Seq<char>) -> bool {
    exists|i: int| 0 <= i && i + q.len() <= s.len() && #[trigger] folds_equal(q, s.subrange(i, i + q.len()))
}

/// Whether `q` holds none of the `LIKE` wildcards `%` and `_`.
pub open spec fn no_wildcards(q: Seq<char>) -> bool {
    forall|i: int| 0 <= i < q.len() ==> #[trigger] q[i] != '%' && q[i] != '_'
}

proof fn lemma_like_percent_any(s: Seq<char>)
    ensures
        like_match(seq!['%'], s),
    decreases s.len(),
{
    let pc = seq!['%'];
    assert(pc[0] == '%');
    assert(pc.drop_first() =~= Seq::<char>::empty());
    if s.len() > 0 {
        lemma_like_percent_any(s.drop_first());
    } else {
        assert(like_match(pc.drop_first(), s));
    }
}

proof fn lemma_like_star(p: Seq<char>, s: Seq<char>)
    ensures
        like_match(seq!['%'] + p, s) <==> exists|j: int| 0 <= j <= s.len() && #[trigger] like_match(p, s.skip(j)),
    decreases s.len(),
{
    let sp = seq!['%'] + p;
    assert(sp[0] == '%');
    assert(sp.drop_first() =~= p);
    assert(s.skip(0) =~= s);
    assert(like_match(sp, s) == (like_match(p, s) || (s.len() > 0 && like_match(sp, s.drop_first()))));
    if like_match(p, s.skip(0)) {
    }
    if s.len() > 0 {
        lemma_like_star(p, s.drop_first());
        let t = s.drop_first();
        if exists|j: int| 0 <= j <= t.len() && #[trigger] like_match(p, t.skip(j)) {
            let j = choose|j: int| 0 <= j <= t.len() && #[trigger] like_match(p, t.skip(j));
            assert(t.skip(j) =~= s.skip(j + 1));
        }
        if exists|j: int| 0 <= j <= s.len() && #[trigger] like_match(p, s.skip(j)) {
            let j = choose|j: int| 0 <= j <= s.len() && #[trigger] like_match(p, s.skip(j));
            if j > 0 {
                assert(t.skip(j - 1) =~= s.skip(j));
            }
        }
    }
}

proof fn lemma_like_literal(q: Seq<char>, p: Seq<char>, s: Seq<char>)
    requires
        no_wildcards(q),
    ensures
        like_match(q + p, s) <==> (s.len() >= q.len() && folds_equal(q, s.take(q.len() as int)) && like_match(p, s.skip(q.len() as int))),
    decreases q.len(),
{
    if q.len() == 0 {
        assert(q + p =~= p);
        assert(s.skip(0) =~= s);
    } else {
        let qp = q + p;
        assert(qp[0] == q[0]);
        assert(qp.drop_first() =~= q.drop_first() + p);
        assert(q[0] != '%' && q[0] != '_');
        let q1 = q.drop_first();
        assert forall|i: int| 0 <= i < q1.len() implies #[trigger] q1[i] != '%' && q1[i] != '_' by {
            assert(q1[i] == q[i + 1]);
        }
        if s.len() > 0 {
            let t = s.drop_first();
            lemma_like_literal(q1, p, t);
            if s.len() >= q.len() {
                assert(t.skip(q1.len() as int) =~= s.skip(q.len() as int));
            }
            if t.len() >= q1.len() {
                assert(folds_equal(q, s.take(q.len() as int)) <==> (ascii_fold(q[0]) == ascii_fold(s[0]) && folds_equal(q1, t.take(q1.len() as int)))) by {
                    if folds_equal(q, s.take(q.len() as int)) {
                        assert(ascii_fold(q[0]) == ascii_fold(s.take(q.len() as int)[0]));
                        assert forall|i: int| 0 <= i < q1.len() implies ascii_fold(#[trigger] q1[i]) == ascii_fold(t.take(q1.len() as int)[i]) by {
                            assert(q1[i] == q[i + 1]);
                            assert(t.take(q1.len() as int)[i] == s.take(q.len() as int)[i + 1]);
                        }
                    }
                    if ascii_fold(q[0]) == ascii_fold(s[0]) && folds_equal(q1, t.take(q1.len() as int)) {
                        assert forall|i: int| 0 <= i < q.len() implies ascii_fold(#[trigger] q[i]) == ascii_fold(s.take(q.len() as int)[i]) by {
                            if i > 0 {
                                assert(q1[i - 1] == q[i]);
                                assert(t.take(q1.len() as int)[i - 1] == s.take(q.len() as int)[i]);
                            }
                        }
                    }
                }
            }
        }
    }
}

/// A search for text without wildcards matches exactly the texts that
/// contain it, ASCII letters compared regardless of case.
pub proof fn lemma_search_is_substring(q: Seq<char>, s: Seq<char>)
    requires
        no_wildcards(q),
    ensures
        like_match(seq!['%'] + q + seq!['%'], s) <==> contains_folded(s, q),
{
    assert(seq!['%'] + q + seq!['%'] =~= seq!['%'] + (q + seq!['%']));
    lemma_like_star(q + seq!['%'], s);
    if like_match(seq!['%'] + q + seq!['%'], s) {
        let j = choose|j: int| 0 <= j <= s.len() && #[trigger] like_match(q + seq!['%'], s.skip(j));
        lemma_like_literal(q, seq!['%'], s.skip(j));
        let u = s.skip(j);
        assert(u.take(q.len() as int) =~= s.subrange(j, j + q.len()));
        assert(folds_equal(q, s.subrange(j, j + q.len())));
    }
    if contains_folded(s, q) {
        let i = choose|i: int| 0 <= i && i + q.len() <= s.len() && #[trigger] folds_equal(q, s.subrange(i, i + q.len()));
        let u = s.skip(i);
        assert(u.take(q.len() as int) =~= s.subrange(i, i + q.len()));
        lemma_like_literal(q, seq!['%'], u);
        lemma_like_percent_any(u.skip(q.len() as int));
        assert(like_match(q + seq!['%'], s.skip(i)));
    }
}

/// Strict lexicographic order on character sequences, a proper prefix coming
/// first (the order of SQLite's `BINARY` collation on UTF-8 text).
pub open spec fn text_lt(a: Seq<char>, b: Seq<char>) -> bool
    decreases a.len(),
{
    if a.len() == 0 {
        b.len() > 0
    } else if b.len() == 0 {
        false
    } else if a[0] != b[0] {
        a[0] < b[0]
    } else {
        text_lt(a.drop_first(), b.drop_first())
    }
}

/// Whether `a` comes strictly before `b` in lexicographic order.
pub fn text_less(a: &str, b: &str) -> (r: bool)
    ensures
        r == text_lt(a@, b@),
{
    let x = crate::text::chars_of(a);
    let y = crate::text::chars_of(b);
    let mut i: usize = 0;
    assert(x@.skip(0) =~= x@);
    assert(y@.skip(0) =~= y@);
    while i < x.len() && i < y.len() && x[i] == y[i]
        invariant
            x@ == a@,
            y@ == b@,
            i <= x@.len(),
            i <= y@.len(),
            forall|k: int| 0 <= k < i ==> x@[k] == y@[k],
            text_lt(a@, b@) == text_lt(x@.skip(i as int), y@.skip(i as int)),
        decreases x@.len() - i,
    {
        proof {
            assert(x@.skip(i as int).drop_first() =~= x@.skip(i + 1));
            assert(y@.skip(i as int).drop_first() =~= y@.skip(i + 1));
            assert(x@.skip(i as int)[0] == x@[i as int]);
            assert(y@.skip(i as int)[0] == y@[i as int]);
        }
        i = i + 1;
    }
    proof {
        if i < x@.len() && i < y@.len() {
            assert(x@.skip(i as int)[0] == x@[i as int]);
            assert(y@.skip(i as int)[0] == y@[i as int]);
        }
    }
    if i == x.len() {
        i < y.len()
    } else if i == y.len() {
        false
    } else {
        x[i] < y[i]
    }
}

} // verus!
