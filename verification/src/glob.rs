use vstd::prelude::*;
use crate::text::chars_of;

verus! {

/// What an ssh_config `Host` pattern matches: `*` stands for any run of
/// characters (it matches nothing, or one character and then again any run),
/// `?` for exactly one character, and any other character for itself. The
/// whole text must be matched.
pub open spec fn glob_matches(p: Seq<char>, t: Seq<char>) -> bool
    decreases p.len(), t.len(),
{
    if p.len() == 0 {
        t.len() == 0
    } else if p[0] == '*' {
        glob_matches(p.drop_first(), t) || (t.len() > 0 && glob_matches(p, t.drop_first()))
    } else if p[0] == '?' {
        t.len() > 0 && glob_matches(p.drop_first(), t.drop_first())
    } else {
        t.len() > 0 && t[0] == p[0] && glob_matches(p.drop_first(), t.drop_first())
    }
}

/// A `*` in front of a pattern matches a suffix of the text either by
/// consuming nothing or by consuming one more character.
proof fn lemma_star_step(p: Seq<char>, t: Seq<char>, j: int)
    requires
        p.len() > 0,
        p[0] == '*',
        0 <= j <= t.len(),
    ensures
        glob_matches(p, t.skip(j)) == (glob_matches(p.drop_first(), t.skip(j)) || (j < t.len()
            && glob_matches(p, t.skip(j + 1)))),
{
    if j < t.len() {
        assert(t.skip(j).drop_first() =~= t.skip(j + 1));
    }
}

/// A pattern without `*` or `?` matches exactly the text equal to it.
pub proof fn lemma_literal_pattern(p: Seq<char>, t: Seq<char>)
    requires
        !p.contains('*'),
        !p.contains('?'),
    ensures
        glob_matches(p, t) <==> p == t,
    decreases p.len(),
{
    if p.len() == 0 {
        if t.len() != 0 {
            assert(p != t);
        } else {
            assert(p =~= t);
        }
    } else {
        assert(p[0] != '*' && p[0] != '?') by {
            if p[0] == '*' || p[0] == '?' {
                assert(p.contains(p[0]));
            }
        }
        let q = p.drop_first();
        assert(!q.contains('*') && !q.contains('?')) by {
            if q.contains('*') {
                let k = choose|k: int| 0 <= k < q.len() && q[k] == '*';
                assert(p[k + 1] == '*');
            }
            if q.contains('?') {
                let k = choose|k: int| 0 <= k < q.len() && q[k] == '?';
                assert(p[k + 1] == '?');
            }
        }
        if t.len() > 0 {
            lemma_literal_pattern(q, t.drop_first());
            if p == t {
                assert(q =~= t.drop_first());
            }
            if t[0] == p[0] && q == t.drop_first() {
                assert forall|i: int| 0 <= i < p.len() implies p[i] == t[i] by {
                    if i > 0 {
                        assert(p[i] == q[i - 1]);
                        assert(t[i] == t.drop_first()[i - 1]);
                    }
                }
                assert(p =~= t);
            }
            assert(glob_matches(p, t) == (t[0] == p[0] && glob_matches(q, t.drop_first())));
        } else {
            assert(p != t);
        }
    }
}

/// The pattern `*` matches every text.
pub proof fn lemma_star_matches_all(t: Seq<char>)
    ensures
        glob_matches(seq!['*'], t),
    decreases t.len(),
{
    let p = seq!['*'];
    assert(p.len() == 1 && p[0] == '*');
    assert(p.drop_first() =~= Seq::<char>::empty());
    if t.len() > 0 {
        lemma_star_matches_all(t.drop_first());
        assert(glob_matches(p, t.drop_first()));
    } else {
        assert(glob_matches(p.drop_first(), t));
    }
}

/// The number of characters of a pattern other than `*`: each of them
/// consumes exactly one character of the text.
pub open spec fn fixed_len(p: Seq<char>) -> nat
    decreases p.len(),
{
    if p.len() == 0 {
        0
    } else if p[0] == '*' {
        fixed_len(p.drop_first())
    } else {
        1 + fixed_len(p.drop_first())
    }
}

/// A `*` appended to a pattern lets the text go on with anything: when `p`
/// matches `t`, `p*` matches `t` followed by any `s`.
pub proof fn lemma_star_appended(p: Seq<char>, t: Seq<char>, s: Seq<char>)
    requires
        glob_matches(p, t),
    ensures
        glob_matches(p.push('*'), t + s),
    decreases p.len(), t.len(),
{
    let pp = p.push('*');
    if p.len() == 0 {
        assert(pp =~= seq!['*']);
        assert(t + s =~= s);
        lemma_star_matches_all(s);
    } else {
        let p1 = p.drop_first();
        assert(pp[0] == p[0]);
        assert(pp.drop_first() =~= p1.push('*'));
        if t.len() > 0 {
            assert((t + s).drop_first() =~= t.drop_first() + s);
            assert((t + s)[0] == t[0]);
        }
        if p[0] == '*' {
            if glob_matches(p1, t) {
                lemma_star_appended(p1, t, s);
            } else {
                lemma_star_appended(p, t.drop_first(), s);
            }
        } else {
            lemma_star_appended(p1, t.drop_first(), s);
        }
    }
}

/// A `*` put in front of a pattern lets anything come first: when `p`
/// matches `t`, `*p` matches any `s` followed by `t`.
pub proof fn lemma_star_prepended(p: Seq<char>, t: Seq<char>, s: Seq<char>)
    requires
        glob_matches(p, t),
    ensures
        glob_matches(seq!['*'] + p, s + t),
    decreases s.len(),
{
    let pp = seq!['*'] + p;
    assert(pp[0] == '*');
    assert(pp.drop_first() =~= p);
    if s.len() == 0 {
        assert(s + t =~= t);
    } else {
        lemma_star_prepended(p, t, s.drop_first());
        assert((s + t).drop_first() =~= s.drop_first() + t);
    }
}

/// A matched text has at least one character for each character of the
/// pattern other than `*`, and exactly that many when the pattern has no `*`.
pub proof fn lemma_match_length(p: Seq<char>, t: Seq<char>)
    requires
        glob_matches(p, t),
    ensures
        t.len() >= fixed_len(p),
        !p.contains('*') ==> t.len() == fixed_len(p),
    decreases p.len(), t.len(),
{
    if p.len() > 0 {
        let p1 = p.drop_first();
        assert(!p.contains('*') ==> !p1.contains('*')) by {
            if p1.contains('*') {
                let k = choose|k: int| 0 <= k < p1.len() && p1[k] == '*';
                assert(p[k + 1] == '*');
            }
        }
        if p[0] == '*' {
            assert(p.contains('*'));
            if glob_matches(p1, t) {
                lemma_match_length(p1, t);
            } else {
                lemma_match_length(p, t.drop_first());
            }
        } else {
            lemma_match_length(p1, t.drop_first());
        }
    }
}

/// Simple glob matcher supporting `*` and `?`, as used by ssh_config `Host` patterns.
pub fn glob_match(pattern: &str, text: &str) -> (r: bool)
    ensures
        r == glob_matches(pattern@, text@),
{
    let pc = chars_of(pattern);
    let tc = chars_of(text);
    glob_match_chars(&pc, &tc)
}

/// The same matcher over character vectors, by dynamic programming over
/// suffixes of the pattern and of the text.
pub fn glob_match_chars(pc: &Vec<char>, tc: &Vec<char>) -> (r: bool)
    ensures
        r == glob_matches(pc@, tc@),
{
    let m = pc.len();
    let n = tc.len();
    if n == usize::MAX {
        // a text this long cannot be held with its sentinel row; never reached in practice
        return glob_match_long(pc, tc);
    }
    // next[j] == glob_matches(pattern suffix from i, text suffix from j)
    let mut next: Vec<bool> = Vec::new();
    let mut j: usize = 0;
    while j <= n
        invariant
            j <= n + 1,
            n == tc@.len(),
            n < usize::MAX,
            m == pc@.len(),
            next@.len() == j,
            forall|k: int| 0 <= k < j ==> next@[k] == glob_matches(pc@.skip(m as int), tc@.skip(k)),
        decreases n + 1 - j,
    {
        proof {
            assert(pc@.skip(m as int).len() == 0);
        }
        next.push(j == n);
        j = j + 1;
    }
    let mut i: usize = m;
    while i > 0
        invariant
            i <= m,
            n == tc@.len(),
            n < usize::MAX,
            m == pc@.len(),
            next@.len() == n + 1,
            forall|k: int| 0 <= k <= n ==> next@[k] == glob_matches(pc@.skip(i as int), tc@.skip(k)),
        decreases i,
    {
        let ii = i - 1;
        let c = pc[ii];
        let ghost p = pc@.skip(ii as int);
        proof {
            assert(p.drop_first() =~= pc@.skip(i as int));
            assert(p[0] == c);
        }
        let mut cur: Vec<bool> = Vec::new();
        let mut k: usize = 0;
        while k <= n
            invariant
                k <= n + 1,
                n < usize::MAX,
                cur@.len() == k,
            decreases n + 1 - k,
        {
            cur.push(false);
            k = k + 1;
        }
        if c == '*' {
            let mut jj: usize = n + 1;
            while jj > 0
                invariant
                    jj <= n + 1,
                    n == tc@.len(),
                    n < usize::MAX,
                    cur@.len() == n + 1,
                    next@.len() == n + 1,
                    p.len() > 0,
                    p[0] == '*',
                    p.drop_first() == pc@.skip(i as int),
                    forall|k: int| 0 <= k <= n ==> next@[k] == glob_matches(p.drop_first(), tc@.skip(k)),
                    forall|k: int| jj <= k <= n ==> cur@[k] == glob_matches(p, tc@.skip(k)),
                decreases jj,
            {
                let j0 = jj - 1;
                let v = if j0 == n {
                    next[j0]
                } else {
                    next[j0] || cur[j0 + 1]
                };
                proof {
                    lemma_star_step(p, tc@, j0 as int);
                }
                cur.set(j0, v);
                jj = j0;
            }
        } else {
            let mut jj: usize = 0;
            while jj <= n
                invariant
                    jj <= n + 1,
                    n == tc@.len(),
                    n < usize::MAX,
                    cur@.len() == n + 1,
                    next@.len() == n + 1,
                    p.len() > 0,
                    p[0] == c,
                    c != '*',
                    p.drop_first() == pc@.skip(i as int),
                    forall|k: int| 0 <= k <= n ==> next@[k] == glob_matches(p.drop_first(), tc@.skip(k)),
                    forall|k: int| 0 <= k < jj ==> cur@[k] == glob_matches(p, tc@.skip(k)),
                decreases n + 1 - jj,
            {
                let v = if jj == n {
                    false
                } else {
                    (c == '?' || tc[jj] == c) && next[jj + 1]
                };
                proof {
                    let t = tc@.skip(jj as int);
                    if jj < n {
                        assert(t.drop_first() =~= tc@.skip(jj + 1));
                    }
                }
                cur.set(jj, v);
                jj = jj + 1;
            }
        }
        next = cur;
        i = ii;
    }
    proof {
        assert(pc@.skip(0) =~= pc@);
        assert(tc@.skip(0) =~= tc@);
    }
    next[0]
}

/// Matching by plain recursion over the pattern; used only for texts whose
/// length leaves no room for the table's sentinel column.
fn glob_match_long(pc: &Vec<char>, tc: &Vec<char>) -> (r: bool)
    ensures
        r == glob_matches(pc@, tc@),
{
    proof {
        assert(pc@.skip(0) =~= pc@);
        assert(tc@.skip(0) =~= tc@);
    }
    glob_from(pc, tc, 0, 0)
}

fn glob_from(pc: &Vec<char>, tc: &Vec<char>, i: usize, j: usize) -> (r: bool)
    requires
        i <= pc@.len(),
        j <= tc@.len(),
    ensures
        r == glob_matches(pc@.skip(i as int), tc@.skip(j as int)),
    decreases pc@.len() - i, tc@.len() - j,
{
    let ghost p = pc@.skip(i as int);
    let ghost t = tc@.skip(j as int);
    if i == pc.len() {
        return j == tc.len();
    }
    proof {
        assert(p.drop_first() =~= pc@.skip(i + 1));
    }
    let c = pc[i];
    if c == '*' {
        let a = glob_from(pc, tc, i + 1, j);
        if a {
            proof {
                lemma_star_step(pc@.skip(i as int), tc@, j as int);
            }
            return true;
        }
        if j == tc.len() {
            proof {
                lemma_star_step(pc@.skip(i as int), tc@, j as int);
            }
            return false;
        }
        let b = glob_from(pc, tc, i, j + 1);
        proof {
            lemma_star_step(pc@.skip(i as int), tc@, j as int);
        }
        b
    } else {
        if j == tc.len() {
            return false;
        }
        proof {
            assert(t.drop_first() =~= tc@.skip(j + 1));
        }
        if c == '?' || tc[j] == c {
            glob_from(pc, tc, i + 1, j + 1)
        } else {
            false
        }
    }
}

} // verus!
