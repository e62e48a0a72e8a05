use vstd::prelude::*;
use crate::count::count_refs;
use crate::schema::{Schema, refs_in};

verus! {

/// The definition named `a` holds a reference to `b`.
pub open spec fn edge(defs: Seq<(String, Schema)>, a: Seq<char>, b: Seq<char>) -> bool {
    exists|i: int| 0 <= i < defs.len() && defs[i].0@ == a && refs_in(defs[i].1, b) > 0
}

/// `p` is a chain of at least one reference hop through the definitions.
pub open spec fn is_chain(defs: Seq<(String, Schema)>, p: Seq<Seq<char>>) -> bool {
    &&& p.len() >= 2
    &&& forall|j: int| 0 <= j < p.len() - 1 ==> #[trigger] edge(defs, p[j], p[j + 1])
}

/// A chain of references leads from the definition `a` to the name `b`.
pub open spec fn reaches(defs: Seq<(String, Schema)>, a: Seq<char>, b: Seq<char>) -> bool {
    exists|p: Seq<Seq<char>>| is_chain(defs, p) && p[0] == a && p.last() == b
}

/// The definition named `d` references itself, directly or through other definitions.
pub open spec fn self_reaching(defs: Seq<(String, Schema)>, d: Seq<char>) -> bool {
    reaches(defs, d, d)
}

/// No two definitions share a name.
pub open spec fn unique_names(defs: Seq<(String, Schema)>) -> bool {
    forall|i: int, j: int| 0 <= i < defs.len() && 0 <= j < defs.len() && i != j ==> defs[i].0@ != defs[j].0@
}

pub open spec fn n_false(s: Seq<bool>) -> nat
    decreases s.len(),
{
    if s.len() == 0 {
        0
    } else {
        n_false(s.drop_last()) + if s.last() { 0nat } else { 1nat }
    }
}

pub proof fn lemma_n_false_mark(s: Seq<bool>, i: int)
    requires
        0 <= i < s.len(),
        !s[i],
    ensures
        n_false(s.update(i, true)) + 1 == n_false(s),
    decreases s.len(),
{
    if i < s.len() - 1 {
        lemma_n_false_mark(s.drop_last(), i);
        assert(s.update(i, true).drop_last() =~= s.drop_last().update(i, true));
    } else {
        assert(s.update(i, true).drop_last() =~= s.drop_last());
    }
}

pub proof fn lemma_extend_chain(defs: Seq<(String, Schema)>, p: Seq<Seq<char>>, b: Seq<char>)
    requires
        is_chain(defs, p),
        edge(defs, p.last(), b),
    ensures
        is_chain(defs, p.push(b)),
        p.push(b)[0] == p[0],
        p.push(b).last() == b,
{
    let q = p.push(b);
    assert forall|j: int| 0 <= j < q.len() - 1 implies #[trigger] edge(defs, q[j], q[j + 1]) by {
        if j < p.len() - 1 {
            assert(edge(defs, p[j], p[j + 1]));
        }
    }
}

/// A chain from a definition back to itself passes only through
/// definitions that reach themselves.
pub proof fn lemma_cycle_members_reach_themselves(defs: Seq<(String, Schema)>, p: Seq<Seq<char>>, j: int)
    requires
        is_chain(defs, p),
        p[0] == p.last(),
        0 <= j < p.len(),
    ensures
        self_reaching(defs, p[j]),
{
    let n = p.len() as int;
    if j == 0 || j == n - 1 {
        assert(is_chain(defs, p) && p[0] == p[j] && p.last() == p[j]);
    } else {
        let q = p.subrange(j, n) + p.subrange(1, j + 1);
        assert forall|t: int| 0 <= t < q.len() - 1 implies #[trigger] edge(defs, q[t], q[t + 1]) by {
            if t < n - j - 1 {
                assert(q[t] == p[j + t] && q[t + 1] == p[j + t + 1]);
                assert(edge(defs, p[j + t], p[j + t + 1]));
            } else if t == n - j - 1 {
                assert(q[t] == p[n - 1] && q[t + 1] == p[1]);
                assert(edge(defs, p[0], p[0int + 1]));
            } else {
                let u = t - (n - j) + 1;
                assert(q[t] == p[u] && q[t + 1] == p[u + 1]);
                assert(edge(defs, p[u], p[u + 1]));
            }
        }
        assert(is_chain(defs, q) && q[0] == p[j] && q.last() == p[j]);
    }
}

/// A chain carries over to another table that keeps every reference between
/// the definitions it passes through.
pub proof fn lemma_chain_carries(a: Seq<(String, Schema)>, b: Seq<(String, Schema)>, p: Seq<Seq<char>>, e: Seq<char>)
    requires
        is_chain(a, p),
        forall|j: int| 0 <= j < p.len() ==> p[j] != e,
        forall|x: Seq<char>, y: Seq<char>| x != e && y != e && #[trigger] edge(a, x, y) ==> edge(b, x, y),
    ensures
        is_chain(b, p),
{
    assert forall|t: int| 0 <= t < p.len() - 1 implies #[trigger] edge(b, p[t], p[t + 1]) by {
        assert(edge(a, p[t], p[t + 1]));
    }
}

/// Tells whether the definition at `k` reaches itself through references.
pub fn is_self_referential(defs: &Vec<(String, Schema)>, k: usize) -> (r: bool)
    requires
        k < defs@.len(),
        unique_names(defs@),
    ensures
        r == self_reaching(defs@, defs@[k as int].0@),
{
    let n = defs.len();
    let ghost d = defs@[k as int].0@;
    let mut marks: Vec<bool> = Vec::new();
    let mut i: usize = 0;
    while i < n
        invariant
            n == defs@.len(),
            i <= n,
            marks@.len() == i,
            k < n,
            d == defs@[k as int].0@,
            forall|t: int| 0 <= t < i ==> marks@[t] == (refs_in(defs@[k as int].1, defs@[t].0@) > 0),
        decreases n - i,
    {
        let c = count_refs(&defs[k].1, &defs[i].0);
        marks.push(c > 0);
        i = i + 1;
    }
    proof {
        assert forall|t: int| 0 <= t < n && marks@[t] implies reaches(defs@, d, defs@[t].0@) by {
            let p = seq![d, defs@[t].0@];
            assert(defs@[k as int].0@ == p[0] && refs_in(defs@[k as int].1, p[0int + 1]) > 0);
            assert(edge(defs@, p[0], p[0int + 1]));
            assert(is_chain(defs@, p) && p[0] == d && p.last() == defs@[t].0@);
        }
    }
    loop
        invariant
            n == defs@.len(),
            marks@.len() == n,
            k < n,
            d == defs@[k as int].0@,
            forall|t: int| 0 <= t < n && refs_in(defs@[k as int].1, defs@[t].0@) > 0 ==> marks@[t],
            forall|t: int| 0 <= t < n && marks@[t] ==> reaches(defs@, d, defs@[t].0@),
        ensures
            n == defs@.len(),
            marks@.len() == n,
            forall|t: int| 0 <= t < n && refs_in(defs@[k as int].1, defs@[t].0@) > 0 ==> marks@[t],
            forall|t: int| 0 <= t < n && marks@[t] ==> reaches(defs@, d, defs@[t].0@),
            forall|j: int, t: int|
                0 <= j < n && 0 <= t < n && marks@[j] && refs_in(defs@[j].1, defs@[t].0@) > 0 ==> marks@[t],
        decreases n_false(marks@),
    {
        let ghost before = marks@;
        let mut changed = false;
        let mut j: usize = 0;
        while j < n
            invariant
                n == defs@.len(),
                marks@.len() == n,
                j <= n,
                k < n,
                d == defs@[k as int].0@,
                before.len() == n,
                forall|t: int| 0 <= t < n && refs_in(defs@[k as int].1, defs@[t].0@) > 0 ==> before[t],
                forall|t: int| 0 <= t < n && before[t] ==> marks@[t],
                forall|t: int| 0 <= t < n && marks@[t] ==> reaches(defs@, d, defs@[t].0@),
                changed ==> n_false(marks@) < n_false(before),
                !changed ==> marks@ == before,
                !changed ==> forall|a: int, t: int|
                    0 <= a < j && 0 <= t < n && marks@[a] && refs_in(defs@[a].1, defs@[t].0@) > 0 ==> marks@[t],
            decreases n - j,
        {
            if marks[j] {
                let mut t: usize = 0;
                while t < n
                    invariant
                        n == defs@.len(),
                        marks@.len() == n,
                        j < n,
                        t <= n,
                        k < n,
                        d == defs@[k as int].0@,
                        marks@[j as int],
                        before.len() == n,
                        forall|u: int| 0 <= u < n && refs_in(defs@[k as int].1, defs@[u].0@) > 0 ==> before[u],
                        forall|u: int| 0 <= u < n && before[u] ==> marks@[u],
                        forall|u: int| 0 <= u < n && marks@[u] ==> reaches(defs@, d, defs@[u].0@),
                        changed ==> n_false(marks@) < n_false(before),
                        !changed ==> marks@ == before,
                        !changed ==> forall|a: int, u: int|
                            0 <= a < j && 0 <= u < n && marks@[a] && refs_in(defs@[a].1, defs@[u].0@) > 0 ==> marks@[u],
                        !changed ==> forall|u: int|
                            0 <= u < t && refs_in(defs@[j as int].1, defs@[u].0@) > 0 ==> marks@[u],
                    decreases n - t,
                {
                    if !marks[t] {
                        let c = count_refs(&defs[j].1, &defs[t].0);
                        if c > 0 {
                            proof {
                                let p = choose|p: Seq<Seq<char>>|
                                    is_chain(defs@, p) && p[0] == d && p.last() == defs@[j as int].0@;
                                assert(edge(defs@, p.last(), defs@[t as int].0@));
                                lemma_extend_chain(defs@, p, defs@[t as int].0@);
                                lemma_n_false_mark(marks@, t as int);
                            }
                            marks.set(t, true);
                            changed = true;
                        }
                    }
                    t = t + 1;
                }
            }
            j = j + 1;
        }
        assert forall|t: int| 0 <= t < n && refs_in(defs@[k as int].1, defs@[t].0@) > 0 implies marks@[t] by {
            assert(before[t]);
        }
        if !changed {
            break;
        }
    }
    let r = marks[k];
    proof {
        if self_reaching(defs@, d) {
            let p = choose|p: Seq<Seq<char>>| is_chain(defs@, p) && p[0] == d && p.last() == d;
            lemma_chain_marked(defs@, p, marks@, k as int, p.len() - 1);
            let t = choose|t: int| 0 <= t < n && defs@[t].0@ == p[p.len() - 1] && marks@[t];
            assert(t == k);
        }
    }
    r
}

proof fn lemma_chain_marked(defs: Seq<(String, Schema)>, p: Seq<Seq<char>>, marks: Seq<bool>, k: int, m: int)
    requires
        unique_names(defs),
        0 <= k < defs.len(),
        marks.len() == defs.len(),
        is_chain(defs, p),
        p[0] == defs[k].0@,
        p.last() == defs[k].0@,
        1 <= m < p.len(),
        forall|t: int| 0 <= t < defs.len() && refs_in(defs[k].1, defs[t].0@) > 0 ==> marks[t],
        forall|j: int, t: int|
            0 <= j < defs.len() && 0 <= t < defs.len() && marks[j] && refs_in(defs[j].1, defs[t].0@) > 0 ==> marks[t],
    ensures
        exists|t: int| 0 <= t < defs.len() && defs[t].0@ == p[m] && marks[t],
    decreases m,
{
    let tgt: int = if m == p.len() - 1 {
        k
    } else {
        assert(edge(defs, p[m], p[m + 1]));
        choose|t: int| 0 <= t < defs.len() && defs[t].0@ == p[m] && refs_in(defs[t].1, p[m + 1]) > 0
    };
    assert(defs[tgt].0@ == p[m]);
    let jm = m - 1;
    assert(edge(defs, p[jm], p[jm + 1]));
    assert(p[jm + 1] == p[m]);
    let src = choose|i: int| 0 <= i < defs.len() && defs[i].0@ == p[m - 1] && refs_in(defs[i].1, p[m]) > 0;
    if m == 1 {
        assert(src == k);
    } else {
        lemma_chain_marked(defs, p, marks, k, m - 1);
        let s2 = choose|t: int| 0 <= t < defs.len() && defs[t].0@ == p[m - 1] && marks[t];
        assert(s2 == src);
    }
    assert(marks[tgt]);
}

} // verus!
