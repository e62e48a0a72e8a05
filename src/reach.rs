use vstd::prelude::*;
use crate::count::count_refs;
use crate::cycle::{edge, is_chain, lemma_extend_chain, lemma_n_false_mark, n_false, reaches, unique_names};
use crate::schema::{
    Document, Schema, lemma_props_member, no_dangling, prop_names, refs_in, refs_in_doc, refs_in_props,
};

verus! {

/// The root references `n`, or references a definition from which a chain of
/// references leads to `n`.
pub open spec fn root_reaches(d: Document, n: Seq<char>) -> bool {
    ||| refs_in(d.root, n) > 0
    ||| exists|x: Seq<char>| refs_in(d.root, x) > 0 && #[trigger] reaches(d.definitions@, x, n)
}

/// The entries of `s` whose names the root of `d` reaches, in order.
pub open spec fn kept(d: Document, s: Seq<(String, Schema)>) -> Seq<(String, Schema)>
    decreases s.len(),
{
    if s.len() == 0 {
        s
    } else if root_reaches(d, s.last().0@) {
        kept(d, s.drop_last()).push(s.last())
    } else {
        kept(d, s.drop_last())
    }
}

/// `r` is `d` without the definitions that its root does not reach.
pub open spec fn pruned(d: Document, r: Document) -> bool {
    &&& r.root == d.root
    &&& r.definitions@ == kept(d, d.definitions@)
}

/// Every definition of `d` is reached from its root.
pub open spec fn all_reachable(d: Document) -> bool {
    forall|k: int| 0 <= k < d.definitions@.len() ==> root_reaches(d, #[trigger] d.definitions@[k].0@)
}

proof fn lemma_kept(d: Document, s: Seq<(String, Schema)>)
    ensures
        forall|i: int|
            0 <= i < kept(d, s).len() ==> s.contains(#[trigger] kept(d, s)[i]) && root_reaches(d, kept(d, s)[i].0@),
        forall|j: int| 0 <= j < s.len() && root_reaches(d, s[j].0@) ==> kept(d, s).contains(#[trigger] s[j]),
        unique_names(s) ==> unique_names(kept(d, s)),
    decreases s.len(),
{
    if s.len() > 0 {
        let t = s.drop_last();
        lemma_kept(d, t);
        let k = kept(d, s);
        let kt = kept(d, t);
        assert forall|i: int| 0 <= i < k.len() implies s.contains(#[trigger] k[i]) && root_reaches(d, k[i].0@) by {
            if i < kt.len() {
                assert(k[i] == kt[i]);
                assert(t.contains(kt[i]));
                let j = choose|j: int| 0 <= j < t.len() && t[j] == kt[i];
                assert(s[j] == kt[i]);
            } else {
                assert(k[i] == s.last());
                assert(s[s.len() - 1] == s.last());
            }
        }
        assert forall|j: int| 0 <= j < s.len() && root_reaches(d, s[j].0@) implies k.contains(#[trigger] s[j]) by {
            if j < s.len() - 1 {
                assert(t[j] == s[j]);
                assert(kt.contains(t[j]));
                let i = choose|i: int| 0 <= i < kt.len() && kt[i] == t[j];
                assert(k[i] == kt[i]);
            } else {
                assert(k[k.len() - 1] == s[j]);
            }
        }
        if unique_names(s) {
            assert forall|i: int, j: int| 0 <= i < k.len() && 0 <= j < k.len() && i != j implies k[i].0@ != k[j].0@ by {
                if i < kt.len() && j < kt.len() {
                    assert(k[i] == kt[i] && k[j] == kt[j]);
                } else if i < kt.len() {
                    assert(k[i] == kt[i]);
                    assert(t.contains(kt[i]));
                    let a = choose|a: int| 0 <= a < t.len() && t[a] == kt[i];
                    assert(s[a] == k[i]);
                    assert(k[j] == s[s.len() - 1]);
                } else {
                    assert(k[j] == kt[j]);
                    assert(t.contains(kt[j]));
                    let a = choose|a: int| 0 <= a < t.len() && t[a] == kt[j];
                    assert(s[a] == k[j]);
                    assert(k[i] == s[s.len() - 1]);
                }
            }
        }
    }
}

proof fn lemma_reach_extend(d: Document, n: Seq<char>, y: Seq<char>)
    requires
        root_reaches(d, n),
        edge(d.definitions@, n, y),
    ensures
        root_reaches(d, y),
{
    if refs_in(d.root, n) > 0 {
        let p = seq![n, y];
        assert(edge(d.definitions@, p[0], p[0int + 1]));
        assert(is_chain(d.definitions@, p) && p[0] == n && p.last() == y);
        assert(reaches(d.definitions@, n, y));
    } else {
        let x = choose|x: Seq<char>| refs_in(d.root, x) > 0 && #[trigger] reaches(d.definitions@, x, n);
        let p = choose|p: Seq<Seq<char>>| is_chain(d.definitions@, p) && p[0] == x && p.last() == n;
        lemma_extend_chain(d.definitions@, p, y);
        assert(reaches(d.definitions@, x, y));
    }
}

proof fn lemma_props_some(s: Seq<(String, Schema)>, y: Seq<char>)
    requires
        refs_in_props(s, y) > 0,
    ensures
        exists|i: int| 0 <= i < s.len() && refs_in(#[trigger] s[i].1, y) > 0,
    decreases s.len(),
{
    if refs_in(s.last().1, y) > 0 {
        assert(refs_in(s[s.len() - 1].1, y) > 0);
    } else {
        lemma_props_some(s.drop_last(), y);
        let i = choose|i: int| 0 <= i < s.drop_last().len() && refs_in(#[trigger] s.drop_last()[i].1, y) > 0;
        assert(s[i] == s.drop_last()[i]);
    }
}

/// After pruning, names stay distinct, nothing dangles, and every remaining
/// definition is reached from the root and referenced.
pub proof fn lemma_pruned(d: Document, r: Document)
    requires
        unique_names(d.definitions@),
        no_dangling(d),
        pruned(d, r),
    ensures
        unique_names(r.definitions@),
        no_dangling(r),
        all_reachable(r),
        forall|k: int| 0 <= k < r.definitions@.len() ==> refs_in_doc(r, r.definitions@[k].0@) > 0,
        prop_names(r.definitions@).subset_of(prop_names(d.definitions@)),
{
    let s = d.definitions@;
    let rs = r.definitions@;
    lemma_kept(d, s);
    // a reference from a definition the root reaches survives pruning
    assert forall|a: Seq<char>, b: Seq<char>| root_reaches(d, a) && #[trigger] edge(s, a, b) implies edge(rs, a, b) by {
        let i = choose|i: int| 0 <= i < s.len() && s[i].0@ == a && refs_in(s[i].1, b) > 0;
        assert(rs.contains(s[i]));
        let i2 = choose|i2: int| 0 <= i2 < rs.len() && rs[i2] == s[i];
        assert(rs[i2].0@ == a && refs_in(rs[i2].1, b) > 0);
    }
    assert forall|k: int| 0 <= k < rs.len() implies root_reaches(r, #[trigger] rs[k].0@) by {
        let n = rs[k].0@;
        assert(root_reaches(d, n));
        if refs_in(d.root, n) == 0 {
            let x = choose|x: Seq<char>| refs_in(d.root, x) > 0 && #[trigger] reaches(s, x, n);
            let p = choose|p: Seq<Seq<char>>| is_chain(s, p) && p[0] == x && p.last() == n;
            assert forall|j: int| 0 <= j < p.len() - 1 implies #[trigger] edge(rs, p[j], p[j + 1]) by {
                if j == 0 {
                    assert(root_reaches(d, p[0]));
                } else {
                    let q = p.subrange(0, j + 1);
                    assert forall|t: int| 0 <= t < q.len() - 1 implies #[trigger] edge(s, q[t], q[t + 1]) by {
                        assert(q[t] == p[t] && q[t + 1] == p[t + 1]);
                        assert(edge(s, p[t], p[t + 1]));
                    }
                    assert(is_chain(s, q) && q[0] == x && q.last() == p[j]);
                    assert(reaches(s, x, p[j]));
                    assert(root_reaches(d, p[j]));
                }
                assert(edge(s, p[j], p[j + 1]));
            }
            assert(is_chain(rs, p));
            assert(reaches(rs, x, n));
        }
    }
    assert forall|k: int| 0 <= k < rs.len() implies refs_in_doc(r, rs[k].0@) > 0 by {
        let n = rs[k].0@;
        if refs_in(r.root, n) == 0 {
            let x = choose|x: Seq<char>| refs_in(r.root, x) > 0 && #[trigger] reaches(rs, x, n);
            let p = choose|p: Seq<Seq<char>>| is_chain(rs, p) && p[0] == x && p.last() == n;
            let j = p.len() - 2;
            assert(edge(rs, p[j], p[j + 1]));
            let i = choose|i: int| 0 <= i < rs.len() && rs[i].0@ == p[j] && refs_in(rs[i].1, p[j + 1]) > 0;
            lemma_props_member(rs, i, n);
        }
    }
    assert forall|y: Seq<char>| refs_in_doc(r, y) > 0 implies #[trigger] prop_names(rs).contains(y) by {
        if refs_in(r.root, y) > 0 {
            assert(root_reaches(d, y));
        } else {
            lemma_props_some(rs, y);
            let i = choose|i: int| 0 <= i < rs.len() && refs_in(#[trigger] rs[i].1, y) > 0;
            assert(s.contains(rs[i]));
            let j = choose|j: int| 0 <= j < s.len() && s[j] == rs[i];
            assert(edge(s, s[j].0@, y));
            lemma_reach_extend(d, s[j].0@, y);
            lemma_props_member(s, j, y);
        }
        assert(refs_in_doc(d, y) > 0);
        assert(prop_names(s).contains(y));
        let j = choose|j: int| 0 <= j < s.len() && s[j].0@ == y;
        assert(rs.contains(s[j]));
        let i = choose|i: int| 0 <= i < rs.len() && rs[i] == s[j];
        assert(rs[i].0@ == y);
    }
    assert forall|y: Seq<char>| prop_names(rs).contains(y) implies prop_names(s).contains(y) by {
        let i = choose|i: int| 0 <= i < rs.len() && rs[i].0@ == y;
        assert(s.contains(rs[i]));
        let j = choose|j: int| 0 <= j < s.len() && s[j] == rs[i];
        assert(s[j].0@ == y);
    }
}

/// Root reachability carries over to a document with the same definition
/// names, in the same order, whose root and bodies reference the same names.
pub proof fn lemma_reach_transfer(a: Document, b: Document)
    requires
        all_reachable(a),
        b.definitions@.len() == a.definitions@.len(),
        forall|i: int| 0 <= i < a.definitions@.len() ==> b.definitions@[i].0@ == a.definitions@[i].0@,
        forall|x: Seq<char>| #[trigger] refs_in(b.root, x) > 0 <==> refs_in(a.root, x) > 0,
        forall|i: int, x: Seq<char>|
            0 <= i < a.definitions@.len() ==> (#[trigger] refs_in(b.definitions@[i].1, x) > 0 <==> refs_in(
                a.definitions@[i].1,
                x,
            ) > 0),
    ensures
        all_reachable(b),
{
    let sa = a.definitions@;
    let sb = b.definitions@;
    assert forall|x: Seq<char>, y: Seq<char>| #[trigger] edge(sa, x, y) implies edge(sb, x, y) by {
        let i = choose|i: int| 0 <= i < sa.len() && sa[i].0@ == x && refs_in(sa[i].1, y) > 0;
        assert(refs_in(sb[i].1, y) > 0);
    }
    assert forall|k: int| 0 <= k < sb.len() implies root_reaches(b, #[trigger] sb[k].0@) by {
        let n = sb[k].0@;
        assert(n == sa[k].0@);
        assert(root_reaches(a, sa[k].0@));
        if refs_in(a.root, n) == 0 {
            let x = choose|x: Seq<char>| refs_in(a.root, x) > 0 && #[trigger] reaches(sa, x, n);
            let p = choose|p: Seq<Seq<char>>| is_chain(sa, p) && p[0] == x && p.last() == n;
            assert forall|j: int| 0 <= j < p.len() - 1 implies #[trigger] edge(sb, p[j], p[j + 1]) by {
                assert(edge(sa, p[j], p[j + 1]));
            }
            assert(is_chain(sb, p));
            assert(reaches(sb, x, n));
        }
    }
}

proof fn lemma_root_chain_marked(defs: Seq<(String, Schema)>, p: Seq<Seq<char>>, marks: Seq<bool>, m: int)
    requires
        marks.len() == defs.len(),
        is_chain(defs, p),
        1 <= m < p.len(),
        forall|i: int| 0 <= i < defs.len() && defs[i].0@ == p[0] ==> marks[i],
        forall|j: int, t: int|
            0 <= j < defs.len() && 0 <= t < defs.len() && marks[j] && refs_in(defs[j].1, defs[t].0@) > 0 ==> marks[t],
    ensures
        forall|t: int| 0 <= t < defs.len() && defs[t].0@ == p[m] ==> marks[t],
    decreases m,
{
    let jm = m - 1;
    assert(edge(defs, p[jm], p[jm + 1]));
    let src = choose|i: int| 0 <= i < defs.len() && defs[i].0@ == p[jm] && refs_in(defs[i].1, p[jm + 1]) > 0;
    if m > 1 {
        lemma_root_chain_marked(defs, p, marks, m - 1);
    }
    assert(marks[src]);
    assert forall|t: int| 0 <= t < defs.len() && defs[t].0@ == p[m] implies marks[t] by {
        assert(p[jm + 1] == p[m]);
    }
}

/// Marks each definition of `d` that its root reaches.
pub fn reachable_marks(d: &Document) -> (marks: Vec<bool>)
    ensures
        marks@.len() == d.definitions@.len(),
        forall|t: int| 0 <= t < marks@.len() ==> marks@[t] == root_reaches(*d, d.definitions@[t].0@),
{
    let defs = &d.definitions;
    let n = defs.len();
    let mut marks: Vec<bool> = Vec::new();
    let mut i: usize = 0;
    while i < n
        invariant
            n == defs@.len(),
            defs@ == d.definitions@,
            i <= n,
            marks@.len() == i,
            forall|t: int| 0 <= t < i ==> marks@[t] == (refs_in(d.root, defs@[t].0@) > 0),
        decreases n - i,
    {
        let c = count_refs(&d.root, &defs[i].0);
        marks.push(c > 0);
        i = i + 1;
    }
    loop
        invariant
            n == defs@.len(),
            defs@ == d.definitions@,
            marks@.len() == n,
            forall|t: int| 0 <= t < n && refs_in(d.root, defs@[t].0@) > 0 ==> marks@[t],
            forall|t: int| 0 <= t < n && marks@[t] ==> root_reaches(*d, defs@[t].0@),
        ensures
            marks@.len() == n,
            forall|t: int| 0 <= t < n && refs_in(d.root, defs@[t].0@) > 0 ==> marks@[t],
            forall|t: int| 0 <= t < n && marks@[t] ==> root_reaches(*d, defs@[t].0@),
            forall|j: int, t: int|
                0 <= j < n && 0 <= t < n && marks@[j] && refs_in(defs@[j].1, defs@[t].0@) > 0 ==> marks@[t],
        decreases n_false(marks@),
    {
        let ghost before = marks@;
        let mut changed = false;
        let mut j: usize = 0;
        while j < n
            invariant
                n == defs@.len(),
                defs@ == d.definitions@,
                marks@.len() == n,
                j <= n,
                before.len() == n,
                forall|t: int| 0 <= t < n && refs_in(d.root, defs@[t].0@) > 0 ==> before[t],
                forall|t: int| 0 <= t < n && before[t] ==> marks@[t],
                forall|t: int| 0 <= t < n && marks@[t] ==> root_reaches(*d, defs@[t].0@),
                changed ==> n_false(marks@) < n_false(before),
                !changed ==> marks@ == before,
                !changed ==> forall|a: int, t: int|
                    0 <= a < j && 0 <= t < n && marks@[a] && refs_in(defs@[a].1, defs@[t].0@) > 0 ==> marks@[t],
            decreases n - j,
        {
            if marks[j] {
                let mut t: usize = 0;
                while t < n
                    invariant
                        n == defs@.len(),
                        defs@ == d.definitions@,
                        marks@.len() == n,
                        j < n,
                        t <= n,
                        marks@[j as int],
                        before.len() == n,
                        forall|u: int| 0 <= u < n && refs_in(d.root, defs@[u].0@) > 0 ==> before[u],
                        forall|u: int| 0 <= u < n && before[u] ==> marks@[u],
                        forall|u: int| 0 <= u < n && marks@[u] ==> root_reaches(*d, defs@[u].0@),
                        changed ==> n_false(marks@) < n_false(before),
                        !changed ==> marks@ == before,
                        !changed ==> forall|a: int, u: int|
                            0 <= a < j && 0 <= u < n && marks@[a] && refs_in(defs@[a].1, defs@[u].0@) > 0 ==> marks@[u],
                        !changed ==> forall|u: int|
                            0 <= u < t && refs_in(defs@[j as int].1, defs@[u].0@) > 0 ==> marks@[u],
                    decreases n - t,
                {
                    if !marks[t] {
                        let c = count_refs(&defs[j].1, &defs[t].0);
                        if c > 0 {
                            proof {
                                assert(edge(defs@, defs@[j as int].0@, defs@[t as int].0@));
                                lemma_reach_extend(*d, defs@[j as int].0@, defs@[t as int].0@);
                                lemma_n_false_mark(marks@, t as int);
                            }
                            marks.set(t, true);
                            changed = true;
                        }
                    }
                    t = t + 1;
                }
            }
            j = j + 1;
        }
        assert forall|t: int| 0 <= t < n && refs_in(d.root, defs@[t].0@) > 0 implies marks@[t] by {
            assert(before[t]);
        }
        if !changed {
            break;
        }
    }
    proof {
        assert forall|t: int| 0 <= t < n && root_reaches(*d, defs@[t].0@) implies marks@[t] by {
            if refs_in(d.root, defs@[t].0@) == 0 {
                let x = choose|x: Seq<char>| refs_in(d.root, x) > 0 && #[trigger] reaches(defs@, x, defs@[t].0@);
                let p = choose|p: Seq<Seq<char>>| is_chain(defs@, p) && p[0] == x && p.last() == defs@[t].0@;
                lemma_root_chain_marked(defs@, p, marks@, p.len() - 1);
            }
        }
    }
    marks
}

/// Drops every definition that the root does not reach, keeping the order
/// of the others.
pub fn prune(d: Document) -> (r: Document)
    ensures
        pruned(d, r),
{
    let marks = reachable_marks(&d);
    let ghost d0 = d;
    let Document { root, definitions } = d;
    let ghost orig = definitions@;
    let mut rest = definitions;
    let mut out: Vec<(String, Schema)> = Vec::new();
    let mut i: usize = 0;
    let n = rest.len();
    proof {
        assert(orig.subrange(0, 0) =~= Seq::<(String, Schema)>::empty());
    }
    while rest.len() > 0
        invariant
            orig == d0.definitions@,
            orig.len() == n,
            marks@.len() == n,
            forall|t: int| 0 <= t < n ==> marks@[t] == root_reaches(d0, orig[t].0@),
            i + rest@.len() == n,
            rest@ == orig.subrange(i as int, n as int),
            out@ == kept(d0, orig.subrange(0, i as int)),
        decreases rest@.len(),
    {
        let e = rest.remove(0);
        proof {
            assert(e == orig[i as int]);
            assert(orig.subrange(0, i as int + 1).drop_last() =~= orig.subrange(0, i as int));
        }
        if marks[i] {
            out.push(e);
        }
        i = i + 1;
    }
    proof {
        assert(orig.subrange(0, n as int) =~= orig);
    }
    Document { root, definitions: out }
}

} // verus!
