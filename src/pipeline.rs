use vstd::prelude::*;
use crate::count::{capped, count_refs, count_refs_props, lemma_capped_add};
use crate::cycle::{
    edge, is_chain, is_self_referential, lemma_chain_carries, lemma_cycle_members_reach_themselves,
    self_reaching, unique_names,
};
use crate::inline::{
    substituted,
    lemma_props_remove, lemma_substituted_props, lemma_substituted_refs, substitute,
    substitute_props,
};
use crate::merge::{equivalent_shape, merge_schemas, merged_doc};
use crate::strict::{doc_strictened, enforce_strictness, lemma_strictened_refs, lemma_strictness_keeps_references};
use crate::validate::{SchemaError, validate};
use crate::reach::{all_reachable, lemma_pruned, lemma_reach_transfer, prune, pruned};
use crate::schema::{Document, Schema, lemma_props_member, no_dangling, prop_names, refs_in, refs_in_doc, refs_in_props};

verus! {

proof fn lemma_names_remove(s: Seq<(String, Schema)>, k: int)
    requires
        0 <= k < s.len(),
        unique_names(s),
    ensures
        prop_names(s.remove(k)) == prop_names(s).remove(s[k].0@),
        unique_names(s.remove(k)),
{
    let r = s.remove(k);
    assert forall|x: Seq<char>| prop_names(r).contains(x) implies prop_names(s).remove(s[k].0@).contains(x) by {
        let i = choose|i: int| 0 <= i < r.len() && r[i].0@ == x;
        if i < k {
            assert(s[i].0@ == x);
        } else {
            assert(s[i + 1].0@ == x);
        }
    }
    assert forall|x: Seq<char>| prop_names(s).remove(s[k].0@).contains(x) implies prop_names(r).contains(x) by {
        let i = choose|i: int| 0 <= i < s.len() && s[i].0@ == x;
        if i < k {
            assert(r[i].0@ == x);
        } else {
            assert(i != k);
            assert(r[i - 1].0@ == x);
        }
    }
    assert(prop_names(r) =~= prop_names(s).remove(s[k].0@));
    assert forall|i: int, j: int| 0 <= i < r.len() && 0 <= j < r.len() && i != j implies r[i].0@ != r[j].0@ by {
        let i2 = if i < k { i } else { i + 1 };
        let j2 = if j < k { j } else { j + 1 };
        assert(r[i] == s[i2] && r[j] == s[j2]);
    }
}

/// Number of references to `name` in `root` and in the bodies of `defs`.
fn count_in_doc(root: &Schema, defs: &Vec<(String, Schema)>, name: &String) -> (r: u64)
    ensures
        r == capped(refs_in(*root, name@) + refs_in_props(defs@, name@)),
{
    let a = count_refs(root, name);
    let b = count_refs_props(defs, name);
    proof {
        lemma_capped_add(refs_in(*root, name@), refs_in_props(defs@, name@));
    }
    a.saturating_add(b)
}

/// The definition at `k` may be inlined: it is referenced exactly once in
/// the document and does not reach itself through references.
pub open spec fn inlinable(d: Document, k: int) -> bool {
    &&& refs_in_doc(d, d.definitions@[k].0@) == 1
    &&& !self_reaching(d.definitions@, d.definitions@[k].0@)
}

/// Finds the first definition that may be inlined.
fn find_inlinable(doc: &Document) -> (r: Option<usize>)
    requires
        unique_names(doc.definitions@),
    ensures
        r matches Some(k) ==> k < doc.definitions@.len() && inlinable(*doc, k as int) && forall|j: int|
            0 <= j < k ==> !inlinable(*doc, j),
        r is None ==> forall|k: int| 0 <= k < doc.definitions@.len() ==> !inlinable(*doc, k),
{
    let mut k: usize = 0;
    while k < doc.definitions.len()
        invariant
            unique_names(doc.definitions@),
            k <= doc.definitions@.len(),
            forall|j: int| 0 <= j < k ==> !inlinable(*doc, j),
        decreases doc.definitions@.len() - k,
    {
        let c = count_in_doc(&doc.root, &doc.definitions, &doc.definitions[k].0);
        if c == 1 {
            if !is_self_referential(&doc.definitions, k) {
                return Some(k);
            }
        }
        k = k + 1;
    }
    None
}

/// Finds the first definition that nothing references.
fn find_unused(doc: &Document) -> (r: Option<usize>)
    ensures
        r matches Some(k) ==> k < doc.definitions@.len() && refs_in_doc(*doc, doc.definitions@[k as int].0@) == 0
            && forall|j: int| 0 <= j < k ==> refs_in_doc(*doc, doc.definitions@[j].0@) > 0,
        r is None ==> forall|k: int|
            0 <= k < doc.definitions@.len() ==> refs_in_doc(*doc, doc.definitions@[k].0@) > 0,
{
    let mut k: usize = 0;
    while k < doc.definitions.len()
        invariant
            k <= doc.definitions@.len(),
            forall|j: int| 0 <= j < k ==> refs_in_doc(*doc, doc.definitions@[j].0@) > 0,
        decreases doc.definitions@.len() - k,
    {
        let c = count_in_doc(&doc.root, &doc.definitions, &doc.definitions[k].0);
        if c == 0 {
            return Some(k);
        }
        k = k + 1;
    }
    None
}

/// `b` is `a` with the definition at `k` inlined: that definition is the
/// first one that may be inlined, its single reference is replaced by its body (in the root or in
/// another definition), and it leaves the table, whose other names and order
/// are kept.
pub open spec fn inline_step(a: Document, b: Document, k: int) -> bool {
    let name = a.definitions@[k].0@;
    let body = a.definitions@[k].1;
    let rest = a.definitions@.remove(k);
    &&& 0 <= k < a.definitions@.len()
    &&& inlinable(a, k)
    &&& forall|j: int| 0 <= j < k ==> !inlinable(a, j)
    &&& substituted(a.root, b.root, name, body)
    &&& b.definitions@.len() == rest.len()
    &&& forall|i: int|
        0 <= i < rest.len() ==> b.definitions@[i].0 == rest[i].0 && substituted(
            rest[i].1,
            b.definitions@[i].1,
            name,
            body,
        )
}

/// `b` is `a` without the definition at `k`, the first one that nothing
/// references.
pub open spec fn removal_step(a: Document, b: Document, k: int) -> bool {
    &&& 0 <= k < a.definitions@.len()
    &&& refs_in_doc(a, a.definitions@[k].0@) == 0
    &&& forall|j: int| 0 <= j < k ==> refs_in_doc(a, a.definitions@[j].0@) > 0
    &&& b.root == a.root
    &&& b.definitions@ == a.definitions@.remove(k)
}

/// Each document of `t` comes from the one before by inlining the
/// definition at the matching index of `ks`.
pub open spec fn inline_trace(t: Seq<Document>, ks: Seq<int>) -> bool {
    &&& ks.len() + 1 == t.len()
    &&& forall|i: int| 0 <= i < ks.len() ==> #[trigger] inline_step(t[i], t[i + 1], ks[i])
}

/// Each document of `t` comes from the one before by removing the
/// definition at the matching index of `ks`.
pub open spec fn removal_trace(t: Seq<Document>, ks: Seq<int>) -> bool {
    &&& ks.len() + 1 == t.len()
    &&& forall|i: int| 0 <= i < ks.len() ==> #[trigger] removal_step(t[i], t[i + 1], ks[i])
}

/// `r` is what the inlining pass makes of `doc`: the definitions the root
/// does not reach are dropped, then inlining steps run until no definition
/// may be inlined, then removal steps until every definition is referenced,
/// and last the definitions the root no longer reaches are dropped.
pub open spec fn inlined(doc: Document, r: Document) -> bool {
    exists|p0: Document, t1: Seq<Document>, k1: Seq<int>, t2: Seq<Document>, k2: Seq<int>|
        {
            &&& pruned(doc, p0)
            &&& t1.len() >= 1 && t1[0] == p0 && inline_trace(t1, k1)
            &&& forall|k: int| 0 <= k < t1.last().definitions@.len() ==> !inlinable(t1.last(), k)
            &&& t2.len() >= 1 && t2[0] == t1.last() && removal_trace(t2, k2)
            &&& forall|k: int| 0 <= k < t2.last().definitions@.len() ==> refs_in_doc(t2.last(), t2.last().definitions@[k].0@) > 0
            &&& pruned(t2.last(), r)
        }
}

proof fn lemma_inline_trace_push(t: Seq<Document>, ks: Seq<int>, d: Document, k: int)
    requires
        t.len() >= 1,
        inline_trace(t, ks),
        inline_step(t.last(), d, k),
    ensures
        inline_trace(t.push(d), ks.push(k)),
{
    let u = t.push(d);
    let ku = ks.push(k);
    assert forall|i: int| 0 <= i < ku.len() implies #[trigger] inline_step(u[i], u[i + 1], ku[i]) by {
        if i < ks.len() {
            assert(inline_step(t[i], t[i + 1], ks[i]));
        }
    }
}

proof fn lemma_removal_trace_push(t: Seq<Document>, ks: Seq<int>, d: Document, k: int)
    requires
        t.len() >= 1,
        removal_trace(t, ks),
        removal_step(t.last(), d, k),
    ensures
        removal_trace(t.push(d), ks.push(k)),
{
    let u = t.push(d);
    let ku = ks.push(k);
    assert forall|i: int| 0 <= i < ku.len() implies #[trigger] removal_step(u[i], u[i + 1], ku[i]) by {
        if i < ks.len() {
            assert(removal_step(t[i], t[i + 1], ks[i]));
        }
    }
}

/// Replaces the single reference to the definition at `k` by that
/// definition's body, and removes the definition from the table.
fn inline_at(doc: Document, k: usize) -> (r: Document)
    requires
        k < doc.definitions@.len(),
        unique_names(doc.definitions@),
        inlinable(doc, k as int),
        forall|j: int| 0 <= j < k ==> !inlinable(doc, j),
    ensures
        r.definitions@.len() + 1 == doc.definitions@.len(),
        unique_names(r.definitions@),
        prop_names(r.definitions@) == prop_names(doc.definitions@).remove(doc.definitions@[k as int].0@),
        forall|x: Seq<char>|
            #![trigger refs_in_doc(r, x)]
            refs_in_doc(r, x) == if x == doc.definitions@[k as int].0@ { 0 } else { refs_in_doc(doc, x) },
        forall|i: int|
            0 <= i < r.definitions@.len() ==> r.definitions@[i].0 == doc.definitions@.remove(k as int)[i].0,
        inline_step(doc, r, k as int),
        forall|i: int, x: Seq<char>|
            0 <= i < r.definitions@.len() && x != doc.definitions@[k as int].0@ ==> #[trigger] refs_in(
                r.definitions@[i].1,
                x,
            ) >= refs_in(doc.definitions@.remove(k as int)[i].1, x),
{
    let ghost d0 = doc;
    let Document { root, definitions } = doc;
    let ghost defs0 = definitions@;
    let mut definitions = definitions;
    let (name, body) = definitions.remove(k);
    let ghost gb = body;
    let ghost rest = definitions@;
    proof {
        assert(rest == defs0.remove(k as int));
        lemma_names_remove(defs0, k as int);
        lemma_props_remove(defs0, k as int, name@);
        let p = seq![name@, name@];
        if refs_in(body, name@) > 0 {
            assert(defs0[k as int].0@ == p[0] && refs_in(defs0[k as int].1, p[0int + 1]) > 0);
            assert(crate::cycle::is_chain(defs0, p) && p[0] == name@ && p.last() == name@);
            assert(self_reaching(defs0, name@));
        }
        assert(refs_in(gb, name@) == 0);
        assert(refs_in(root, name@) + refs_in_props(rest, name@) == 1);
    }
    let mut slot = Some(body);
    let root2 = substitute(root, &name, &mut slot, Ghost(gb));
    let defs2 = substitute_props(definitions, &name, &mut slot, Ghost(gb));
    let r = Document { root: root2, definitions: defs2 };
    proof {
        assert(prop_names(defs2@) =~= prop_names(rest)) by {
            assert forall|x: Seq<char>| prop_names(defs2@).contains(x) implies prop_names(rest).contains(x) by {
                let i = choose|i: int| 0 <= i < defs2@.len() && defs2@[i].0@ == x;
                assert(rest[i].0@ == x);
            }
            assert forall|x: Seq<char>| prop_names(rest).contains(x) implies prop_names(defs2@).contains(x) by {
                let i = choose|i: int| 0 <= i < rest.len() && rest[i].0@ == x;
                assert(defs2@[i].0@ == x);
            }
        }
        assert forall|i: int, j: int|
            0 <= i < defs2@.len() && 0 <= j < defs2@.len() && i != j implies defs2@[i].0@ != defs2@[j].0@ by {
            assert(defs2@[i].0 == rest[i].0 && defs2@[j].0 == rest[j].0);
        }
        assert forall|x: Seq<char>|
            #![trigger refs_in_doc(r, x)]
            refs_in_doc(r, x) == if x == name@ { 0 } else { refs_in_doc(d0, x) } by {
            lemma_substituted_refs(root, root2, name@, gb, x);
            lemma_substituted_props(rest, defs2@, name@, gb, x);
            lemma_props_remove(defs0, k as int, x);
            let hb = refs_in(gb, x) as int;
            let hr = refs_in(root, name@) as int;
            let hp = refs_in_props(rest, name@) as int;
            assert(hr + hp == 1);
            assert(hr * hb + hp * hb == hb) by (nonlinear_arith)
                requires
                    hr + hp == 1,
            ;
        }
        assert forall|i: int, x: Seq<char>|
            0 <= i < defs2@.len() && x != name@ implies #[trigger] refs_in(defs2@[i].1, x) >= refs_in(rest[i].1, x) by {
            lemma_substituted_refs(rest[i].1, defs2@[i].1, name@, gb, x);
            let h = refs_in(rest[i].1, name@) as int;
            let hb = refs_in(gb, x) as int;
            assert(h * hb >= 0) by (nonlinear_arith)
                requires
                    h >= 0,
                    hb >= 0,
            ;
        }
    }
    r
}

/// Drops the definitions that the root does not reach, inlines every
/// definition that is referenced exactly once and does not reach itself,
/// then drops every definition that nothing references or that the root no
/// longer reaches. A definition that reaches itself through references is
/// never inlined.
pub fn inline_single_use_references(doc: Document) -> (r: Document)
    requires
        unique_names(doc.definitions@),
        no_dangling(doc),
    ensures
        unique_names(r.definitions@),
        no_dangling(r),
        prop_names(r.definitions@).subset_of(prop_names(doc.definitions@)),
        forall|k: int| 0 <= k < r.definitions@.len() ==> refs_in_doc(r, r.definitions@[k].0@) > 0,
        all_reachable(r),
        inlined(doc, r),
{
    let p0 = prune(doc);
    proof {
        lemma_pruned(doc, p0);
    }
    let ghost g0 = p0;
    let mut d = p0;
    let ghost mut t1: Seq<Document> = seq![p0];
    let ghost mut k1: Seq<int> = Seq::empty();
    loop
        invariant
            unique_names(d.definitions@),
            no_dangling(d),
            prop_names(d.definitions@).subset_of(prop_names(doc.definitions@)),
            forall|n: Seq<char>| self_reaching(g0.definitions@, n) ==> #[trigger] self_reaching(d.definitions@, n),
            t1.len() >= 1,
            t1[0] == g0,
            t1.last() == d,
            inline_trace(t1, k1),
        ensures
            unique_names(d.definitions@),
            no_dangling(d),
            prop_names(d.definitions@).subset_of(prop_names(doc.definitions@)),
            forall|n: Seq<char>| self_reaching(g0.definitions@, n) ==> #[trigger] self_reaching(d.definitions@, n),
            forall|k: int| 0 <= k < d.definitions@.len() ==> !inlinable(d, k),
            t1.len() >= 1,
            t1[0] == g0,
            t1.last() == d,
            inline_trace(t1, k1),
        decreases d.definitions@.len(),
    {
        match find_inlinable(&d) {
            Some(k) => {
                let ghost d0 = d;
                d = inline_at(d, k);
                proof {
                    
                    lemma_inline_trace_push(t1, k1, d, k as int);
                    t1 = t1.push(d);
                    k1 = k1.push(k as int);
                    assert forall|x: Seq<char>| refs_in_doc(d, x) > 0 implies #[trigger] prop_names(
                        d.definitions@,
                    ).contains(x) by {
                        assert(refs_in_doc(d0, x) > 0);
                        assert(prop_names(d0.definitions@).contains(x));
                    }
                    let e = d0.definitions@[k as int].0@;
                    let rest = d0.definitions@.remove(k as int);
                    assert forall|x: Seq<char>, y: Seq<char>|
                        x != e && y != e && #[trigger] edge(d0.definitions@, x, y) implies edge(d.definitions@, x, y) by {
                        let i = choose|i: int|
                            0 <= i < d0.definitions@.len() && d0.definitions@[i].0@ == x && refs_in(d0.definitions@[i].1, y) > 0;
                        assert(i != k);
                        let i2: int = if i < k { i } else { i - 1 };
                        assert(rest[i2] == d0.definitions@[i]);
                        assert(refs_in(d.definitions@[i2].1, y) >= refs_in(rest[i2].1, y));
                        assert(d.definitions@[i2].0@ == x);
                    }
                    assert forall|n: Seq<char>| self_reaching(g0.definitions@, n) implies #[trigger] self_reaching(
                        d.definitions@,
                        n,
                    ) by {
                        assert(self_reaching(d0.definitions@, n));
                        let p = choose|p: Seq<Seq<char>>| is_chain(d0.definitions@, p) && p[0] == n && p.last() == n;
                        assert forall|j: int| 0 <= j < p.len() implies p[j] != e by {
                            lemma_cycle_members_reach_themselves(d0.definitions@, p, j);
                        }
                        lemma_chain_carries(d0.definitions@, d.definitions@, p, e);
                    }
                }
            },
            None => {
                break;
            },
        }
    }
    let ghost mid = d;
    let ghost mut t2: Seq<Document> = seq![d];
    let ghost mut k2: Seq<int> = Seq::empty();
    loop
        invariant
            unique_names(d.definitions@),
            no_dangling(d),
            prop_names(d.definitions@).subset_of(prop_names(doc.definitions@)),
            forall|n: Seq<char>| self_reaching(g0.definitions@, n) ==> #[trigger] self_reaching(d.definitions@, n),
            t2.len() >= 1,
            t2[0] == mid,
            t2.last() == d,
            removal_trace(t2, k2),
        ensures
            t2.len() >= 1,
            t2[0] == mid,
            t2.last() == d,
            removal_trace(t2, k2),
            unique_names(d.definitions@),
            no_dangling(d),
            prop_names(d.definitions@).subset_of(prop_names(doc.definitions@)),
            forall|n: Seq<char>| self_reaching(g0.definitions@, n) ==> #[trigger] self_reaching(d.definitions@, n),
            forall|k: int| 0 <= k < d.definitions@.len() ==> refs_in_doc(d, d.definitions@[k].0@) > 0,
        decreases d.definitions@.len(),
    {
        match find_unused(&d) {
            Some(k) => {
                let ghost d0 = d;
                let Document { root, definitions } = d;
                let mut definitions = definitions;
                let _ = definitions.remove(k);
                d = Document { root, definitions };
                proof {
                    assert(removal_step(d0, d, k as int));
                    lemma_removal_trace_push(t2, k2, d, k as int);
                    t2 = t2.push(d);
                    k2 = k2.push(k as int);
                    lemma_names_remove(d0.definitions@, k as int);
                    assert forall|x: Seq<char>| refs_in_doc(d, x) > 0 implies #[trigger] prop_names(
                        d.definitions@,
                    ).contains(x) by {
                        lemma_props_remove(d0.definitions@, k as int, x);
                        assert(refs_in_doc(d0, x) > 0);
                    }
                    let e = d0.definitions@[k as int].0@;
                    assert forall|x: Seq<char>, y: Seq<char>|
                        x != e && y != e && #[trigger] edge(d0.definitions@, x, y) implies edge(d.definitions@, x, y) by {
                        let i = choose|i: int|
                            0 <= i < d0.definitions@.len() && d0.definitions@[i].0@ == x && refs_in(d0.definitions@[i].1, y) > 0;
                        let i2: int = if i < k { i } else { i - 1 };
                        assert(d.definitions@[i2] == d0.definitions@[i]);
                    }
                    assert forall|n: Seq<char>| self_reaching(g0.definitions@, n) implies #[trigger] self_reaching(
                        d.definitions@,
                        n,
                    ) by {
                        assert(self_reaching(d0.definitions@, n));
                        let p = choose|p: Seq<Seq<char>>| is_chain(d0.definitions@, p) && p[0] == n && p.last() == n;
                        assert forall|j: int| 0 <= j < p.len() implies p[j] != e by {
                            if p[j] == e {
                                let jj: int = if j == 0 { p.len() - 1 } else { j };
                                let pj: int = jj - 1;
                                assert(edge(d0.definitions@, p[pj], p[pj + 1]));
                                let i = choose|i: int|
                                    0 <= i < d0.definitions@.len() && d0.definitions@[i].0@ == p[pj] && refs_in(
                                        d0.definitions@[i].1,
                                        e,
                                    ) > 0;
                                lemma_props_member(d0.definitions@, i, e);
                            }
                        }
                        lemma_chain_carries(d0.definitions@, d.definitions@, p, e);
                    }
                }
            },
            None => {
                break;
            },
        }
    }
    proof {
        assert(forall|k: int| 0 <= k < t1.last().definitions@.len() ==> !inlinable(t1.last(), k));
    }
    let ghost last = d;
    let r = prune(d);
    proof {
        lemma_pruned(last, r);
    }
    r
}

/// The document `d` is compact: its definitions have distinct names, every
/// reference resolves, and every definition is referenced and reached from
/// the root.
pub open spec fn compact(d: Document) -> bool {
    &&& all_reachable(d)
    &&& unique_names(d.definitions@)
    &&& no_dangling(d)
    &&& forall|k: int| 0 <= k < d.definitions@.len() ==> refs_in_doc(d, d.definitions@[k].0@) > 0
}

/// Checks the document, then runs the inlining, merge and strictness passes
/// in that order.
pub fn normalize(doc: Document) -> (r: Result<Document, SchemaError>)
    ensures
        r is Ok <==> unique_names(doc.definitions@) && no_dangling(doc),
        r matches Err(SchemaError::DuplicateDefinition(n)) ==> exists|i: int, j: int|
            0 <= i < j < doc.definitions@.len() && doc.definitions@[i].0@ == n@ && doc.definitions@[j].0@ == n@,
        r matches Err(SchemaError::DanglingReference(n, scope)) ==> refs_in_doc(doc, n@) > 0
            && !prop_names(doc.definitions@).contains(n@),
        r matches Err(SchemaError::DanglingReference(n, scope)) ==> match scope {
            None => refs_in(doc.root, n@) > 0,
            Some(dn) => exists|k: int|
                0 <= k < doc.definitions@.len() && doc.definitions@[k].0@ == dn@ && refs_in(
                    doc.definitions@[k].1,
                    n@,
                ) > 0,
        },
        r matches Ok(out) ==> compact(out) && prop_names(out.definitions@).subset_of(prop_names(doc.definitions@)),
        r matches Ok(out) ==> exists|a: Document, b: Document|
            inlined(doc, a) && compact(a) && merged_doc(a, b) && compact(b) && doc_strictened(b, out),
{
    match validate(&doc) {
        Err(e) => Err(e),
        Ok(()) => {
            let a = inline_single_use_references(doc);
            let ghost ga = a;
            let b = merge_schemas(a);
            let ghost gb = b;
            proof {
                assert forall|i: int, x: Seq<char>|
                    0 <= i < ga.definitions@.len() implies (#[trigger] refs_in(gb.definitions@[i].1, x) > 0 <==> refs_in(
                        ga.definitions@[i].1,
                        x,
                    ) > 0) by {
                    assert(equivalent_shape(ga.definitions@[i].1, gb.definitions@[i].1));
                }
                lemma_reach_transfer(ga, gb);
                assert forall|x: Seq<char>| #[trigger] refs_in_doc(gb, x) > 0 <==> refs_in_doc(ga, x) > 0 by {
                    assert(refs_in(gb.root, x) > 0 <==> refs_in(ga.root, x) > 0);
                    assert(refs_in_props(gb.definitions@, x) > 0 <==> refs_in_props(ga.definitions@, x) > 0);
                }
                assert forall|x: Seq<char>| refs_in_doc(gb, x) > 0 implies #[trigger] prop_names(gb.definitions@).contains(x) by {
                    assert(refs_in_doc(ga, x) > 0);
                }
                assert forall|i: int, j: int|
                    0 <= i < gb.definitions@.len() && 0 <= j < gb.definitions@.len() && i != j implies
                    gb.definitions@[i].0@ != gb.definitions@[j].0@ by {
                    assert(gb.definitions@[i].0 == ga.definitions@[i].0);
                    assert(gb.definitions@[j].0 == ga.definitions@[j].0);
                }
                assert forall|k: int| 0 <= k < gb.definitions@.len() implies refs_in_doc(gb, gb.definitions@[k].0@) > 0 by {
                    assert(gb.definitions@[k].0 == ga.definitions@[k].0);
                    assert(refs_in_doc(ga, ga.definitions@[k].0@) > 0);
                }
            }
            let out = enforce_strictness(b);
            proof {
                assert(inlined(doc, ga) && compact(ga) && merged_doc(ga, gb) && compact(gb) && doc_strictened(gb, out));
                lemma_strictness_keeps_references(gb, out);
                assert forall|x: Seq<char>| #[trigger] refs_in(out.root, x) > 0 <==> refs_in(gb.root, x) > 0 by {
                    lemma_strictened_refs(gb.root, out.root, Set::empty(), x);
                }
                assert forall|i: int, x: Seq<char>|
                    0 <= i < gb.definitions@.len() implies (#[trigger] refs_in(out.definitions@[i].1, x) > 0 <==> refs_in(
                        gb.definitions@[i].1,
                        x,
                    ) > 0) by {
                    lemma_strictened_refs(gb.definitions@[i].1, out.definitions@[i].1, Set::empty(), x);
                }
                lemma_reach_transfer(gb, out);
                assert forall|x: Seq<char>| refs_in_doc(out, x) > 0 implies #[trigger] prop_names(out.definitions@).contains(x) by {
                    assert(refs_in_doc(gb, x) > 0);
                }
                assert forall|i: int, j: int|
                    0 <= i < out.definitions@.len() && 0 <= j < out.definitions@.len() && i != j implies
                    out.definitions@[i].0@ != out.definitions@[j].0@ by {
                    assert(out.definitions@[i].0 == gb.definitions@[i].0);
                    assert(out.definitions@[j].0 == gb.definitions@[j].0);
                }
                assert forall|k: int| 0 <= k < out.definitions@.len() implies refs_in_doc(out, out.definitions@[k].0@) > 0 by {
                    assert(out.definitions@[k].0 == gb.definitions@[k].0);
                    assert(refs_in_doc(gb, gb.definitions@[k].0@) > 0);
                }
            }
            Ok(out)
        },
    }
}

/// Cycle safety: an inlining step never inlines a definition that references
/// itself, directly or through a chain of definitions, and such a definition
/// still references itself afterwards, so no later step inlines it either.
/// The step replaces only references to the inlined definition, so every
/// reference to the self-referencing one stays a reference.
pub proof fn lemma_inline_step_keeps_cycles(a: Document, b: Document, k: int, n: Seq<char>)
    requires
        inline_step(a, b, k),
        unique_names(a.definitions@),
        self_reaching(a.definitions@, n),
    ensures
        a.definitions@[k].0@ != n,
        self_reaching(b.definitions@, n),
{
    let e = a.definitions@[k].0@;
    let body = a.definitions@[k].1;
    let rest = a.definitions@.remove(k);
    assert forall|x: Seq<char>, y: Seq<char>|
        x != e && y != e && #[trigger] edge(a.definitions@, x, y) implies edge(b.definitions@, x, y) by {
        let i = choose|i: int|
            0 <= i < a.definitions@.len() && a.definitions@[i].0@ == x && refs_in(a.definitions@[i].1, y) > 0;
        assert(i != k);
        let i2: int = if i < k { i } else { i - 1 };
        assert(rest[i2] == a.definitions@[i]);
        lemma_substituted_refs(rest[i2].1, b.definitions@[i2].1, e, body, y);
        let h = refs_in(rest[i2].1, e) as int;
        let hb = refs_in(body, y) as int;
        assert(h * hb >= 0) by (nonlinear_arith)
            requires
                h >= 0,
                hb >= 0,
        ;
        assert(b.definitions@[i2].0@ == x);
    }
    let p = choose|p: Seq<Seq<char>>| is_chain(a.definitions@, p) && p[0] == n && p.last() == n;
    assert forall|j: int| 0 <= j < p.len() implies p[j] != e by {
        lemma_cycle_members_reach_themselves(a.definitions@, p, j);
    }
    lemma_chain_carries(a.definitions@, b.definitions@, p, e);
    assert(is_chain(b.definitions@, p) && p[0] == n && p.last() == n);
}

} // verus!
