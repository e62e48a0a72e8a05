use vstd::prelude::*;
use crate::schema::{
    Policy, Schema, evaluated, evaluated_seq, prop_names, refs_in, refs_in_props,
    refs_in_seq,
};

verus! {

/// The two sequences of strings hold the same strings in the same order.
pub open spec fn same_names(v: Seq<String>, w: Seq<String>) -> bool {
    &&& v.len() == w.len()
    &&& forall|i: int| 0 <= i < v.len() ==> v[i]@ == w[i]@
}

/// `a` and `b` are structurally identical schemas.
pub open spec fn same(a: Schema, b: Schema) -> bool
    decreases a,
{
    match a {
        Schema::Reference(x) => b is Reference && x@ == b->Reference_0@,
        Schema::Leaf(x) => b is Leaf && x@ == b->Leaf_0@,
        Schema::Object(p) => match b {
            Schema::Object(q) => {
                &&& p.properties@.len() == q.properties@.len()
                &&& forall|i: int|
                    0 <= i < p.properties@.len() ==> p.properties@[i].0@ == q.properties@[i].0@
                        && same(p.properties@[i].1, q.properties@[i].1)
                &&& same_names(p.required@, q.required@)
                &&& match p.additional {
                    Policy::Absent => q.additional is Absent,
                    Policy::Allowed => q.additional is Allowed,
                    Policy::Forbidden => q.additional is Forbidden,
                    Policy::Constrained(c) => q.additional is Constrained && same(
                        *c,
                        *q.additional->Constrained_0,
                    ),
                    Policy::RejectUnevaluated(v) => q.additional is RejectUnevaluated && same_names(
                        v@,
                        q.additional->RejectUnevaluated_0@,
                    ),
                }
                &&& p.all_of@.len() == q.all_of@.len()
                &&& forall|i: int| 0 <= i < p.all_of@.len() ==> same(p.all_of@[i], q.all_of@[i])
                &&& p.one_of@.len() == q.one_of@.len()
                &&& forall|i: int| 0 <= i < p.one_of@.len() ==> same(p.one_of@[i], q.one_of@[i])
                &&& p.any_of@.len() == q.any_of@.len()
                &&& forall|i: int| 0 <= i < p.any_of@.len() ==> same(p.any_of@[i], q.any_of@[i])
            },
            _ => false,
        },
    }
}

pub proof fn lemma_same_keeps(a: Schema, b: Schema, x: Seq<char>)
    requires
        same(a, b),
    ensures
        refs_in(a, x) == refs_in(b, x),
        evaluated(a) == evaluated(b),
    decreases a,
{
    match a {
        Schema::Object(p) => {
            let q = b->Object_0;
            lemma_same_props(p.properties@, q.properties@, x);
            match p.additional {
                Policy::Constrained(c) => {
                    lemma_same_keeps(*c, *q.additional->Constrained_0, x);
                },
                _ => {},
            }
            lemma_same_seq(p.all_of@, q.all_of@, x);
            lemma_same_seq(p.one_of@, q.one_of@, x);
            lemma_same_seq(p.any_of@, q.any_of@, x);
        },
        _ => {},
    }
}

proof fn lemma_same_seq(a: Seq<Schema>, b: Seq<Schema>, x: Seq<char>)
    requires
        a.len() == b.len(),
        forall|i: int| 0 <= i < a.len() ==> same(a[i], b[i]),
    ensures
        refs_in_seq(a, x) == refs_in_seq(b, x),
        evaluated_seq(a) == evaluated_seq(b),
    decreases a,
{
    if a.len() > 0 {
        lemma_same_seq(a.drop_last(), b.drop_last(), x);
        lemma_same_keeps(a.last(), b.last(), x);
    }
}

proof fn lemma_same_props(a: Seq<(String, Schema)>, b: Seq<(String, Schema)>, x: Seq<char>)
    requires
        a.len() == b.len(),
        forall|i: int| 0 <= i < a.len() ==> a[i].0@ == b[i].0@ && same(a[i].1, b[i].1),
    ensures
        refs_in_props(a, x) == refs_in_props(b, x),
        prop_names(a) == prop_names(b),
    decreases a,
{
    if a.len() > 0 {
        lemma_same_props(a.drop_last(), b.drop_last(), x);
        lemma_same_keeps(a.last().1, b.last().1, x);
    }
    assert forall|n: Seq<char>| prop_names(a).contains(n) implies prop_names(b).contains(n) by {
        let i = choose|i: int| 0 <= i < a.len() && a[i].0@ == n;
        assert(b[i].0@ == n);
    }
    assert forall|n: Seq<char>| prop_names(b).contains(n) implies prop_names(a).contains(n) by {
        let i = choose|i: int| 0 <= i < b.len() && b[i].0@ == n;
        assert(a[i].0@ == n);
    }
    assert(prop_names(a) =~= prop_names(b));
}

/// Compares two sequences of strings.
pub fn same_names_exec(v: &Vec<String>, w: &Vec<String>) -> (r: bool)
    ensures
        r == same_names(v@, w@),
{
    if v.len() != w.len() {
        return false;
    }
    let mut i: usize = 0;
    while i < v.len()
        invariant
            v@.len() == w@.len(),
            i <= v@.len(),
            forall|j: int| 0 <= j < i ==> v@[j]@ == w@[j]@,
        decreases v@.len() - i,
    {
        if !v[i].eq(&w[i]) {
            return false;
        }
        i = i + 1;
    }
    true
}

/// Tells whether `a` and `b` are structurally identical.
pub fn same_schema(a: &Schema, b: &Schema) -> (r: bool)
    ensures
        r == same(*a, *b),
    decreases a,
{
    match a {
        Schema::Reference(x) => match b {
            Schema::Reference(y) => x.eq(y),
            _ => false,
        },
        Schema::Leaf(x) => match b {
            Schema::Leaf(y) => x.eq(y),
            _ => false,
        },
        Schema::Object(p) => match b {
            Schema::Object(q) => {
                if !same_props_exec(&p.properties, &q.properties) {
                    return false;
                }
                if !same_names_exec(&p.required, &q.required) {
                    return false;
                }
                let policy = match (&p.additional, &q.additional) {
                    (Policy::Absent, Policy::Absent) => true,
                    (Policy::Allowed, Policy::Allowed) => true,
                    (Policy::Forbidden, Policy::Forbidden) => true,
                    (Policy::Constrained(c), Policy::Constrained(d)) => same_schema(c, d),
                    (Policy::RejectUnevaluated(v), Policy::RejectUnevaluated(w)) => same_names_exec(v, w),
                    _ => false,
                };
                policy && same_vec_exec(&p.all_of, &q.all_of) && same_vec_exec(&p.one_of, &q.one_of)
                    && same_vec_exec(&p.any_of, &q.any_of)
            },
            _ => false,
        },
    }
}

fn same_props_exec(v: &Vec<(String, Schema)>, w: &Vec<(String, Schema)>) -> (r: bool)
    ensures
        r == (v@.len() == w@.len() && forall|i: int|
            0 <= i < v@.len() ==> v@[i].0@ == w@[i].0@ && same(v@[i].1, w@[i].1)),
    decreases v,
{
    if v.len() != w.len() {
        return false;
    }
    let mut i: usize = 0;
    while i < v.len()
        invariant
            v@.len() == w@.len(),
            i <= v@.len(),
            forall|j: int| 0 <= j < i ==> v@[j].0@ == w@[j].0@ && same(v@[j].1, w@[j].1),
        decreases v@.len() - i,
    {
        if !v[i].0.eq(&w[i].0) {
            return false;
        }
        if !same_schema(&v[i].1, &w[i].1) {
            return false;
        }
        i = i + 1;
    }
    true
}

fn same_vec_exec(v: &Vec<Schema>, w: &Vec<Schema>) -> (r: bool)
    ensures
        r == (v@.len() == w@.len() && forall|i: int| 0 <= i < v@.len() ==> same(v@[i], w@[i])),
    decreases v,
{
    if v.len() != w.len() {
        return false;
    }
    let mut i: usize = 0;
    while i < v.len()
        invariant
            v@.len() == w@.len(),
            i <= v@.len(),
            forall|j: int| 0 <= j < i ==> same(v@[j], w@[j]),
        decreases v@.len() - i,
    {
        if !same_schema(&v[i], &w[i]) {
            return false;
        }
        i = i + 1;
    }
    true
}

} // verus!
