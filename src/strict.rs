use vstd::prelude::*;
use crate::same::{same, same_names};
use crate::schema::{
    Document, ObjectSchema, Policy, Schema, evaluated, evaluated_seq, lemma_name_set_push, name_set,
    prop_names, refs_in, refs_in_doc, refs_in_props, refs_in_seq,
};

verus! {

/// Appends to `out` every property name that `s` evaluates.
pub fn collect_evaluated(s: &Schema, out: &mut Vec<String>)
    ensures
        name_set(final(out)@) == name_set(old(out)@).union(evaluated(*s)),
    decreases s,
{
    match s {
        Schema::Object(o) => {
            let ghost start = out@;
            let mut i: usize = 0;
            while i < o.properties.len()
                invariant
                    i <= o.properties.len(),
                    name_set(out@) == name_set(start).union(
                        prop_names(o.properties@.subrange(0, i as int)),
                    ),
                decreases o.properties.len() - i,
            {
                let ghost before = out@;
                let n = o.properties[i].0.clone();
                out.push(n);
                proof {
                    lemma_name_set_push(before, n);
                    let pre = o.properties@.subrange(0, i as int);
                    let next = o.properties@.subrange(0, i as int + 1);
                    assert(prop_names(next) =~= prop_names(pre).insert(o.properties@[i as int].0@))
                        by {
                        assert forall|x: Seq<char>| prop_names(next).contains(x) implies
                            prop_names(pre).insert(o.properties@[i as int].0@).contains(x) by {
                            let j = choose|j: int| 0 <= j < next.len() && next[j].0@ == x;
                            if j < i {
                                assert(pre[j].0@ == x);
                            }
                        }
                        assert forall|x: Seq<char>|
                            prop_names(pre).insert(o.properties@[i as int].0@).contains(x) implies
                            prop_names(next).contains(x) by {
                            if x == o.properties@[i as int].0@ {
                                assert(next[i as int].0@ == x);
                            } else {
                                let j = choose|j: int| 0 <= j < pre.len() && pre[j].0@ == x;
                                assert(next[j].0@ == x);
                            }
                        }
                    }
                }
                i = i + 1;
            }
            assert(o.properties@.subrange(0, o.properties.len() as int) =~= o.properties@);
            collect_evaluated_vec(&o.all_of, out);
            collect_evaluated_vec(&o.one_of, out);
            collect_evaluated_vec(&o.any_of, out);
            assert(name_set(out@) =~= name_set(start).union(evaluated(*s)));
        },
        _ => {
            assert(name_set(out@) =~= name_set(out@).union(evaluated(*s)));
        },
    }
}

/// Appends to `out` every property name that the members of `v` evaluate.
pub fn collect_evaluated_vec(v: &Vec<Schema>, out: &mut Vec<String>)
    ensures
        name_set(final(out)@) == name_set(old(out)@).union(evaluated_seq(v@)),
    decreases v,
{
    let ghost start = out@;
    let mut i: usize = 0;
    assert(evaluated_seq(v@.subrange(0, 0)) =~= Set::empty());
    assert(name_set(out@) =~= name_set(start).union(Set::empty()));
    while i < v.len()
        invariant
            i <= v.len(),
            name_set(out@) == name_set(start).union(evaluated_seq(v@.subrange(0, i as int))),
        decreases v.len() - i,
    {
        collect_evaluated(&v[i], out);
        proof {
            let pre = v@.subrange(0, i as int);
            let next = v@.subrange(0, i as int + 1);
            assert(next.drop_last() =~= pre);
            assert(next.last() == v@[i as int]);
            assert(name_set(out@) =~= name_set(start).union(evaluated_seq(next)));
        }
        i = i + 1;
    }
    assert(v@.subrange(0, v.len() as int) =~= v@);
}

/// `a` is `b` after the strictness pass, within a composition context whose
/// evaluated property names are `ctx`.
pub open spec fn strictened(b: Schema, a: Schema, ctx: Set<Seq<char>>) -> bool
    decreases b,
{
    match b {
        Schema::Object(bo) => match a {
            Schema::Object(ao) => {
                let inner = evaluated(b).union(ctx);
                &&& ao.required == bo.required
                &&& ao.properties@.len() == bo.properties@.len()
                &&& forall|i: int|
                    0 <= i < bo.properties@.len() ==> ao.properties@[i].0 == bo.properties@[i].0
                        && strictened(bo.properties@[i].1, ao.properties@[i].1, Set::empty())
                &&& if bo.properties@.len() > 0 && bo.additional is Absent {
                    &&& ao.additional is RejectUnevaluated
                    &&& name_set(ao.additional->RejectUnevaluated_0@) == inner
                } else {
                    match bo.additional {
                        Policy::Constrained(bb) => match ao.additional {
                            Policy::Constrained(ab) => strictened(*bb, *ab, Set::empty()),
                            _ => false,
                        },
                        _ => ao.additional == bo.additional,
                    }
                }
                &&& ao.all_of@.len() == bo.all_of@.len()
                &&& forall|i: int|
                    0 <= i < bo.all_of@.len() ==> strictened(bo.all_of@[i], ao.all_of@[i], inner)
                &&& ao.one_of@.len() == bo.one_of@.len()
                &&& forall|i: int|
                    0 <= i < bo.one_of@.len() ==> strictened(bo.one_of@[i], ao.one_of@[i], inner)
                &&& ao.any_of@.len() == bo.any_of@.len()
                &&& forall|i: int|
                    0 <= i < bo.any_of@.len() ==> strictened(bo.any_of@[i], ao.any_of@[i], inner)
            },
            _ => false,
        },
        _ => a == b,
    }
}

/// Appends a copy of every name of `src` to `out`.
fn extend_names(out: &mut Vec<String>, src: &Vec<String>)
    ensures
        name_set(final(out)@) == name_set(old(out)@).union(name_set(src@)),
{
    let ghost start = out@;
    let mut i: usize = 0;
    while i < src.len()
        invariant
            i <= src.len(),
            name_set(out@) == name_set(start).union(name_set(src@.subrange(0, i as int))),
        decreases src.len() - i,
    {
        let ghost before = out@;
        let n = src[i].clone();
        out.push(n);
        proof {
            lemma_name_set_push(before, n);
            lemma_name_set_push(src@.subrange(0, i as int), n);
            assert(src@.subrange(0, i as int).push(n) =~= src@.subrange(0, i as int + 1));
        }
        i = i + 1;
    }
    assert(src@.subrange(0, src.len() as int) =~= src@);
}

/// Runs the strictness pass over each member of `v` in context `ctx`.
fn strictify_vec(v: Vec<Schema>, ctx: &Vec<String>) -> (r: Vec<Schema>)
    ensures
        r@.len() == v@.len(),
        forall|i: int| 0 <= i < v@.len() ==> strictened(v@[i], r@[i], name_set(ctx@)),
    decreases v,
{
    let ghost orig = v@;
    let ghost v0 = v;
    proof {
        assert forall|i: int| 0 <= i < orig.len() implies decreases_to!(v0 => orig[i]) by {
            assert(decreases_to!(v0 => v0[i]));
        }
    }
    let mut rest = v;
    let mut out: Vec<Schema> = Vec::new();
    while rest.len() > 0
        invariant
            v0 == v,
            forall|i: int| 0 <= i < orig.len() ==> decreases_to!(v0 => orig[i]),
            out@.len() + rest@.len() == orig.len(),
            rest@ == orig.subrange(out@.len() as int, orig.len() as int),
            forall|i: int| 0 <= i < out@.len() ==> strictened(orig[i], out@[i], name_set(ctx@)),
        decreases rest@.len(),
    {
        let m = rest.remove(0);
        assert(m == orig[out@.len() as int]);
        assert(decreases_to!(v => m));
        let t = strictify(m, ctx);
        out.push(t);
    }
    out
}

/// Runs the strictness pass over `s`, whose enclosing composition context
/// evaluates the names of `ctx`.
pub fn strictify(s: Schema, ctx: &Vec<String>) -> (r: Schema)
    ensures
        strictened(s, r, name_set(ctx@)),
    decreases s,
{
    let mut inner: Vec<String> = Vec::new();
    collect_evaluated(&s, &mut inner);
    extend_names(&mut inner, ctx);
    proof {
        assert(name_set(Seq::<String>::empty()) =~= Set::empty());
        assert(name_set(inner@) =~= evaluated(s).union(name_set(ctx@)));
    }
    let ghost s0 = s;
    match s {
        Schema::Object(o) => {
            let ObjectSchema { properties, required, additional, all_of, one_of, any_of } = o;
            let declared = properties.len() > 0;
            let ghost orig = properties@;
            let empty: Vec<String> = Vec::new();
            proof {
                assert(name_set(empty@) =~= Set::empty());
            }
            proof {
                assert forall|i: int| 0 <= i < orig.len() implies decreases_to!(s0 => orig[i].1) by {
                    assert(decreases_to!(s0 => o));
                    assert(decreases_to!(o => o.properties));
                    assert(decreases_to!(o.properties => o.properties[i]));
                    assert(decreases_to!(o.properties[i] => o.properties[i].1));
                }
            }
            let mut rest = properties;
            let mut props: Vec<(String, Schema)> = Vec::new();
            while rest.len() > 0
                invariant
                    forall|i: int| 0 <= i < orig.len() ==> decreases_to!(s0 => orig[i].1),
                    s0 == Schema::Object(o),
                    s0 == s,
                    orig == o.properties@,
                    name_set(empty@) == Set::<Seq<char>>::empty(),
                    props@.len() + rest@.len() == orig.len(),
                    rest@ == orig.subrange(props@.len() as int, orig.len() as int),
                    forall|i: int|
                        0 <= i < props@.len() ==> props@[i].0 == orig[i].0 && strictened(
                            orig[i].1,
                            props@[i].1,
                            Set::empty(),
                        ),
                decreases rest@.len(),
            {
                let (n, c) = rest.remove(0);
                assert(c == orig[props@.len() as int].1);
                assert(decreases_to!(s => c));
                let t = strictify(c, &empty);
                props.push((n, t));
            }
            let all_of = strictify_vec(all_of, &inner);
            let one_of = strictify_vec(one_of, &inner);
            let any_of = strictify_vec(any_of, &inner);
            let additional = match additional {
                Policy::Absent => {
                    if declared {
                        Policy::RejectUnevaluated(inner)
                    } else {
                        Policy::Absent
                    }
                },
                Policy::Constrained(b) => Policy::Constrained(Box::new(strictify(*b, &empty))),
                p => p,
            };
            Schema::Object(ObjectSchema { properties: props, required, additional, all_of, one_of, any_of })
        },
        other => other,
    }
}

/// The policy `p` rejects a property called `name` that no schema evaluated.
pub open spec fn rejects(p: Policy, name: Seq<char>) -> bool {
    match p {
        Policy::Forbidden => true,
        Policy::RejectUnevaluated(v) => !name_set(v@).contains(name),
        _ => false,
    }
}

/// `a` is the document `b` after the strictness pass: the root and every
/// definition body are strictened, with names and order of the table kept.
pub open spec fn doc_strictened(b: Document, a: Document) -> bool {
    &&& strictened(b.root, a.root, Set::empty())
    &&& a.definitions@.len() == b.definitions@.len()
    &&& forall|i: int|
        0 <= i < b.definitions@.len() ==> a.definitions@[i].0 == b.definitions@[i].0
            && strictened(b.definitions@[i].1, a.definitions@[i].1, Set::empty())
}

/// Marks every object schema that declares properties and made no choice on
/// extra properties as rejecting every property that neither it nor any of
/// its composition branches (nor the enclosing composition) evaluates.
pub fn enforce_strictness(doc: Document) -> (r: Document)
    ensures
        doc_strictened(doc, r),
{
    let empty: Vec<String> = Vec::new();
    proof {
        assert(name_set(empty@) =~= Set::empty());
    }
    let Document { root, definitions } = doc;
    let root = strictify(root, &empty);
    let ghost orig = definitions@;
    let mut rest = definitions;
    let mut defs: Vec<(String, Schema)> = Vec::new();
    while rest.len() > 0
        invariant
            name_set(empty@) == Set::<Seq<char>>::empty(),
            defs@.len() + rest@.len() == orig.len(),
            rest@ == orig.subrange(defs@.len() as int, orig.len() as int),
            forall|i: int|
                0 <= i < defs@.len() ==> defs@[i].0 == orig[i].0 && strictened(
                    orig[i].1,
                    defs@[i].1,
                    Set::empty(),
                ),
        decreases rest@.len(),
    {
        let (n, c) = rest.remove(0);
        let t = strictify(c, &empty);
        defs.push((n, t));
    }
    Document { root, definitions: defs }
}

pub proof fn lemma_strictened_refs(b: Schema, a: Schema, ctx: Set<Seq<char>>, x: Seq<char>)
    requires
        strictened(b, a, ctx),
    ensures
        refs_in(a, x) == refs_in(b, x),
    decreases b,
{
    match b {
        Schema::Object(bo) => {
            let ao = a->Object_0;
            let inner = evaluated(b).union(ctx);
            lemma_strictened_props(bo.properties@, ao.properties@, x);
            match bo.additional {
                Policy::Constrained(bb) => {
                    lemma_strictened_refs(*bb, *ao.additional->Constrained_0, Set::empty(), x);
                },
                _ => {},
            }
            lemma_strictened_seq(bo.all_of@, ao.all_of@, inner, x);
            lemma_strictened_seq(bo.one_of@, ao.one_of@, inner, x);
            lemma_strictened_seq(bo.any_of@, ao.any_of@, inner, x);
        },
        _ => {},
    }
}

proof fn lemma_strictened_seq(b: Seq<Schema>, a: Seq<Schema>, ctx: Set<Seq<char>>, x: Seq<char>)
    requires
        a.len() == b.len(),
        forall|i: int| 0 <= i < b.len() ==> strictened(b[i], a[i], ctx),
    ensures
        refs_in_seq(a, x) == refs_in_seq(b, x),
    decreases b,
{
    if b.len() > 0 {
        lemma_strictened_seq(b.drop_last(), a.drop_last(), ctx, x);
        lemma_strictened_refs(b.last(), a.last(), ctx, x);
    }
}

proof fn lemma_strictened_props(b: Seq<(String, Schema)>, a: Seq<(String, Schema)>, x: Seq<char>)
    requires
        a.len() == b.len(),
        forall|i: int| 0 <= i < b.len() ==> strictened(b[i].1, a[i].1, Set::empty()),
    ensures
        refs_in_props(a, x) == refs_in_props(b, x),
    decreases b,
{
    if b.len() > 0 {
        lemma_strictened_props(b.drop_last(), a.drop_last(), x);
        lemma_strictened_refs(b.last().1, a.last().1, Set::empty(), x);
    }
}

/// The strictness pass keeps every reference of the document and the names
/// of its definitions.
pub proof fn lemma_strictness_keeps_references(b: Document, a: Document)
    requires
        doc_strictened(b, a),
    ensures
        forall|x: Seq<char>| #[trigger] refs_in_doc(a, x) == refs_in_doc(b, x),
        prop_names(a.definitions@) == prop_names(b.definitions@),
{
    assert forall|x: Seq<char>| #[trigger] refs_in_doc(a, x) == refs_in_doc(b, x) by {
        lemma_strictened_refs(b.root, a.root, Set::empty(), x);
        lemma_strictened_props(b.definitions@, a.definitions@, x);
    }
    assert forall|n: Seq<char>| prop_names(a.definitions@).contains(n) implies prop_names(b.definitions@).contains(n) by {
        let i = choose|i: int| 0 <= i < a.definitions@.len() && a.definitions@[i].0@ == n;
        assert(b.definitions@[i].0@ == n);
    }
    assert forall|n: Seq<char>| prop_names(b.definitions@).contains(n) implies prop_names(a.definitions@).contains(n) by {
        let i = choose|i: int| 0 <= i < b.definitions@.len() && b.definitions@[i].0@ == n;
        assert(a.definitions@[i].0@ == n);
    }
    assert(prop_names(a.definitions@) =~= prop_names(b.definitions@));
}

pub proof fn lemma_strictened_evaluated(b: Schema, a: Schema, ctx: Set<Seq<char>>)
    requires
        strictened(b, a, ctx),
    ensures
        evaluated(a) == evaluated(b),
    decreases b,
{
    match b {
        Schema::Object(bo) => {
            let ao = a->Object_0;
            let inner = evaluated(b).union(ctx);
            lemma_strictened_evaluated_seq(bo.all_of@, ao.all_of@, inner);
            lemma_strictened_evaluated_seq(bo.one_of@, ao.one_of@, inner);
            lemma_strictened_evaluated_seq(bo.any_of@, ao.any_of@, inner);
            assert forall|n: Seq<char>| prop_names(ao.properties@).contains(n) implies prop_names(bo.properties@).contains(n) by {
                let i = choose|i: int| 0 <= i < ao.properties@.len() && ao.properties@[i].0@ == n;
                assert(bo.properties@[i].0@ == n);
            }
            assert forall|n: Seq<char>| prop_names(bo.properties@).contains(n) implies prop_names(ao.properties@).contains(n) by {
                let i = choose|i: int| 0 <= i < bo.properties@.len() && bo.properties@[i].0@ == n;
                assert(ao.properties@[i].0@ == n);
            }
            assert(prop_names(ao.properties@) =~= prop_names(bo.properties@));
        },
        _ => {},
    }
}

proof fn lemma_strictened_evaluated_seq(b: Seq<Schema>, a: Seq<Schema>, ctx: Set<Seq<char>>)
    requires
        a.len() == b.len(),
        forall|i: int| 0 <= i < b.len() ==> strictened(b[i], a[i], ctx),
    ensures
        evaluated_seq(a) == evaluated_seq(b),
    decreases b,
{
    if b.len() > 0 {
        lemma_strictened_evaluated_seq(b.drop_last(), a.drop_last(), ctx);
        lemma_strictened_evaluated(b.last(), a.last(), ctx);
    }
}

proof fn lemma_same_names_refl(v: Seq<String>)
    ensures
        same_names(v, v),
{
}

/// Running the strictness pass a second time, in the same context, yields a
/// schema structurally identical to the first result.
pub proof fn lemma_strictness_idempotent(b: Schema, a: Schema, c: Schema, ctx: Set<Seq<char>>)
    requires
        strictened(b, a, ctx),
        strictened(a, c, ctx),
    ensures
        same(a, c),
    decreases b,
{
    match b {
        Schema::Object(bo) => {
            let ao = a->Object_0;
            let co = c->Object_0;
            lemma_strictened_evaluated(b, a, ctx);
            let inner = evaluated(b).union(ctx);
            assert forall|i: int| 0 <= i < ao.properties@.len() implies ao.properties@[i].0@ == co.properties@[i].0@
                && same(ao.properties@[i].1, co.properties@[i].1) by {
                lemma_strictness_idempotent(bo.properties@[i].1, ao.properties@[i].1, co.properties@[i].1, Set::empty());
            }
            assert forall|i: int| 0 <= i < ao.all_of@.len() implies same(ao.all_of@[i], co.all_of@[i]) by {
                lemma_strictness_idempotent(bo.all_of@[i], ao.all_of@[i], co.all_of@[i], inner);
            }
            assert forall|i: int| 0 <= i < ao.one_of@.len() implies same(ao.one_of@[i], co.one_of@[i]) by {
                lemma_strictness_idempotent(bo.one_of@[i], ao.one_of@[i], co.one_of@[i], inner);
            }
            assert forall|i: int| 0 <= i < ao.any_of@.len() implies same(ao.any_of@[i], co.any_of@[i]) by {
                lemma_strictness_idempotent(bo.any_of@[i], ao.any_of@[i], co.any_of@[i], inner);
            }
            lemma_same_names_refl(ao.required@);
            match bo.additional {
                Policy::Constrained(bb) => {
                    lemma_strictness_idempotent(
                        *bb,
                        *ao.additional->Constrained_0,
                        *co.additional->Constrained_0,
                        Set::empty(),
                    );
                },
                Policy::RejectUnevaluated(v) => {
                    lemma_same_names_refl(v@);
                },
                Policy::Absent => {
                    if bo.properties@.len() > 0 {
                        lemma_same_names_refl(ao.additional->RejectUnevaluated_0@);
                    }
                },
                _ => {},
            }
        },
        _ => {},
    }
}

/// Idempotence of the strictness pass: run again on its own output, it
/// yields a document whose root and definitions are structurally identical
/// to that output.
pub proof fn lemma_strictness_idempotent_doc(b: Document, a: Document, c: Document)
    requires
        doc_strictened(b, a),
        doc_strictened(a, c),
    ensures
        same(a.root, c.root),
        a.definitions@.len() == c.definitions@.len(),
        forall|i: int|
            0 <= i < a.definitions@.len() ==> a.definitions@[i].0 == c.definitions@[i].0 && same(
                a.definitions@[i].1,
                c.definitions@[i].1,
            ),
{
    lemma_strictness_idempotent(b.root, a.root, c.root, Set::empty());
    assert forall|i: int| 0 <= i < a.definitions@.len() implies a.definitions@[i].0 == c.definitions@[i].0 && same(
        a.definitions@[i].1,
        c.definitions@[i].1,
    ) by {
        lemma_strictness_idempotent(b.definitions@[i].1, a.definitions@[i].1, c.definitions@[i].1, Set::empty());
    }
}

/// Strictness closure: after the pass, an object schema that declared
/// properties and had no policy on extra properties rejects every property
/// name that neither it, nor any of its composition branches, nor the
/// enclosing composition declares.
pub proof fn lemma_strictness_closure(b: Schema, a: Schema, ctx: Set<Seq<char>>, name: Seq<char>)
    requires
        strictened(b, a, ctx),
        b is Object,
        b->Object_0.properties@.len() > 0,
        b->Object_0.additional is Absent,
        !evaluated(b).contains(name),
        !ctx.contains(name),
    ensures
        a is Object,
        rejects(a->Object_0.additional, name),
{
}

} // verus!
