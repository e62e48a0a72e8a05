use vstd::prelude::*;
use crate::schema::{ObjectSchema, Policy, Schema, refs_in, refs_in_policy, refs_in_props, refs_in_seq};

verus! {

/// `a` is `b` with every reference node naming `name` replaced by `body`.
pub open spec fn substituted(b: Schema, a: Schema, name: Seq<char>, body: Schema) -> bool
    decreases b,
{
    match b {
        Schema::Reference(n) => if n@ == name { a == body } else { a == b },
        Schema::Leaf(_) => a == b,
        Schema::Object(bo) => match a {
            Schema::Object(ao) => {
                &&& ao.required == bo.required
                &&& ao.properties@.len() == bo.properties@.len()
                &&& forall|i: int|
                    0 <= i < bo.properties@.len() ==> ao.properties@[i].0 == bo.properties@[i].0
                        && substituted(bo.properties@[i].1, ao.properties@[i].1, name, body)
                &&& match bo.additional {
                    Policy::Constrained(bb) => match ao.additional {
                        Policy::Constrained(ab) => substituted(*bb, *ab, name, body),
                        _ => false,
                    },
                    _ => ao.additional == bo.additional,
                }
                &&& ao.all_of@.len() == bo.all_of@.len()
                &&& forall|i: int|
                    0 <= i < bo.all_of@.len() ==> substituted(bo.all_of@[i], ao.all_of@[i], name, body)
                &&& ao.one_of@.len() == bo.one_of@.len()
                &&& forall|i: int|
                    0 <= i < bo.one_of@.len() ==> substituted(bo.one_of@[i], ao.one_of@[i], name, body)
                &&& ao.any_of@.len() == bo.any_of@.len()
                &&& forall|i: int|
                    0 <= i < bo.any_of@.len() ==> substituted(bo.any_of@[i], ao.any_of@[i], name, body)
            },
            _ => false,
        },
    }
}

/// The reference count of `x` after substituting `body` for `name`.
pub open spec fn count_after(before: int, hits: int, name: Seq<char>, body: Schema, x: Seq<char>) -> int {
    before - (if x == name { hits } else { 0 }) + hits * refs_in(body, x)
}

pub proof fn lemma_substituted_refs(b: Schema, a: Schema, name: Seq<char>, body: Schema, x: Seq<char>)
    requires
        substituted(b, a, name, body),
    ensures
        refs_in(a, x) == count_after(refs_in(b, x) as int, refs_in(b, name) as int, name, body, x),
    decreases b,
{
    match b {
        Schema::Object(bo) => {
            let ao = a->Object_0;
            lemma_substituted_props(bo.properties@, ao.properties@, name, body, x);
            match bo.additional {
                Policy::Constrained(bb) => {
                    let ab = ao.additional->Constrained_0;
                    lemma_substituted_refs(*bb, *ab, name, body, x);
                    assert(refs_in_policy(ao.additional, x) == refs_in(*ab, x));
                    assert(refs_in_policy(bo.additional, x) == refs_in(*bb, x));
                    assert(refs_in_policy(bo.additional, name) == refs_in(*bb, name));
                },
                _ => {
                    assert(refs_in_policy(ao.additional, x) == 0);
                    assert(refs_in_policy(bo.additional, x) == 0);
                    assert(refs_in_policy(bo.additional, name) == 0);
                    assert(0 * (refs_in(body, x) as int) == 0);
                },
            }
            lemma_substituted_seq(bo.all_of@, ao.all_of@, name, body, x);
            lemma_substituted_seq(bo.one_of@, ao.one_of@, name, body, x);
            lemma_substituted_seq(bo.any_of@, ao.any_of@, name, body, x);
            let hb = refs_in(body, x) as int;
            let h1 = refs_in_props(bo.properties@, name) as int;
            let h2 = refs_in_policy(bo.additional, name) as int;
            let h3 = refs_in_seq(bo.all_of@, name) as int;
            let h4 = refs_in_seq(bo.one_of@, name) as int;
            let h5 = refs_in_seq(bo.any_of@, name) as int;
            assert((h1 + h2 + h3 + h4 + h5) * hb == h1 * hb + h2 * hb + h3 * hb + h4 * hb + h5 * hb)
                by (nonlinear_arith);
            assert(refs_in(b, name) == h1 + h2 + h3 + h4 + h5);
            let hits = h1 + h2 + h3 + h4 + h5;
            let ite = if x == name { hits } else { 0 };
            assert(ite == (if x == name { h1 } else { 0 }) + (if x == name { h2 } else { 0 }) + (if x
                == name { h3 } else { 0 }) + (if x == name { h4 } else { 0 }) + (if x == name { h5 } else { 0 }));
            assert(refs_in(a, x) == refs_in_props(ao.properties@, x) + refs_in_policy(ao.additional, x)
                + refs_in_seq(ao.all_of@, x) + refs_in_seq(ao.one_of@, x) + refs_in_seq(ao.any_of@, x));
            assert(refs_in(b, x) == refs_in_props(bo.properties@, x) + refs_in_policy(bo.additional, x)
                + refs_in_seq(bo.all_of@, x) + refs_in_seq(bo.one_of@, x) + refs_in_seq(bo.any_of@, x));
        },
        Schema::Reference(n) => {
            let hb = refs_in(body, x) as int;
            assert(1 * hb == hb);
            assert(0 * hb == 0);
        },
        Schema::Leaf(_) => {
            assert(0 * (refs_in(body, x) as int) == 0);
        },
    }
}

pub proof fn lemma_substituted_seq(b: Seq<Schema>, a: Seq<Schema>, name: Seq<char>, body: Schema, x: Seq<char>)
    requires
        a.len() == b.len(),
        forall|i: int| 0 <= i < b.len() ==> substituted(b[i], a[i], name, body),
    ensures
        refs_in_seq(a, x) == count_after(refs_in_seq(b, x) as int, refs_in_seq(b, name) as int, name, body, x),
    decreases b,
{
    if b.len() > 0 {
        lemma_substituted_seq(b.drop_last(), a.drop_last(), name, body, x);
        lemma_substituted_refs(b.last(), a.last(), name, body, x);
        let hb = refs_in(body, x) as int;
        let h1 = refs_in_seq(b.drop_last(), name) as int;
        let h2 = refs_in(b.last(), name) as int;
        assert((h1 + h2) * hb == h1 * hb + h2 * hb) by (nonlinear_arith);
        assert(refs_in_seq(b, name) == h1 + h2);
        assert(refs_in_seq(b, x) == refs_in_seq(b.drop_last(), x) + refs_in(b.last(), x));
        assert(refs_in_seq(a, x) == refs_in_seq(a.drop_last(), x) + refs_in(a.last(), x));
        assert(refs_in_seq(a, x) == count_after(refs_in_seq(b, x) as int, h1 + h2, name, body, x));
    } else {
        assert(refs_in_seq(a, x) == 0);
        assert(refs_in_seq(b, name) == 0);
        assert(count_after(refs_in_seq(b, x) as int, 0, name, body, x) == 0);
    }
}

pub proof fn lemma_substituted_props(
    b: Seq<(String, Schema)>,
    a: Seq<(String, Schema)>,
    name: Seq<char>,
    body: Schema,
    x: Seq<char>,
)
    requires
        a.len() == b.len(),
        forall|i: int| 0 <= i < b.len() ==> substituted(b[i].1, a[i].1, name, body),
    ensures
        refs_in_props(a, x) == count_after(refs_in_props(b, x) as int, refs_in_props(b, name) as int, name, body, x),
    decreases b,
{
    if b.len() > 0 {
        lemma_substituted_props(b.drop_last(), a.drop_last(), name, body, x);
        lemma_substituted_refs(b.last().1, a.last().1, name, body, x);
        let hb = refs_in(body, x) as int;
        let h1 = refs_in_props(b.drop_last(), name) as int;
        let h2 = refs_in(b.last().1, name) as int;
        assert((h1 + h2) * hb == h1 * hb + h2 * hb) by (nonlinear_arith);
        assert(refs_in_props(b, name) == h1 + h2);
        assert(refs_in_props(b, x) == refs_in_props(b.drop_last(), x) + refs_in(b.last().1, x));
        assert(refs_in_props(a, x) == refs_in_props(a.drop_last(), x) + refs_in(a.last().1, x));
        assert(refs_in_props(a, x) == count_after(refs_in_props(b, x) as int, h1 + h2, name, body, x));
    } else {
        assert(refs_in_props(a, x) == 0);
        assert(refs_in_props(b, name) == 0);
        assert(count_after(refs_in_props(b, x) as int, 0, name, body, x) == 0);
    }
}

proof fn lemma_seq_prefix(s: Seq<Schema>, i: int, name: Seq<char>)
    requires
        0 <= i < s.len(),
    ensures
        refs_in_seq(s.subrange(0, i + 1), name) == refs_in_seq(s.subrange(0, i), name) + refs_in(s[i], name),
        refs_in_seq(s.subrange(0, i + 1), name) <= refs_in_seq(s, name),
    decreases s.len(),
{
    assert(s.subrange(0, i + 1).drop_last() =~= s.subrange(0, i));
    if i + 1 < s.len() {
        lemma_seq_prefix(s.drop_last(), i, name);
        assert(s.drop_last().subrange(0, i + 1) =~= s.subrange(0, i + 1));
    } else {
        assert(s.subrange(0, i + 1) =~= s);
    }
}

proof fn lemma_props_prefix(s: Seq<(String, Schema)>, i: int, name: Seq<char>)
    requires
        0 <= i < s.len(),
    ensures
        refs_in_props(s.subrange(0, i + 1), name) == refs_in_props(s.subrange(0, i), name) + refs_in(s[i].1, name),
        refs_in_props(s.subrange(0, i + 1), name) <= refs_in_props(s, name),
    decreases s.len(),
{
    assert(s.subrange(0, i + 1).drop_last() =~= s.subrange(0, i));
    if i + 1 < s.len() {
        lemma_props_prefix(s.drop_last(), i, name);
        assert(s.drop_last().subrange(0, i + 1) =~= s.subrange(0, i + 1));
    } else {
        assert(s.subrange(0, i + 1) =~= s);
    }
}

/// Replaces the reference node naming `name` in `s`, if there is one, by the
/// schema held in `body`, which it takes.
pub(crate) fn substitute(s: Schema, name: &String, body: &mut Option<Schema>, Ghost(gb): Ghost<Schema>) -> (r: Schema)
    requires
        refs_in(s, name@) <= 1,
        (*old(body)) is Some ==> (*old(body))->Some_0 == gb,
        (*old(body)) is Some || refs_in(s, name@) == 0,
    ensures
        substituted(s, r, name@, gb),
        refs_in(s, name@) == 0 ==> *final(body) == *old(body),
        refs_in(s, name@) == 1 ==> (*final(body)) is None,
    decreases s,
{
    let ghost s0 = s;
    match s {
        Schema::Reference(n) => {
            if n.eq(name) {
                match body.take() {
                    Some(b) => b,
                    None => Schema::Reference(n),
                }
            } else {
                Schema::Reference(n)
            }
        },
        Schema::Leaf(d) => Schema::Leaf(d),
        Schema::Object(o) => {
            let ObjectSchema { properties, required, additional, all_of, one_of, any_of } = o;
            let ghost h1 = refs_in_props(o.properties@, name@);
            let ghost h2 = refs_in_policy(o.additional, name@);
            let ghost h3 = refs_in_seq(o.all_of@, name@);
            let ghost h4 = refs_in_seq(o.one_of@, name@);
            let ghost h5 = refs_in_seq(o.any_of@, name@);
            let ghost orig = properties@;
            proof {
                assert forall|i: int| 0 <= i < orig.len() implies decreases_to!(s0 => orig[i].1) by {
                    assert(decreases_to!(s0 => o));
                    assert(decreases_to!(o => o.properties));
                    assert(decreases_to!(o.properties => o.properties[i]));
                    assert(decreases_to!(o.properties[i] => o.properties[i].1));
                }
                assert(orig.subrange(0, 0) =~= Seq::empty());
            }
            let ghost b0 = *body;
            let mut rest = properties;
            let mut props: Vec<(String, Schema)> = Vec::new();
            while rest.len() > 0
                invariant
                    s0 == s,
                    s0 == Schema::Object(o),
                    orig == o.properties@,
                    forall|i: int| 0 <= i < orig.len() ==> decreases_to!(s0 => orig[i].1),
                    h1 == refs_in_props(orig, name@),
                    h1 <= 1,
                    b0 is Some ==> b0->Some_0 == gb,
                    b0 is Some || h1 == 0,
                    props@.len() + rest@.len() == orig.len(),
                    rest@ == orig.subrange(props@.len() as int, orig.len() as int),
                    refs_in_props(orig.subrange(0, props@.len() as int), name@) == 0 ==> *body == b0,
                    refs_in_props(orig.subrange(0, props@.len() as int), name@) == 1 ==> (*body) is None,
                    forall|i: int|
                        0 <= i < props@.len() ==> props@[i].0 == orig[i].0 && substituted(
                            orig[i].1,
                            props@[i].1,
                            name@,
                            gb,
                        ),
                decreases rest@.len(),
            {
                let ghost k = props@.len() as int;
                let (n, c) = rest.remove(0);
                assert(c == orig[k].1);
                assert(decreases_to!(s => c));
                proof {
                    lemma_props_prefix(orig, k, name@);
                }
                let t = substitute(c, name, body, Ghost(gb));
                props.push((n, t));
            }
            assert(orig.subrange(0, orig.len() as int) =~= orig);
            let ghost b1 = *body;
            let additional = match additional {
                Policy::Constrained(b) => Policy::Constrained(Box::new(substitute(*b, name, body, Ghost(gb)))),
                p => p,
            };
            let ghost b2 = *body;
            let all_of = substitute_vec(all_of, name, body, Ghost(gb));
            let ghost b3 = *body;
            let one_of = substitute_vec(one_of, name, body, Ghost(gb));
            let ghost b4 = *body;
            let any_of = substitute_vec(any_of, name, body, Ghost(gb));
            Schema::Object(ObjectSchema { properties: props, required, additional, all_of, one_of, any_of })
        },
    }
}

/// Replaces the reference node naming `name` among the members of `v`, if
/// there is one, by the schema held in `body`, which it takes.
pub(crate) fn substitute_vec(v: Vec<Schema>, name: &String, body: &mut Option<Schema>, Ghost(gb): Ghost<Schema>) -> (r: Vec<Schema>)
    requires
        refs_in_seq(v@, name@) <= 1,
        (*old(body)) is Some ==> (*old(body))->Some_0 == gb,
        (*old(body)) is Some || refs_in_seq(v@, name@) == 0,
    ensures
        r@.len() == v@.len(),
        forall|i: int| 0 <= i < v@.len() ==> substituted(v@[i], r@[i], name@, gb),
        refs_in_seq(v@, name@) == 0 ==> *final(body) == *old(body),
        refs_in_seq(v@, name@) == 1 ==> (*final(body)) is None,
    decreases v,
{
    let ghost orig = v@;
    let ghost v0 = v;
    let ghost b0 = *body;
    proof {
        assert forall|i: int| 0 <= i < orig.len() implies decreases_to!(v0 => orig[i]) by {
            assert(decreases_to!(v0 => v0[i]));
        }
        assert(orig.subrange(0, 0) =~= Seq::empty());
    }
    let mut rest = v;
    let mut out: Vec<Schema> = Vec::new();
    while rest.len() > 0
        invariant
            v0 == v,
            orig == v@,
            forall|i: int| 0 <= i < orig.len() ==> decreases_to!(v0 => orig[i]),
            refs_in_seq(orig, name@) <= 1,
            b0 is Some ==> b0->Some_0 == gb,
            b0 is Some || refs_in_seq(orig, name@) == 0,
            out@.len() + rest@.len() == orig.len(),
            rest@ == orig.subrange(out@.len() as int, orig.len() as int),
            refs_in_seq(orig.subrange(0, out@.len() as int), name@) == 0 ==> *body == b0,
            refs_in_seq(orig.subrange(0, out@.len() as int), name@) == 1 ==> (*body) is None,
            forall|i: int| 0 <= i < out@.len() ==> substituted(orig[i], out@[i], name@, gb),
        decreases rest@.len(),
    {
        let ghost k = out@.len() as int;
        let m = rest.remove(0);
        assert(m == orig[k]);
        assert(decreases_to!(v => m));
        proof {
            lemma_seq_prefix(orig, k, name@);
        }
        let t = substitute(m, name, body, Ghost(gb));
        out.push(t);
    }
    assert(orig.subrange(0, orig.len() as int) =~= orig);
    out
}

/// Substitutes in the body of every definition of `v`, keeping the names.
pub(crate) fn substitute_props(
    v: Vec<(String, Schema)>,
    name: &String,
    body: &mut Option<Schema>,
    Ghost(gb): Ghost<Schema>,
) -> (r: Vec<(String, Schema)>)
    requires
        refs_in_props(v@, name@) <= 1,
        (*old(body)) is Some ==> (*old(body))->Some_0 == gb,
        (*old(body)) is Some || refs_in_props(v@, name@) == 0,
    ensures
        r@.len() == v@.len(),
        forall|i: int|
            0 <= i < v@.len() ==> r@[i].0 == v@[i].0 && substituted(v@[i].1, r@[i].1, name@, gb),
        refs_in_props(v@, name@) == 0 ==> *final(body) == *old(body),
        refs_in_props(v@, name@) == 1 ==> (*final(body)) is None,
{
    let ghost orig = v@;
    let ghost b0 = *body;
    proof {
        assert(orig.subrange(0, 0) =~= Seq::empty());
    }
    let mut rest = v;
    let mut out: Vec<(String, Schema)> = Vec::new();
    while rest.len() > 0
        invariant
            orig == v@,
            refs_in_props(orig, name@) <= 1,
            b0 is Some ==> b0->Some_0 == gb,
            b0 is Some || refs_in_props(orig, name@) == 0,
            out@.len() + rest@.len() == orig.len(),
            rest@ == orig.subrange(out@.len() as int, orig.len() as int),
            refs_in_props(orig.subrange(0, out@.len() as int), name@) == 0 ==> *body == b0,
            refs_in_props(orig.subrange(0, out@.len() as int), name@) == 1 ==> (*body) is None,
            forall|i: int|
                0 <= i < out@.len() ==> out@[i].0 == orig[i].0 && substituted(orig[i].1, out@[i].1, name@, gb),
        decreases rest@.len(),
    {
        let ghost k = out@.len() as int;
        let (n, c) = rest.remove(0);
        proof {
            lemma_props_prefix(orig, k, name@);
        }
        let t = substitute(c, name, body, Ghost(gb));
        out.push((n, t));
    }
    assert(orig.subrange(0, orig.len() as int) =~= orig);
    out
}

pub proof fn lemma_props_remove(s: Seq<(String, Schema)>, k: int, x: Seq<char>)
    requires
        0 <= k < s.len(),
    ensures
        refs_in_props(s.remove(k), x) + refs_in(s[k].1, x) == refs_in_props(s, x),
    decreases s.len(),
{
    if k == s.len() - 1 {
        assert(s.remove(k) =~= s.drop_last());
    } else {
        lemma_props_remove(s.drop_last(), k, x);
        assert(s.remove(k).drop_last() =~= s.drop_last().remove(k));
        assert(s.remove(k).last() == s.last());
    }
}

} // verus!
