use vstd::prelude::*;
use crate::same::{lemma_same_keeps, same, same_schema};
use crate::schema::{
    Document, ObjectSchema, Policy, Schema, evaluated, evaluated_seq, prop_names, refs_in, refs_in_policy,
    refs_in_props, refs_in_seq,
};

verus! {

/// `r` references exactly the names that `s` references, and evaluates the
/// same property names.
pub open spec fn equivalent_shape(s: Schema, r: Schema) -> bool {
    &&& forall|x: Seq<char>| #[trigger] refs_in(r, x) > 0 <==> refs_in(s, x) > 0
    &&& evaluated(r) == evaluated(s)
}

/// No member of `s` is structurally identical to an earlier one.
pub open spec fn distinct_members(s: Seq<Schema>) -> bool {
    forall|i: int, j: int| 0 <= i < j < s.len() ==> !same(s[i], s[j])
}

/// An object schema with no properties, no required names, no policy and
/// only a conjunction.
pub open spec fn is_bare_conjunction(s: Schema) -> bool {
    &&& s is Object
    &&& s->Object_0.properties@.len() == 0
    &&& s->Object_0.required@.len() == 0
    &&& s->Object_0.additional is Absent
    &&& s->Object_0.one_of@.len() == 0
    &&& s->Object_0.any_of@.len() == 0
}

/// A policy that merging may combine with another: absent, allowed or forbidden.
pub open spec fn is_simple_policy(p: Policy) -> bool {
    p is Absent || p is Allowed || p is Forbidden
}

/// An object schema without composition groups and with a simple policy.
pub open spec fn is_plain_object(s: Schema) -> bool {
    &&& s is Object
    &&& s->Object_0.all_of@.len() == 0
    &&& s->Object_0.one_of@.len() == 0
    &&& s->Object_0.any_of@.len() == 0
    &&& is_simple_policy(s->Object_0.additional)
}

/// An object schema whose only content is a single composition member.
pub open spec fn is_single_wrapper(s: Schema) -> bool {
    &&& s is Object
    &&& s->Object_0.properties@.len() == 0
    &&& s->Object_0.required@.len() == 0
    &&& s->Object_0.additional is Absent
    &&& s->Object_0.all_of@.len() + s->Object_0.one_of@.len() + s->Object_0.any_of@.len() == 1
}

/// `s` is in the form that merging leaves: no single-member wrapper, no
/// collapsible conjunction, no repeated member in a composition group, and
/// no conjunction member that is itself a bare conjunction, at any depth of
/// the conjunctions.
pub open spec fn merged_form(s: Schema) -> bool
    decreases s,
{
    match s {
        Schema::Object(o) => {
            &&& !is_single_wrapper(s)
            &&& !collapsible(o)
            &&& distinct_members(o.all_of@)
            &&& distinct_members(o.one_of@)
            &&& distinct_members(o.any_of@)
            &&& forall|j: int|
                0 <= j < o.all_of@.len() ==> merged_form(o.all_of@[j]) && !is_bare_conjunction(o.all_of@[j])
            &&& forall|j: int| 0 <= j < o.one_of@.len() ==> merged_form(o.one_of@[j])
            &&& forall|j: int| 0 <= j < o.any_of@.len() ==> merged_form(o.any_of@[j])
            &&& forall|i: int| 0 <= i < o.properties@.len() ==> merged_form(o.properties@[i].1)
            &&& match o.additional {
                Policy::Constrained(b) => merged_form(*b),
                _ => true,
            }
        },
        _ => true,
    }
}

proof fn lemma_member_props_merged(m: Seq<Schema>)
    requires
        forall|j: int| 0 <= j < m.len() ==> merged_form(m[j]),
    ensures
        forall|i: int| 0 <= i < member_props(m).len() ==> merged_form(#[trigger] member_props(m)[i].1),
    decreases m.len(),
{
    if m.len() > 0 {
        lemma_member_props_merged(m.drop_last());
        let a = member_props(m.drop_last());
        assert forall|i: int| 0 <= i < member_props(m).len() implies merged_form(#[trigger] member_props(m)[i].1) by {
            if i >= a.len() {
                assert(merged_form(m[m.len() - 1]));
            } else {
                assert(member_props(m)[i] == a[i]);
            }
        }
    }
}

proof fn lemma_strictest_simple(p: Policy, m: Seq<Schema>)
    requires
        is_simple_policy(p),
        forall|j: int| 0 <= j < m.len() ==> is_plain_object(m[j]),
    ensures
        is_simple_policy(strictest(p, m)),
    decreases m.len(),
{
    if m.len() > 0 {
        lemma_strictest_simple(p, m.drop_last());
        assert(is_plain_object(m[m.len() - 1]));
    }
}

/// The properties of the object members of `m`, joined in order.
pub open spec fn member_props(m: Seq<Schema>) -> Seq<(String, Schema)>
    decreases m.len(),
{
    if m.len() == 0 {
        Seq::empty()
    } else {
        member_props(m.drop_last()) + match m.last() {
            Schema::Object(o) => o.properties@,
            _ => Seq::empty(),
        }
    }
}

/// The required names of the object members of `m`, joined in order.
pub open spec fn member_required(m: Seq<Schema>) -> Seq<String>
    decreases m.len(),
{
    if m.len() == 0 {
        Seq::empty()
    } else {
        member_required(m.drop_last()) + match m.last() {
            Schema::Object(o) => o.required@,
            _ => Seq::empty(),
        }
    }
}

/// Restrictiveness of a simple policy: forbidden over allowed over absent.
pub open spec fn rank_of(p: Policy) -> nat {
    match p {
        Policy::Forbidden => 2,
        Policy::Allowed => 1,
        _ => 0,
    }
}

/// The most restrictive of `p` and the policies of the object members of
/// `m`; of equally restrictive ones the first.
pub open spec fn strictest(p: Policy, m: Seq<Schema>) -> Policy
    decreases m.len(),
{
    if m.len() == 0 {
        p
    } else {
        let q = strictest(p, m.drop_last());
        match m.last() {
            Schema::Object(o) => if rank_of(o.additional) > rank_of(q) { o.additional } else { q },
            _ => q,
        }
    }
}

/// `c` is `n` with its conjunction collapsed: the properties and required
/// names of the members are appended to `n`'s own, in order, the policy is
/// the most restrictive one, and the other groups are kept.
pub open spec fn collapse_of(n: ObjectSchema, c: ObjectSchema) -> bool {
    &&& c.properties@ == n.properties@ + member_props(n.all_of@)
    &&& c.required@ == n.required@ + member_required(n.all_of@)
    &&& c.additional == strictest(n.additional, n.all_of@)
    &&& c.all_of@.len() == 0
    &&& c.one_of == n.one_of
    &&& c.any_of == n.any_of
}

/// The members of `s` with every bare conjunction replaced by its members.
pub open spec fn flat(s: Seq<Schema>) -> Seq<Schema>
    decreases s.len(),
{
    if s.len() == 0 {
        Seq::empty()
    } else {
        flat(s.drop_last()) + if is_bare_conjunction(s.last()) {
            s.last()->Object_0.all_of@
        } else {
            seq![s.last()]
        }
    }
}

/// The members of `s` without those structurally identical to an earlier one.
pub open spec fn deduped(s: Seq<Schema>) -> Seq<Schema>
    decreases s.len(),
{
    if s.len() == 0 {
        Seq::empty()
    } else {
        let d = deduped(s.drop_last());
        if exists|k: int| 0 <= k < d.len() && same(d[k], s.last()) {
            d
        } else {
            d.push(s.last())
        }
    }
}

/// The one member of a single-member wrapper.
pub open spec fn single_member(o: ObjectSchema) -> Schema {
    if o.all_of@.len() == 1 {
        o.all_of@[0]
    } else if o.one_of@.len() == 1 {
        o.one_of@[0]
    } else {
        o.any_of@[0]
    }
}

/// `r` is `o`, or its one member where `o` is a single-member wrapper.
pub open spec fn unwrapped(o: ObjectSchema, r: Schema) -> bool {
    if is_single_wrapper(Schema::Object(o)) {
        r == single_member(o)
    } else {
        r == Schema::Object(o)
    }
}

proof fn lemma_members_push(s: Seq<Schema>, m: Schema, p: Policy)
    ensures
        member_props(s.push(m)) == member_props(s) + match m {
            Schema::Object(o) => o.properties@,
            _ => Seq::empty(),
        },
        member_required(s.push(m)) == member_required(s) + match m {
            Schema::Object(o) => o.required@,
            _ => Seq::empty(),
        },
        strictest(p, s.push(m)) == match m {
            Schema::Object(o) => if rank_of(o.additional) > rank_of(strictest(p, s)) {
                o.additional
            } else {
                strictest(p, s)
            },
            _ => strictest(p, s),
        },
        flat(s.push(m)) == flat(s) + if is_bare_conjunction(m) { m->Object_0.all_of@ } else { seq![m] },
        deduped(s.push(m)) == if exists|k: int| 0 <= k < deduped(s).len() && same(deduped(s)[k], m) {
            deduped(s)
        } else {
            deduped(s).push(m)
        },
{
    assert(s.push(m).drop_last() =~= s);
}

proof fn lemma_seq_push(s: Seq<Schema>, t: Schema)
    ensures
        forall|x: Seq<char>| #[trigger] refs_in_seq(s.push(t), x) == refs_in_seq(s, x) + refs_in(t, x),
        evaluated_seq(s.push(t)) == evaluated_seq(s).union(evaluated(t)),
{
    assert(s.push(t).drop_last() =~= s);
}

proof fn lemma_props_push(s: Seq<(String, Schema)>, p: (String, Schema))
    ensures
        forall|x: Seq<char>| #[trigger] refs_in_props(s.push(p), x) == refs_in_props(s, x) + refs_in(p.1, x),
        prop_names(s.push(p)) == prop_names(s).insert(p.0@),
{
    assert(s.push(p).drop_last() =~= s);
    assert forall|n: Seq<char>| prop_names(s.push(p)).contains(n) implies prop_names(s).insert(p.0@).contains(n) by {
        let i = choose|i: int| 0 <= i < s.push(p).len() && s.push(p)[i].0@ == n;
        if i < s.len() {
            assert(s[i].0@ == n);
        }
    }
    assert forall|n: Seq<char>| prop_names(s).insert(p.0@).contains(n) implies prop_names(s.push(p)).contains(n) by {
        if n == p.0@ {
            assert(s.push(p)[s.len() as int].0@ == n);
        } else {
            let i = choose|i: int| 0 <= i < s.len() && s[i].0@ == n;
            assert(s.push(p)[i].0@ == n);
        }
    }
    assert(prop_names(s.push(p)) =~= prop_names(s).insert(p.0@));
}

proof fn lemma_prefix_next<A>(s: Seq<A>, i: int)
    requires
        0 <= i < s.len(),
    ensures
        s.subrange(0, i + 1) == s.subrange(0, i).push(s[i]),
{
    assert(s.subrange(0, i + 1) =~= s.subrange(0, i).push(s[i]));
}

/// The names of the properties of `p`, in order.
pub open spec fn names_of(p: Seq<(String, Schema)>) -> Seq<Seq<char>> {
    p.map_values(|e: (String, Schema)| e.0@)
}

/// The property names declared by the object members of `m`, in order.
pub open spec fn member_names(m: Seq<Schema>) -> Seq<Seq<char>>
    decreases m.len(),
{
    if m.len() == 0 {
        Seq::empty()
    } else {
        member_names(m.drop_last()) + match m.last() {
            Schema::Object(o) => names_of(o.properties@),
            _ => Seq::empty(),
        }
    }
}

/// The conjunction of `o` can be collapsed into `o`: it is not empty, every
/// member is a plain object schema, `o`'s own policy is simple, and no
/// property name is declared twice across `o` and its members.
pub open spec fn collapsible(o: ObjectSchema) -> bool {
    &&& o.all_of@.len() > 0
    &&& is_simple_policy(o.additional)
    &&& forall|i: int| 0 <= i < o.all_of@.len() ==> is_plain_object(o.all_of@[i])
    &&& (names_of(o.properties@) + member_names(o.all_of@)).no_duplicates()
}

proof fn lemma_dup_extends(a: Seq<Seq<char>>, b: Seq<Seq<char>>)
    requires
        !a.no_duplicates(),
    ensures
        !(a + b).no_duplicates(),
{
    let (i, j) = choose|i: int, j: int| 0 <= i < a.len() && 0 <= j < a.len() && i != j && a[i] == a[j];
    assert((a + b)[i] == (a + b)[j]);
}

proof fn lemma_dup_in_prefix(a: Seq<Seq<char>>, w: Seq<Seq<char>>)
    requires
        a.len() <= w.len(),
        w.subrange(0, a.len() as int) == a,
        !a.no_duplicates(),
    ensures
        !w.no_duplicates(),
{
    let (i, j) = choose|i: int, j: int| 0 <= i < a.len() && 0 <= j < a.len() && i != j && a[i] == a[j];
    assert(w[i] == a[i] && w[j] == a[j]);
}

proof fn lemma_member_names_prefix(m: Seq<Schema>, k: int)
    requires
        0 <= k <= m.len(),
    ensures
        member_names(m.subrange(0, k)).len() <= member_names(m).len(),
        member_names(m).subrange(0, member_names(m.subrange(0, k)).len() as int) == member_names(m.subrange(0, k)),
    decreases m.len(),
{
    if k == m.len() {
        assert(m.subrange(0, k) =~= m);
        assert(member_names(m).subrange(0, member_names(m).len() as int) =~= member_names(m));
    } else {
        lemma_member_names_prefix(m.drop_last(), k);
        assert(m.drop_last().subrange(0, k) =~= m.subrange(0, k));
        let p = member_names(m.subrange(0, k));
        assert(member_names(m).subrange(0, p.len() as int) =~= member_names(m.drop_last()).subrange(0, p.len() as int));
    }
}

proof fn lemma_member_names_next(m: Seq<Schema>, k: int)
    requires
        0 <= k < m.len(),
        m[k] is Object,
    ensures
        member_names(m.subrange(0, k + 1)) == member_names(m.subrange(0, k)) + names_of(m[k]->Object_0.properties@),
{
    assert(m.subrange(0, k + 1).drop_last() =~= m.subrange(0, k));
}

/// The views of a sequence of strings.
pub open spec fn views(v: Seq<String>) -> Seq<Seq<char>> {
    v.map_values(|s: String| s@)
}

/// Tells whether `v` holds the name `name`.
fn has_name(v: &Vec<String>, name: &String) -> (r: bool)
    ensures
        r == views(v@).contains(name@),
{
    let mut i: usize = 0;
    while i < v.len()
        invariant
            i <= v@.len(),
            forall|j: int| 0 <= j < i ==> v@[j]@ != name@,
        decreases v@.len() - i,
    {
        if v[i].eq(name) {
            assert(views(v@)[i as int] == name@);
            return true;
        }
        i = i + 1;
    }
    proof {
        if views(v@).contains(name@) {
            let j = choose|j: int| 0 <= j < views(v@).len() && views(v@)[j] == name@;
            assert(v@[j]@ == name@);
        }
    }
    false
}

/// Appends the names of `props` to `names`, as long as none is already
/// there; tells whether all were new.
fn add_names(names: &mut Vec<String>, props: &Vec<(String, Schema)>) -> (ok: bool)
    requires
        views(old(names)@).no_duplicates(),
    ensures
        ok == (views(old(names)@) + names_of(props@)).no_duplicates(),
        ok ==> views(final(names)@) == views(old(names)@) + names_of(props@),
{
    let ghost start = views(names@);
    let mut i: usize = 0;
    proof {
        assert(names_of(props@.subrange(0, 0)) =~= Seq::<Seq<char>>::empty());
        assert(start + Seq::<Seq<char>>::empty() =~= start);
    }
    while i < props.len()
        invariant
            i <= props@.len(),
            start == views(old(names)@),
            views(names@) == start + names_of(props@.subrange(0, i as int)),
            views(names@).no_duplicates(),
        decreases props@.len() - i,
    {
        let ghost before = views(names@);
        assert(names_of(props@.subrange(0, i as int + 1)) =~= names_of(props@.subrange(0, i as int)).push(
            props@[i as int].0@,
        ));
        if has_name(names, &props[i].0) {
            proof {
                let j = choose|j: int| 0 <= j < before.len() && before[j] == props@[i as int].0@;
                let ext = before.push(props@[i as int].0@);
                assert(ext[j] == ext[before.len() as int]);
                assert(!ext.no_duplicates());
                assert(names_of(props@) =~= names_of(props@.subrange(0, i as int + 1)) + names_of(
                    props@.subrange(i as int + 1, props@.len() as int),
                ));
                lemma_dup_extends(ext, names_of(props@.subrange(i as int + 1, props@.len() as int)));
                assert(start + names_of(props@) =~= ext + names_of(
                    props@.subrange(i as int + 1, props@.len() as int),
                ));
            }
            return false;
        }
        names.push(props[i].0.clone());
        proof {
            assert(views(names@) =~= before.push(props@[i as int].0@));
            assert(views(names@) =~= start + names_of(props@.subrange(0, i as int + 1)));
        }
        i = i + 1;
    }
    proof {
        assert(props@.subrange(0, props@.len() as int) =~= props@);
    }
    true
}

fn is_simple(p: &Policy) -> (r: bool)
    ensures
        r == is_simple_policy(*p),
{
    match p {
        Policy::Absent => true,
        Policy::Allowed => true,
        Policy::Forbidden => true,
        _ => false,
    }
}

/// Rank of a simple policy by restrictiveness.
fn rank(p: &Policy) -> (r: u8)
    ensures
        r == rank_of(*p),
{
    match p {
        Policy::Forbidden => 2,
        Policy::Allowed => 1,
        _ => 0,
    }
}

/// Tells whether the conjunction of `o` can be collapsed into `o`.
fn can_collapse(o: &ObjectSchema) -> (r: bool)
    ensures
        r == collapsible(*o),
{
    if o.all_of.len() == 0 || !is_simple(&o.additional) {
        return false;
    }
    let mut names: Vec<String> = Vec::new();
    proof {
        assert(views(names@) =~= Seq::<Seq<char>>::empty());
        assert(Seq::<Seq<char>>::empty() + names_of(o.properties@) =~= names_of(o.properties@));
    }
    if !add_names(&mut names, &o.properties) {
        proof {
            lemma_dup_extends(names_of(o.properties@), member_names(o.all_of@));
        }
        return false;
    }
    let ghost m = o.all_of@;
    let ghost base = names_of(o.properties@);
    let mut i: usize = 0;
    proof {
        assert(m.subrange(0, 0) =~= Seq::<Schema>::empty());
        assert(base + member_names(m.subrange(0, 0)) =~= base);
    }
    while i < o.all_of.len()
        invariant
            m == o.all_of@,
            base == names_of(o.properties@),
            i <= m.len(),
            forall|j: int| 0 <= j < i ==> is_plain_object(m[j]),
            views(names@) == base + member_names(m.subrange(0, i as int)),
            views(names@).no_duplicates(),
        decreases m.len() - i,
    {
        match &o.all_of[i] {
            Schema::Object(mo) => {
                if mo.all_of.len() != 0 || mo.one_of.len() != 0 || mo.any_of.len() != 0 || !is_simple(
                    &mo.additional,
                ) {
                    return false;
                }
                let ghost before = views(names@);
                let ok = add_names(&mut names, &mo.properties);
                proof {
                    lemma_member_names_next(m, i as int);
                    assert(before + names_of(mo.properties@) =~= base + member_names(m.subrange(0, i as int + 1)));
                }
                if !ok {
                    proof {
                        lemma_member_names_prefix(m, i as int + 1);
                        let pre = base + member_names(m.subrange(0, i as int + 1));
                        assert((base + member_names(m)).subrange(0, pre.len() as int) =~= pre);
                        lemma_dup_in_prefix(pre, base + member_names(m));
                    }
                    return false;
                }
            },
            _ => {
                return false;
            },
        }
        i = i + 1;
    }
    proof {
        assert(m.subrange(0, m.len() as int) =~= m);
    }
    true
}

/// Collapses a conjunction of plain object schemas into `o` itself: the
/// properties and required names are joined, and the policy is the most
/// restrictive of them all.
fn collapse(o: ObjectSchema) -> (r: ObjectSchema)
    requires
        is_simple_policy(o.additional),
        forall|i: int| 0 <= i < o.all_of@.len() ==> is_plain_object(o.all_of@[i]),
    ensures
        equivalent_shape(Schema::Object(o), Schema::Object(r)),
        collapse_of(o, r),
{
    let ghost o0 = o;
    let ObjectSchema { properties, required, additional, all_of, one_of, any_of } = o;
    let mut props = properties;
    let mut req = required;
    let mut policy = additional;
    let ghost members = all_of@;
    let mut rest = all_of;
    let mut done: usize = 0;
    let n_members = rest.len();
    proof {
        assert(members.subrange(0, 0) =~= Seq::<Schema>::empty());
        assert(props@ =~= o0.properties@ + Seq::<(String, Schema)>::empty());
        assert(req@ =~= o0.required@ + Seq::<String>::empty());
    }
    while rest.len() > 0
        invariant
            members == o0.all_of@,
            members.len() == n_members,
            props@ == o0.properties@ + member_props(members.subrange(0, done as int)),
            req@ == o0.required@ + member_required(members.subrange(0, done as int)),
            policy == strictest(o0.additional, members.subrange(0, done as int)),
            one_of == o0.one_of,
            any_of == o0.any_of,
            forall|i: int| 0 <= i < members.len() ==> is_plain_object(members[i]),
            done + rest@.len() == members.len(),
            rest@ == members.subrange(done as int, members.len() as int),
            is_simple_policy(policy),
            forall|x: Seq<char>| #[trigger] refs_in_props(props@, x) == refs_in_props(o0.properties@, x)
                + refs_in_seq(members.subrange(0, done as int), x),
            prop_names(props@) == prop_names(o0.properties@).union(evaluated_seq(members.subrange(0, done as int))),
        decreases rest@.len(),
    {
        let m = rest.remove(0);
        proof {
            assert(m == members[done as int]);
            lemma_prefix_next(members, done as int);
            lemma_seq_push(members.subrange(0, done as int), m);
            lemma_members_push(members.subrange(0, done as int), m, o0.additional);
        }
        match m {
            Schema::Object(mo) => {
                let ObjectSchema { properties: mprops, required: mreq, additional: mpol, all_of: _, one_of: _, any_of: _ } = mo;
                if rank(&mpol) > rank(&policy) {
                    policy = mpol;
                }
                let ghost base = props@;
                let ghost mp = mprops@;
                let mut mrest = mprops;
                let mut j: usize = 0;
                let n_props = mrest.len();
                proof {
                    assert(mp.subrange(0, 0) =~= Seq::<(String, Schema)>::empty());
                    assert(prop_names(Seq::<(String, Schema)>::empty()) =~= Set::empty());
                    assert(base.add(mp.subrange(0, 0)) =~= base);
                    assert(base + mp.subrange(0, 0) =~= base);
                }
                while mrest.len() > 0
                    invariant
                        mp.len() == n_props,
                        props@ == base + mp.subrange(0, j as int),
                        j + mrest@.len() == mp.len(),
                        mrest@ == mp.subrange(j as int, mp.len() as int),
                        forall|x: Seq<char>| #[trigger] refs_in_props(props@, x) == refs_in_props(base, x)
                            + refs_in_props(mp.subrange(0, j as int), x),
                        prop_names(props@) == prop_names(base).union(prop_names(mp.subrange(0, j as int))),
                    decreases mrest@.len(),
                {
                    let p = mrest.remove(0);
                    proof {
                        assert(p == mp[j as int]);
                        lemma_prefix_next(mp, j as int);
                        lemma_props_push(props@, p);
                        lemma_props_push(mp.subrange(0, j as int), p);
                    }
                    props.push(p);
                    j = j + 1;
                    proof {
                        assert(props@ =~= base + mp.subrange(0, j as int));
                        assert(prop_names(props@) =~= prop_names(base).union(prop_names(mp.subrange(0, j as int))));
                    }
                }
                proof {
                    assert(mp.subrange(0, mp.len() as int) =~= mp);
                    assert(refs_in_seq(mo.all_of@, Seq::empty()) == 0);
                    assert forall|x: Seq<char>| #[trigger] refs_in(m, x) == refs_in_props(mp, x) by {
                        assert(refs_in_policy(mo.additional, x) == 0);
                        assert(refs_in_seq(mo.all_of@, x) == 0);
                        assert(refs_in_seq(mo.one_of@, x) == 0);
                        assert(refs_in_seq(mo.any_of@, x) == 0);
                    }
                    assert(evaluated_seq(mo.all_of@) =~= Set::empty());
                    assert(evaluated_seq(mo.one_of@) =~= Set::empty());
                    assert(evaluated_seq(mo.any_of@) =~= Set::empty());
                    assert(evaluated(m) =~= prop_names(mp));
                }
                let mut mreq = mreq;
                req.append(&mut mreq);
                proof {
                    assert(props@ =~= o0.properties@ + member_props(members.subrange(0, done as int + 1)));
                    assert(req@ =~= o0.required@ + member_required(members.subrange(0, done as int + 1)));
                }
            },
            _ => {},
        }
        done = done + 1;
        proof {
            assert(prop_names(props@) =~= prop_names(o0.properties@).union(
                evaluated_seq(members.subrange(0, done as int)),
            ));
        }
    }
    proof {
        assert(members.subrange(0, members.len() as int) =~= members);
    }
    let r = ObjectSchema { properties: props, required: req, additional: policy, all_of: Vec::new(), one_of, any_of };
    proof {
        assert(evaluated_seq(r.all_of@) =~= Set::empty());
        assert forall|x: Seq<char>| #[trigger] refs_in(Schema::Object(r), x) == refs_in(Schema::Object(o0), x) by {
            assert(refs_in_policy(r.additional, x) == 0);
            assert(refs_in_policy(o0.additional, x) == 0);
            assert(refs_in_seq(r.all_of@, x) == 0);
            assert(refs_in_props(r.properties@, x) == refs_in_props(o0.properties@, x) + refs_in_seq(
                members,
                x,
            ));
            assert(refs_in(Schema::Object(r), x) == refs_in_props(r.properties@, x) + refs_in_seq(r.one_of@, x)
                + refs_in_seq(r.any_of@, x));
        }
        assert(evaluated(Schema::Object(r)) =~= evaluated(Schema::Object(o0)));
    }
    r
}

fn is_bare(o: &ObjectSchema) -> (r: bool)
    ensures
        r == (o.properties@.len() == 0 && o.required@.len() == 0 && o.additional is Absent),
{
    o.properties.len() == 0 && o.required.len() == 0 && match o.additional {
        Policy::Absent => true,
        _ => false,
    }
}

/// Splices the members of every bare conjunction among `v` into `v`, in place.
fn flatten(v: Vec<Schema>) -> (r: Vec<Schema>)
    requires
        forall|i: int| 0 <= i < v@.len() ==> merged_form(v@[i]),
    ensures
        forall|x: Seq<char>| #[trigger] refs_in_seq(r@, x) == refs_in_seq(v@, x),
        evaluated_seq(r@) == evaluated_seq(v@),
        forall|i: int| 0 <= i < r@.len() ==> merged_form(r@[i]) && !is_bare_conjunction(r@[i]),
        r@ == flat(v@),
{
    let ghost orig = v@;
    let mut rest = v;
    let mut out: Vec<Schema> = Vec::new();
    let mut done: usize = 0;
    let n = rest.len();
    proof {
        assert(orig.subrange(0, 0) =~= Seq::<Schema>::empty());
        assert(evaluated_seq(Seq::<Schema>::empty()) =~= Set::empty());
    }
    while rest.len() > 0
        invariant
            orig.len() == n,
            forall|i: int| 0 <= i < orig.len() ==> merged_form(orig[i]),
            forall|i: int| 0 <= i < out@.len() ==> merged_form(out@[i]) && !is_bare_conjunction(out@[i]),
            out@ == flat(orig.subrange(0, done as int)),
            done + rest@.len() == orig.len(),
            rest@ == orig.subrange(done as int, orig.len() as int),
            forall|x: Seq<char>| #[trigger] refs_in_seq(out@, x) == refs_in_seq(orig.subrange(0, done as int), x),
            evaluated_seq(out@) == evaluated_seq(orig.subrange(0, done as int)),
        decreases rest@.len(),
    {
        let m = rest.remove(0);
        proof {
            assert(m == orig[done as int]);
            lemma_prefix_next(orig, done as int);
            lemma_seq_push(orig.subrange(0, done as int), m);
            lemma_members_push(orig.subrange(0, done as int), m, Policy::Absent);
        }
        assert(merged_form(m));
        let bare = match &m {
            Schema::Object(mo) => is_bare(mo) && mo.one_of.len() == 0 && mo.any_of.len() == 0,
            _ => false,
        };
        if bare {
            match m {
                Schema::Object(mo) => {
                    let ghost base = out@;
                    let ghost inner = mo.all_of@;
                    let mut irest = mo.all_of;
                    let mut j: usize = 0;
                    let ni = irest.len();
                    proof {
                        assert(inner.subrange(0, 0) =~= Seq::<Schema>::empty());
                        assert(evaluated_seq(Seq::<Schema>::empty()) =~= Set::empty());
                        assert(evaluated_seq(base).union(Set::empty()) =~= evaluated_seq(base));
                        assert(base + inner.subrange(0, 0) =~= base);
                    }
                    while irest.len() > 0
                        invariant
                            inner.len() == ni,
                            inner == mo.all_of@,
                            out@ == base + inner.subrange(0, j as int),
                            forall|i: int| 0 <= i < inner.len() ==> merged_form(inner[i]) && !is_bare_conjunction(inner[i]),
                            forall|i: int| 0 <= i < out@.len() ==> merged_form(out@[i]) && !is_bare_conjunction(out@[i]),
                            j + irest@.len() == inner.len(),
                            irest@ == inner.subrange(j as int, inner.len() as int),
                            forall|x: Seq<char>| #[trigger] refs_in_seq(out@, x) == refs_in_seq(base, x)
                                + refs_in_seq(inner.subrange(0, j as int), x),
                            evaluated_seq(out@) == evaluated_seq(base).union(evaluated_seq(inner.subrange(0, j as int))),
                        decreases irest@.len(),
                    {
                        let t = irest.remove(0);
                        proof {
                            assert(t == inner[j as int]);
                            lemma_prefix_next(inner, j as int);
                            lemma_seq_push(out@, t);
                            lemma_seq_push(inner.subrange(0, j as int), t);
                        }
                        out.push(t);
                        j = j + 1;
                        proof {
                            assert(out@ =~= base + inner.subrange(0, j as int));
                            assert(evaluated_seq(out@) =~= evaluated_seq(base).union(
                                evaluated_seq(inner.subrange(0, j as int)),
                            ));
                        }
                    }
                    proof {
                        assert(inner.subrange(0, inner.len() as int) =~= inner);
                        assert(prop_names(mo.properties@) =~= Set::empty());
                        assert(evaluated_seq(mo.one_of@) =~= Set::empty());
                        assert(evaluated_seq(mo.any_of@) =~= Set::empty());
                        assert(evaluated(m) =~= evaluated_seq(inner));
                        assert forall|x: Seq<char>| #[trigger] refs_in(m, x) == refs_in_seq(inner, x) by {
                            assert(refs_in_props(mo.properties@, x) == 0);
                            assert(refs_in_policy(mo.additional, x) == 0);
                            assert(refs_in_seq(mo.one_of@, x) == 0);
                            assert(refs_in_seq(mo.any_of@, x) == 0);
                        }
                    }
                },
                _ => {},
            }
        } else {
            proof {
                lemma_seq_push(out@, m);
            }
            out.push(m);
        }
        done = done + 1;
        proof {
            assert(evaluated_seq(out@) =~= evaluated_seq(orig.subrange(0, done as int)));
        }
    }
    proof {
        assert(orig.subrange(0, orig.len() as int) =~= orig);
    }
    out
}

/// Replaces an object schema whose only content is one composition member
/// by that member.
fn unwrap_single(o: ObjectSchema) -> (r: Schema)
    requires
        forall|i: int| 0 <= i < o.all_of@.len() ==> merged_form(o.all_of@[i]) && !is_bare_conjunction(o.all_of@[i]),
        forall|i: int| 0 <= i < o.one_of@.len() ==> merged_form(o.one_of@[i]),
        forall|i: int| 0 <= i < o.any_of@.len() ==> merged_form(o.any_of@[i]),
        forall|i: int| 0 <= i < o.properties@.len() ==> merged_form(o.properties@[i].1),
        o.additional is Constrained ==> merged_form(*o.additional->Constrained_0),
        distinct_members(o.all_of@),
        distinct_members(o.one_of@),
        distinct_members(o.any_of@),
        !collapsible(o),
    ensures
        equivalent_shape(Schema::Object(o), r),
        merged_form(r),
        unwrapped(o, r),
{
    let (a, b, c) = (o.all_of.len(), o.one_of.len(), o.any_of.len());
    let single = (a == 1 && b == 0 && c == 0) || (a == 0 && b == 1 && c == 0) || (a == 0 && b == 0 && c == 1);
    if is_bare(&o) && single {
        let ghost s0 = Schema::Object(o);
        let ObjectSchema { properties, required, additional, all_of, one_of, any_of } = o;
        let ghost g = if all_of@.len() == 1 { all_of@ } else if one_of@.len() == 1 { one_of@ } else { any_of@ };
        let mut group = if all_of.len() == 1 {
            all_of
        } else if one_of.len() == 1 {
            one_of
        } else {
            any_of
        };
        let m = group.remove(0);
        proof {
            assert(g.drop_last() =~= Seq::<Schema>::empty());
            assert(m == g.last());
            assert(prop_names(o.properties@) =~= Set::empty());
            assert(evaluated_seq(Seq::<Schema>::empty()) =~= Set::empty());
            assert(evaluated(s0) =~= evaluated(m));
            assert forall|x: Seq<char>| #[trigger] refs_in(m, x) == refs_in(s0, x) by {
                assert(refs_in_props(o.properties@, x) == 0);
                assert(refs_in_policy(o.additional, x) == 0);
                assert(refs_in_seq(g, x) == refs_in_seq(g.drop_last(), x) + refs_in(m, x));
                assert(refs_in_seq(Seq::<Schema>::empty(), x) == 0);
                if o.all_of@.len() == 0 {
                    assert(o.all_of@ =~= Seq::<Schema>::empty());
                }
                if o.one_of@.len() == 0 {
                    assert(o.one_of@ =~= Seq::<Schema>::empty());
                }
                if o.any_of@.len() == 0 {
                    assert(o.any_of@ =~= Seq::<Schema>::empty());
                }
            }
        }
        m
    } else {
        proof {
            assert(!is_single_wrapper(Schema::Object(o)));
        }
        Schema::Object(o)
    }
}

proof fn lemma_member_within(s: Seq<Schema>, k: int, x: Seq<char>)
    requires
        0 <= k < s.len(),
    ensures
        refs_in(s[k], x) <= refs_in_seq(s, x),
        evaluated(s[k]).subset_of(evaluated_seq(s)),
    decreases s.len(),
{
    if k < s.len() - 1 {
        lemma_member_within(s.drop_last(), k, x);
    }
}

/// Tells whether some member of `v` is structurally identical to `m`.
fn holds_same(v: &Vec<Schema>, m: &Schema) -> (r: bool)
    ensures
        r == exists|k: int| 0 <= k < v@.len() && same(v@[k], *m),
{
    let mut k: usize = 0;
    while k < v.len()
        invariant
            k <= v@.len(),
            forall|j: int| 0 <= j < k ==> !same(v@[j], *m),
        decreases v@.len() - k,
    {
        if same_schema(&v[k], m) {
            return true;
        }
        k = k + 1;
    }
    false
}

/// Drops every member of `v` that is structurally identical to an earlier
/// one, keeping the first occurrence.
fn dedup(v: Vec<Schema>) -> (r: Vec<Schema>)
    ensures
        forall|x: Seq<char>| #[trigger] refs_in_seq(r@, x) > 0 <==> refs_in_seq(v@, x) > 0,
        evaluated_seq(r@) == evaluated_seq(v@),
        forall|i: int| 0 <= i < r@.len() ==> v@.contains(#[trigger] r@[i]),
        distinct_members(r@),
        r@ == deduped(v@),
{
    let ghost orig = v@;
    let mut rest = v;
    let mut out: Vec<Schema> = Vec::new();
    let mut done: usize = 0;
    let n = rest.len();
    proof {
        assert(orig.subrange(0, 0) =~= Seq::<Schema>::empty());
    }
    while rest.len() > 0
        invariant
            orig.len() == n,
            done + rest@.len() == orig.len(),
            rest@ == orig.subrange(done as int, orig.len() as int),
            forall|x: Seq<char>| #[trigger] refs_in_seq(out@, x) > 0 <==> refs_in_seq(orig.subrange(0, done as int), x) > 0,
            evaluated_seq(out@) == evaluated_seq(orig.subrange(0, done as int)),
            forall|i: int| 0 <= i < out@.len() ==> orig.contains(#[trigger] out@[i]),
            distinct_members(out@),
            out@ == deduped(orig.subrange(0, done as int)),
        decreases rest@.len(),
    {
        let m = rest.remove(0);
        proof {
            assert(m == orig[done as int]);
            lemma_prefix_next(orig, done as int);
            lemma_seq_push(orig.subrange(0, done as int), m);
            lemma_members_push(orig.subrange(0, done as int), m, Policy::Absent);
        }
        if holds_same(&out, &m) {
            proof {
                let k = choose|k: int| 0 <= k < out@.len() && same(out@[k], m);
                assert forall|x: Seq<char>| #[trigger] refs_in_seq(out@, x) > 0 <==> refs_in_seq(
                    orig.subrange(0, done as int + 1),
                    x,
                ) > 0 by {
                    lemma_same_keeps(out@[k], m, x);
                    lemma_member_within(out@, k, x);
                }
                lemma_same_keeps(out@[k], m, Seq::empty());
                lemma_member_within(out@, k, Seq::empty());
                assert(evaluated_seq(out@) =~= evaluated_seq(orig.subrange(0, done as int + 1)));
            }
        } else {
            proof {
                lemma_seq_push(out@, m);
                assert(orig.contains(m));
            }
            out.push(m);
            proof {
                assert(evaluated_seq(out@) =~= evaluated_seq(orig.subrange(0, done as int + 1)));
            }
        }
        done = done + 1;
    }
    proof {
        assert(orig.subrange(0, orig.len() as int) =~= orig);
    }
    out
}

/// `r` is what merging makes of `s`. Leaves and references stay as they are.
/// In an object schema the property schemas and a constraining policy are
/// merged first, and so is every member of each group. Then the conjunction
/// is flattened and each group loses the members structurally identical to
/// an earlier one. A collapsible conjunction is collapsed. Finally a
/// single-member wrapper is replaced by its member.
pub open spec fn merged(s: Schema, r: Schema) -> bool
    decreases s,
{
    match s {
        Schema::Object(o) => exists|w: MergePlan| #[trigger] is_plan(w) && {
        &&& w.0.required == o.required
        &&& w.0.properties@.len() == o.properties@.len()
        &&& forall|i: int|
            0 <= i < o.properties@.len() ==> w.0.properties@[i].0 == o.properties@[i].0 && merged(
                o.properties@[i].1,
                w.0.properties@[i].1,
            )
        &&& match o.additional {
            Policy::Constrained(b) => w.0.additional is Constrained && merged(
                *b,
                *w.0.additional->Constrained_0,
            ),
            _ => w.0.additional == o.additional,
        }
        &&& w.1.len() == o.all_of@.len()
        &&& forall|i: int| 0 <= i < w.1.len() ==> merged(o.all_of@[i], w.1[i])
        &&& w.0.all_of@ == deduped(flat(w.1))
        &&& w.2.len() == o.one_of@.len()
        &&& forall|i: int| 0 <= i < w.2.len() ==> merged(o.one_of@[i], w.2[i])
        &&& w.0.one_of@ == deduped(w.2)
        &&& w.3.len() == o.any_of@.len()
        &&& forall|i: int| 0 <= i < w.3.len() ==> merged(o.any_of@[i], w.3[i])
        &&& w.0.any_of@ == deduped(w.3)
        &&& if collapsible(w.0) {
            exists|c: ObjectSchema| collapse_of(w.0, c) && unwrapped(c, r)
        } else {
            unwrapped(w.0, r)
        }
        },
        _ => r == s,
    }
}

/// The stages of merging an object schema: the node after its children were
/// merged, its conjunction flattened and its groups deduplicated, and the
/// merged members of its three groups.
pub type MergePlan = (ObjectSchema, Seq<Schema>, Seq<Schema>, Seq<Schema>);

/// Every value is a plan; this names the quantified plan for the prover.
pub open spec fn is_plan(w: MergePlan) -> bool {
    true
}

/// Merges each member of `v`.
fn merge_vec(v: Vec<Schema>) -> (r: Vec<Schema>)
    ensures
        forall|x: Seq<char>| #[trigger] refs_in_seq(r@, x) > 0 <==> refs_in_seq(v@, x) > 0,
        evaluated_seq(r@) == evaluated_seq(v@),
        forall|i: int| 0 <= i < r@.len() ==> merged_form(r@[i]),
        r@.len() == v@.len(),
        forall|i: int| 0 <= i < v@.len() ==> merged(v@[i], r@[i]),
    decreases v,
{
    let ghost orig = v@;
    let ghost v0 = v;
    proof {
        assert forall|i: int| 0 <= i < orig.len() implies decreases_to!(v0 => orig[i]) by {
            assert(decreases_to!(v0 => v0[i]));
        }
        assert(orig.subrange(0, 0) =~= Seq::<Schema>::empty());
    }
    let mut rest = v;
    let mut out: Vec<Schema> = Vec::new();
    let n = rest.len();
    while rest.len() > 0
        invariant
            v0 == v,
            orig == v@,
            orig.len() == n,
            forall|i: int| 0 <= i < orig.len() ==> decreases_to!(v0 => orig[i]),
            out@.len() + rest@.len() == orig.len(),
            rest@ == orig.subrange(out@.len() as int, orig.len() as int),
            forall|i: int| 0 <= i < out@.len() ==> merged_form(out@[i]),
            forall|i: int| 0 <= i < out@.len() ==> merged(orig[i], out@[i]),
            forall|x: Seq<char>| #[trigger] refs_in_seq(out@, x) > 0 <==> refs_in_seq(orig.subrange(0, out@.len() as int), x) > 0,
            evaluated_seq(out@) == evaluated_seq(orig.subrange(0, out@.len() as int)),
        decreases rest@.len(),
    {
        let ghost k = out@.len() as int;
        let m = rest.remove(0);
        assert(m == orig[k]);
        assert(decreases_to!(v => m));
        let t = merge(m);
        proof {
            lemma_prefix_next(orig, k);
            lemma_seq_push(orig.subrange(0, k), m);
            lemma_seq_push(out@, t);
        }
        out.push(t);
    }
    assert(orig.subrange(0, orig.len() as int) =~= orig);
    out
}

/// Runs the merge rules over `s`, children first: nested conjunctions are
/// flattened, a conjunction of plain object schemas with disjoint property
/// names is collapsed into its parent, and a composition of one member is
/// replaced by that member.
pub fn merge(s: Schema) -> (r: Schema)
    ensures
        merged(s, r),
        equivalent_shape(s, r),
        merged_form(r),
    decreases s,
{
    let ghost s0 = s;
    match s {
        Schema::Object(o) => {
            let ObjectSchema { properties, required, additional, all_of, one_of, any_of } = o;
            let ghost orig = properties@;
            proof {
                assert forall|i: int| 0 <= i < orig.len() implies decreases_to!(s0 => orig[i].1) by {
                    assert(decreases_to!(s0 => o));
                    assert(decreases_to!(o => o.properties));
                    assert(decreases_to!(o.properties => o.properties[i]));
                    assert(decreases_to!(o.properties[i] => o.properties[i].1));
                }
                assert(orig.subrange(0, 0) =~= Seq::<(String, Schema)>::empty());
            }
            let mut rest = properties;
            let mut props: Vec<(String, Schema)> = Vec::new();
            let n = rest.len();
            while rest.len() > 0
                invariant
                    s0 == s,
                    s0 == Schema::Object(o),
                    orig == o.properties@,
                    orig.len() == n,
                    forall|i: int| 0 <= i < orig.len() ==> decreases_to!(s0 => orig[i].1),
                    props@.len() + rest@.len() == orig.len(),
                    rest@ == orig.subrange(props@.len() as int, orig.len() as int),
                    forall|x: Seq<char>| #[trigger] refs_in_props(props@, x) > 0 <==> refs_in_props(
                        orig.subrange(0, props@.len() as int),
                        x,
                    ) > 0,
                    prop_names(props@) == prop_names(orig.subrange(0, props@.len() as int)),
                    forall|i: int|
                        0 <= i < props@.len() ==> props@[i].0 == orig[i].0 && merged(orig[i].1, props@[i].1),
                    forall|i: int| 0 <= i < props@.len() ==> merged_form(props@[i].1),
                decreases rest@.len(),
            {
                let ghost k = props@.len() as int;
                let (pn, c) = rest.remove(0);
                assert(c == orig[k].1);
                assert(decreases_to!(s => c));
                let t = merge(c);
                proof {
                    lemma_prefix_next(orig, k);
                    lemma_props_push(orig.subrange(0, k), orig[k]);
                    lemma_props_push(props@, (pn, t));
                }
                props.push((pn, t));
            }
            assert(orig.subrange(0, orig.len() as int) =~= orig);
            let additional = match additional {
                Policy::Constrained(b) => {
                    let m = merge(*b);
                    let p = Policy::Constrained(Box::new(m));
                    assert(merged_form(*p->Constrained_0));
                    proof {
                        assert(merged(*b, *p->Constrained_0));
                        assert forall|x: Seq<char>| #[trigger] refs_in_policy(p, x) > 0 <==> refs_in_policy(o.additional, x) > 0 by {
                            assert(refs_in_policy(p, x) == refs_in(m, x));
                            assert(refs_in_policy(o.additional, x) == refs_in(*b, x));
                        }
                    }
                    p
                },
                p => p,
            };
            assert(forall|x: Seq<char>| #[trigger] refs_in_policy(additional, x) > 0 <==> refs_in_policy(o.additional, x) > 0);
            let merged_all = merge_vec(all_of);
            let flat_all = flatten(merged_all);
            let all_of = dedup(flat_all);
            let merged_one = merge_vec(one_of);
            let one_of = dedup(merged_one);
            let merged_any = merge_vec(any_of);
            let any_of = dedup(merged_any);
            let node = ObjectSchema { properties: props, required, additional, all_of, one_of, any_of };
            proof {
                assert forall|x: Seq<char>| #[trigger] refs_in(Schema::Object(node), x) > 0 <==> refs_in(s0, x) > 0 by {
                    assert(refs_in_policy(node.additional, x) > 0 <==> refs_in_policy(o.additional, x) > 0);
                    assert(refs_in_props(node.properties@, x) > 0 <==> refs_in_props(o.properties@, x) > 0);
                    assert(refs_in_seq(merged_all@, x) > 0 <==> refs_in_seq(o.all_of@, x) > 0);
                    assert(refs_in_seq(flat_all@, x) == refs_in_seq(merged_all@, x));
                    assert(refs_in_seq(node.all_of@, x) > 0 <==> refs_in_seq(flat_all@, x) > 0);
                    assert(refs_in_seq(node.one_of@, x) > 0 <==> refs_in_seq(o.one_of@, x) > 0);
                    assert(refs_in_seq(node.any_of@, x) > 0 <==> refs_in_seq(o.any_of@, x) > 0);
                }
                assert(evaluated(Schema::Object(node)) == evaluated(s0));
            }
            let ghost gn = node;
            proof {
                assert(additional is Constrained ==> merged_form(*additional->Constrained_0));
            }
            let node = if can_collapse(&node) { collapse(node) } else { node };
            proof {
                if collapsible(gn) {
                    lemma_member_props_merged(gn.all_of@);
                    lemma_strictest_simple(gn.additional, gn.all_of@);
                    assert forall|i: int| 0 <= i < node.properties@.len() implies merged_form(node.properties@[i].1) by {
                        if i < gn.properties@.len() {
                            assert(node.properties@[i] == gn.properties@[i]);
                        } else {
                            assert(node.properties@[i] == member_props(gn.all_of@)[i - gn.properties@.len()]);
                        }
                    }
                }
            }
            let r = unwrap_single(node);
            proof {
                if collapsible(gn) {
                    assert(collapse_of(gn, node) && unwrapped(node, r));
                } else {
                    assert(unwrapped(gn, r));
                }
                assert(forall|i: int|
                    0 <= i < o.properties@.len() ==> gn.properties@[i].0 == o.properties@[i].0 && merged(
                        o.properties@[i].1,
                        gn.properties@[i].1,
                    ));
                assert(gn.all_of@ == deduped(flat(merged_all@)));
                assert(gn.one_of@ == deduped(merged_one@));
                assert(gn.any_of@ == deduped(merged_any@));
                assert(s0 == Schema::Object(o));
                let w: MergePlan = (gn, merged_all@, merged_one@, merged_any@);
                assert(is_plan(w));
                assert(merged(s0, r));
            }
            r
        },
        other => other,
    }
}

/// `b` is what merging makes of the document `a`: the root and every
/// definition body merged, names and order of the table kept.
pub open spec fn merged_doc(a: Document, b: Document) -> bool {
    &&& merged(a.root, b.root)
    &&& b.definitions@.len() == a.definitions@.len()
    &&& forall|i: int|
        0 <= i < a.definitions@.len() ==> b.definitions@[i].0 == a.definitions@[i].0 && merged(
            a.definitions@[i].1,
            b.definitions@[i].1,
        )
}

/// Runs the merge rules over the root and every definition body, keeping the
/// names and order of the definitions table.
pub fn merge_schemas(doc: Document) -> (r: Document)
    ensures
        merged_doc(doc, r),
        merged_form(r.root),
        equivalent_shape(doc.root, r.root),
        r.definitions@.len() == doc.definitions@.len(),
        forall|i: int|
            0 <= i < doc.definitions@.len() ==> merged(doc.definitions@[i].1, r.definitions@[i].1) && merged_form(
                r.definitions@[i].1,
            ),
        forall|i: int|
            0 <= i < doc.definitions@.len() ==> r.definitions@[i].0 == doc.definitions@[i].0
                && equivalent_shape(doc.definitions@[i].1, r.definitions@[i].1),
        forall|x: Seq<char>| #[trigger] refs_in_props(r.definitions@, x) > 0 <==> refs_in_props(doc.definitions@, x) > 0,
        prop_names(r.definitions@) == prop_names(doc.definitions@),
{
    let Document { root, definitions } = doc;
    let root = merge(root);
    let ghost orig = definitions@;
    let mut rest = definitions;
    let mut defs: Vec<(String, Schema)> = Vec::new();
    let n = rest.len();
    proof {
        assert(orig.subrange(0, 0) =~= Seq::<(String, Schema)>::empty());
    }
    while rest.len() > 0
        invariant
            orig.len() == n,
            defs@.len() + rest@.len() == orig.len(),
            rest@ == orig.subrange(defs@.len() as int, orig.len() as int),
            forall|i: int|
                0 <= i < defs@.len() ==> defs@[i].0 == orig[i].0 && equivalent_shape(orig[i].1, defs@[i].1)
                    && merged(orig[i].1, defs@[i].1) && merged_form(defs@[i].1),
            forall|x: Seq<char>| #[trigger] refs_in_props(defs@, x) > 0 <==> refs_in_props(orig.subrange(0, defs@.len() as int), x) > 0,
            prop_names(defs@) == prop_names(orig.subrange(0, defs@.len() as int)),
        decreases rest@.len(),
    {
        let ghost k = defs@.len() as int;
        let (dn, c) = rest.remove(0);
        assert(c == orig[k].1);
        let t = merge(c);
        proof {
            lemma_prefix_next(orig, k);
            lemma_props_push(orig.subrange(0, k), orig[k]);
            lemma_props_push(defs@, (dn, t));
        }
        defs.push((dn, t));
    }
    assert(orig.subrange(0, orig.len() as int) =~= orig);
    Document { root, definitions: defs }
}

} // verus!
