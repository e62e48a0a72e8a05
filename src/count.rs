use vstd::prelude::*;
use crate::schema::{Policy, Schema, refs_in, refs_in_policy, refs_in_props, refs_in_seq};

verus! {

/// A count held to the width of a `u64`.
pub open spec fn capped(n: nat) -> nat {
    if n > u64::MAX { u64::MAX as nat } else { n }
}

pub proof fn lemma_capped_add(a: nat, b: nat)
    ensures
        capped(a + b) == capped(capped(a) + capped(b)),
{
}

/// Counts the reference nodes naming `name` inside `s` (at most `u64::MAX`).
pub fn count_refs(s: &Schema, name: &String) -> (r: u64)
    ensures
        r == capped(refs_in(*s, name@)),
    decreases s,
{
    match s {
        Schema::Reference(n) => {
            if n.eq(name) { 1 } else { 0 }
        },
        Schema::Leaf(_) => 0,
        Schema::Object(o) => {
            let a = count_refs_props(&o.properties, name);
            let b = match &o.additional {
                Policy::Constrained(c) => count_refs(c, name),
                _ => 0,
            };
            let c = count_refs_vec(&o.all_of, name);
            let d = count_refs_vec(&o.one_of, name);
            let e = count_refs_vec(&o.any_of, name);
            proof {
                let ra = refs_in_props(o.properties@, name@);
                let rb = refs_in_policy(o.additional, name@);
                let rc = refs_in_seq(o.all_of@, name@);
                let rd = refs_in_seq(o.one_of@, name@);
                let re = refs_in_seq(o.any_of@, name@);
                lemma_capped_add(ra, rb);
                lemma_capped_add(ra + rb, rc);
                lemma_capped_add(ra + rb + rc, rd);
                lemma_capped_add(ra + rb + rc + rd, re);
            }
            a.saturating_add(b).saturating_add(c).saturating_add(d).saturating_add(e)
        },
    }
}

/// Counts the reference nodes naming `name` inside the members of `v`.
pub fn count_refs_vec(v: &Vec<Schema>, name: &String) -> (r: u64)
    ensures
        r == capped(refs_in_seq(v@, name@)),
    decreases v,
{
    let mut total: u64 = 0;
    let mut i: usize = 0;
    while i < v.len()
        invariant
            i <= v.len(),
            total == capped(refs_in_seq(v@.subrange(0, i as int), name@)),
        decreases v.len() - i,
    {
        let k = count_refs(&v[i], name);
        proof {
            let pre = v@.subrange(0, i as int);
            let next = v@.subrange(0, i as int + 1);
            assert(next.drop_last() =~= pre);
            assert(next.last() == v@[i as int]);
            lemma_capped_add(refs_in_seq(pre, name@), refs_in(v@[i as int], name@));
        }
        total = total.saturating_add(k);
        i = i + 1;
    }
    assert(v@.subrange(0, v.len() as int) =~= v@);
    total
}

/// Counts the reference nodes naming `name` inside the property schemas of `v`.
pub fn count_refs_props(v: &Vec<(String, Schema)>, name: &String) -> (r: u64)
    ensures
        r == capped(refs_in_props(v@, name@)),
    decreases v,
{
    let mut total: u64 = 0;
    let mut i: usize = 0;
    while i < v.len()
        invariant
            i <= v.len(),
            total == capped(refs_in_props(v@.subrange(0, i as int), name@)),
        decreases v.len() - i,
    {
        let k = count_refs(&v[i].1, name);
        proof {
            let pre = v@.subrange(0, i as int);
            let next = v@.subrange(0, i as int + 1);
            assert(next.drop_last() =~= pre);
            assert(next.last() == v@[i as int]);
            lemma_capped_add(refs_in_props(pre, name@), refs_in(v@[i as int].1, name@));
        }
        total = total.saturating_add(k);
        i = i + 1;
    }
    assert(v@.subrange(0, v.len() as int) =~= v@);
    total
}

} // verus!
