use vstd::prelude::*;
use crate::cycle::unique_names;
use crate::schema::{
    Document, Policy, Schema, lemma_name_set_push, lemma_props_member, name_set, no_dangling, prop_names, refs_in,
    refs_in_doc, refs_in_props, refs_in_seq,
};

verus! {

/// Why a document cannot be transformed.
#[derive(Debug, PartialEq, Eq)]
pub enum SchemaError {
    /// A reference node names a definition that the table does not hold;
    /// the second field names the definition in whose body it stands, and is
    /// empty for the root.
    DanglingReference(String, Option<String>),
    /// Two definitions of the table share this name.
    DuplicateDefinition(String),
}

proof fn lemma_seq_step(s: Seq<Schema>, i: int)
    requires
        0 <= i < s.len(),
    ensures
        forall|x: Seq<char>| #[trigger] refs_in_seq(s.subrange(0, i + 1), x) == refs_in_seq(s.subrange(0, i), x) + refs_in(s[i], x),
{
    assert(s.subrange(0, i + 1).drop_last() =~= s.subrange(0, i));
}

proof fn lemma_props_step(s: Seq<(String, Schema)>, i: int)
    requires
        0 <= i < s.len(),
    ensures
        forall|x: Seq<char>| #[trigger] refs_in_props(s.subrange(0, i + 1), x) == refs_in_props(s.subrange(0, i), x) + refs_in(s[i].1, x),
{
    assert(s.subrange(0, i + 1).drop_last() =~= s.subrange(0, i));
}

/// Appends to `out` the name of every reference node of `s`.
pub fn collect_refs(s: &Schema, out: &mut Vec<String>)
    ensures
        forall|x: Seq<char>| #[trigger] name_set(final(out)@).contains(x) == (name_set(old(out)@).contains(x) || refs_in(*s, x) > 0),
    decreases s,
{
    match s {
        Schema::Reference(n) => {
            let ghost before = out@;
            out.push(n.clone());
            proof {
                lemma_name_set_push(before, *n);
            }
        },
        Schema::Leaf(_) => {},
        Schema::Object(o) => {
            collect_refs_props(&o.properties, out);
            match &o.additional {
                Policy::Constrained(b) => collect_refs(b, out),
                _ => {},
            }
            collect_refs_vec(&o.all_of, out);
            collect_refs_vec(&o.one_of, out);
            collect_refs_vec(&o.any_of, out);
        },
    }
}

/// Appends to `out` the name of every reference node in the property schemas of `v`.
pub fn collect_refs_props(v: &Vec<(String, Schema)>, out: &mut Vec<String>)
    ensures
        forall|x: Seq<char>| #[trigger] name_set(final(out)@).contains(x) == (name_set(old(out)@).contains(x) || refs_in_props(v@, x) > 0),
    decreases v,
{
    let ghost start = out@;
    let mut i: usize = 0;
    proof {
        assert(v@.subrange(0, 0) =~= Seq::<(String, Schema)>::empty());
    }
    while i < v.len()
        invariant
            i <= v@.len(),
            forall|x: Seq<char>| #[trigger] name_set(out@).contains(x) == (name_set(start).contains(x)
                || refs_in_props(v@.subrange(0, i as int), x) > 0),
        decreases v@.len() - i,
    {
        collect_refs(&v[i].1, out);
        proof {
            lemma_props_step(v@, i as int);
        }
        i = i + 1;
    }
    assert(v@.subrange(0, v@.len() as int) =~= v@);
}

/// Appends to `out` the name of every reference node among the members of `v`.
pub fn collect_refs_vec(v: &Vec<Schema>, out: &mut Vec<String>)
    ensures
        forall|x: Seq<char>| #[trigger] name_set(final(out)@).contains(x) == (name_set(old(out)@).contains(x) || refs_in_seq(v@, x) > 0),
    decreases v,
{
    let ghost start = out@;
    let mut i: usize = 0;
    proof {
        assert(v@.subrange(0, 0) =~= Seq::<Schema>::empty());
    }
    while i < v.len()
        invariant
            i <= v@.len(),
            forall|x: Seq<char>| #[trigger] name_set(out@).contains(x) == (name_set(start).contains(x)
                || refs_in_seq(v@.subrange(0, i as int), x) > 0),
        decreases v@.len() - i,
    {
        collect_refs(&v[i], out);
        proof {
            lemma_seq_step(v@, i as int);
        }
        i = i + 1;
    }
    assert(v@.subrange(0, v@.len() as int) =~= v@);
}

/// Tells whether some definition of `defs` is called `name`.
fn defines(defs: &Vec<(String, Schema)>, name: &String) -> (r: bool)
    ensures
        r == prop_names(defs@).contains(name@),
{
    let mut i: usize = 0;
    while i < defs.len()
        invariant
            i <= defs@.len(),
            forall|j: int| 0 <= j < i ==> defs@[j].0@ != name@,
        decreases defs@.len() - i,
    {
        if defs[i].0.eq(name) {
            return true;
        }
        i = i + 1;
    }
    false
}

/// Finds a name that a reference node of `s` holds and that no definition
/// of `defs` has.
fn first_missing(s: &Schema, defs: &Vec<(String, Schema)>) -> (r: Option<String>)
    ensures
        r is None ==> forall|x: Seq<char>| refs_in(*s, x) > 0 ==> #[trigger] prop_names(defs@).contains(x),
        r matches Some(n) ==> refs_in(*s, n@) > 0 && !prop_names(defs@).contains(n@),
{
    let mut names: Vec<String> = Vec::new();
    proof {
        assert(name_set(names@) =~= Set::empty());
    }
    collect_refs(s, &mut names);
    let mut m: usize = 0;
    while m < names.len()
        invariant
            m <= names@.len(),
            forall|x: Seq<char>| #[trigger] name_set(names@).contains(x) == (refs_in(*s, x) > 0),
            forall|t: int| 0 <= t < m ==> prop_names(defs@).contains(#[trigger] names@[t]@),
        decreases names@.len() - m,
    {
        if !defines(defs, &names[m]) {
            let n = names[m].clone();
            proof {
                assert(name_set(names@).contains(names@[m as int]@));
            }
            return Some(n);
        }
        m = m + 1;
    }
    proof {
        assert forall|x: Seq<char>| refs_in(*s, x) > 0 implies #[trigger] prop_names(defs@).contains(x) by {
            assert(name_set(names@).contains(x));
            let t = choose|t: int| 0 <= t < names@.len() && names@[t]@ == x;
            assert(prop_names(defs@).contains(names@[t]@));
        }
    }
    None
}

/// Checks that the definitions have distinct names and that every reference
/// node names one of them.
pub fn validate(doc: &Document) -> (r: Result<(), SchemaError>)
    ensures
        r is Ok <==> unique_names(doc.definitions@) && no_dangling(*doc),
        r matches Err(SchemaError::DuplicateDefinition(n)) ==> exists|i: int, j: int|
            0 <= i < j < doc.definitions@.len() && doc.definitions@[i].0@ == n@ && doc.definitions@[j].0@ == n@,
        r matches Err(SchemaError::DanglingReference(n, scope)) ==> refs_in_doc(*doc, n@) > 0
            && !prop_names(doc.definitions@).contains(n@),
        r matches Err(SchemaError::DanglingReference(n, scope)) ==> match scope {
            None => refs_in(doc.root, n@) > 0,
            Some(dn) => exists|k: int|
                0 <= k < doc.definitions@.len() && doc.definitions@[k].0@ == dn@ && refs_in(
                    doc.definitions@[k].1,
                    n@,
                ) > 0,
        },
{
    let defs = &doc.definitions;
    let mut i: usize = 0;
    while i < defs.len()
        invariant
            i <= defs@.len(),
            defs@ == doc.definitions@,
            forall|a: int, b: int| 0 <= a < i && 0 <= b < defs@.len() && a != b ==> defs@[a].0@ != defs@[b].0@,
        decreases defs@.len() - i,
    {
        let mut j: usize = 0;
        while j < defs.len()
            invariant
                i < defs@.len(),
                j <= defs@.len(),
                defs@ == doc.definitions@,
                forall|a: int, b: int| 0 <= a < i && 0 <= b < defs@.len() && a != b ==> defs@[a].0@ != defs@[b].0@,
                forall|b: int| 0 <= b < j && b != i ==> defs@[i as int].0@ != defs@[b].0@,
            decreases defs@.len() - j,
        {
            if j != i && defs[i].0.eq(&defs[j].0) {
                let n = defs[i].0.clone();
                proof {
                    let lo: int = if i < j { i as int } else { j as int };
                    let hi: int = if i < j { j as int } else { i as int };
                    assert(defs@[lo].0@ == n@ && defs@[hi].0@ == n@);
                    assert(!unique_names(defs@));
                    assert(0 <= lo < hi < doc.definitions@.len() && doc.definitions@[lo].0@ == n@
                        && doc.definitions@[hi].0@ == n@);
                }
                return Err(SchemaError::DuplicateDefinition(n));
            }
            j = j + 1;
        }
        i = i + 1;
    }
    match first_missing(&doc.root, defs) {
        Some(n) => {
            proof {
                assert(!no_dangling(*doc));
            }
            return Err(SchemaError::DanglingReference(n, None));
        },
        None => {},
    }
    let mut k: usize = 0;
    proof {
        assert(defs@.subrange(0, 0) =~= Seq::<(String, Schema)>::empty());
    }
    while k < defs.len()
        invariant
            k <= defs@.len(),
            defs@ == doc.definitions@,
            forall|x: Seq<char>| refs_in(doc.root, x) > 0 ==> #[trigger] prop_names(defs@).contains(x),
            forall|x: Seq<char>|
                refs_in_props(defs@.subrange(0, k as int), x) > 0 ==> #[trigger] prop_names(defs@).contains(x),
        decreases defs@.len() - k,
    {
        match first_missing(&defs[k].1, defs) {
            Some(n) => {
                let dn = defs[k].0.clone();
                proof {
                    lemma_props_member(defs@, k as int, n@);
                    assert(!no_dangling(*doc));
                }
                return Err(SchemaError::DanglingReference(n, Some(dn)));
            },
            None => {},
        }
        proof {
            lemma_props_step(defs@, k as int);
        }
        k = k + 1;
    }
    assert(defs@.subrange(0, defs@.len() as int) =~= defs@);
    Ok(())
}

} // verus!
