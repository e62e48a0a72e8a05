use vstd::prelude::*;

verus! {

/// What a schema node says of properties outside its declared set.
#[derive(Debug, PartialEq, Eq)]
pub enum Policy {
    /// No explicit choice was made.
    Absent,
    /// Extra properties are accepted.
    Allowed,
    /// Extra properties are rejected.
    Forbidden,
    /// Extra properties must match the given schema.
    Constrained(Box<Schema>),
    /// Every property whose name is not among these evaluated names is rejected.
    RejectUnevaluated(Vec<String>),
}

/// A node of a schema tree.
#[derive(Debug, PartialEq, Eq)]
pub enum Schema {
    /// A lookup key into the definitions table of the enclosing document.
    Reference(String),
    /// A primitive constraint (a type, a format, bounds), kept as its descriptor.
    Leaf(String),
    /// An object schema with its properties and composition groups.
    Object(ObjectSchema),
}

/// An object schema: declared properties, required names, the policy on
/// extra properties and the three composition groups.
#[derive(Debug, PartialEq, Eq)]
pub struct ObjectSchema {
    pub properties: Vec<(String, Schema)>,
    pub required: Vec<String>,
    pub additional: Policy,
    pub all_of: Vec<Schema>,
    pub one_of: Vec<Schema>,
    pub any_of: Vec<Schema>,
}

/// Number of reference nodes naming `name` inside `s`.
pub open spec fn refs_in(s: Schema, name: Seq<char>) -> nat
    decreases s,
{
    match s {
        Schema::Reference(n) => if n@ == name { 1 } else { 0 },
        Schema::Leaf(_) => 0,
        Schema::Object(o) => refs_in_props(o.properties@, name) + refs_in_policy(o.additional, name)
            + refs_in_seq(o.all_of@, name) + refs_in_seq(o.one_of@, name) + refs_in_seq(o.any_of@, name),
    }
}

pub open spec fn refs_in_policy(p: Policy, name: Seq<char>) -> nat
    decreases p,
{
    match p {
        Policy::Constrained(b) => refs_in(*b, name),
        _ => 0,
    }
}

pub open spec fn refs_in_seq(s: Seq<Schema>, name: Seq<char>) -> nat
    decreases s,
{
    if s.len() == 0 {
        0
    } else {
        refs_in_seq(s.drop_last(), name) + refs_in(s.last(), name)
    }
}

pub open spec fn refs_in_props(s: Seq<(String, Schema)>, name: Seq<char>) -> nat
    decreases s,
{
    if s.len() == 0 {
        0
    } else {
        refs_in_props(s.drop_last(), name) + refs_in(s.last().1, name)
    }
}

/// A schema document: a root node and a table of named definitions.
#[derive(Debug, PartialEq, Eq)]
pub struct Document {
    pub root: Schema,
    pub definitions: Vec<(String, Schema)>,
}

/// Number of reference nodes naming `name` in the root and in every definition.
pub open spec fn refs_in_doc(d: Document, name: Seq<char>) -> nat {
    refs_in(d.root, name) + refs_in_props(d.definitions@, name)
}

/// Every reference node of the document names a definition of its table.
pub open spec fn no_dangling(d: Document) -> bool {
    forall|x: Seq<char>| refs_in_doc(d, x) > 0 ==> #[trigger] prop_names(d.definitions@).contains(x)
}

pub proof fn lemma_props_member(s: Seq<(String, Schema)>, i: int, x: Seq<char>)
    requires
        0 <= i < s.len(),
    ensures
        refs_in(s[i].1, x) <= refs_in_props(s, x),
    decreases s.len(),
{
    if i < s.len() - 1 {
        lemma_props_member(s.drop_last(), i, x);
    }
}

/// The set of names that a sequence of strings holds.
pub open spec fn name_set(v: Seq<String>) -> Set<Seq<char>> {
    Set::new(|n: Seq<char>| exists|i: int| 0 <= i < v.len() && v[i]@ == n)
}

/// The names of the properties that `s` declares.
pub open spec fn prop_names(s: Seq<(String, Schema)>) -> Set<Seq<char>> {
    Set::new(|n: Seq<char>| exists|i: int| 0 <= i < s.len() && s[i].0@ == n)
}

/// Every property name declared by `s` or anywhere across its composition
/// groups, recursively; reference nodes are not followed.
pub open spec fn evaluated(s: Schema) -> Set<Seq<char>>
    decreases s,
{
    match s {
        Schema::Object(o) => prop_names(o.properties@).union(evaluated_seq(o.all_of@)).union(
            evaluated_seq(o.one_of@),
        ).union(evaluated_seq(o.any_of@)),
        _ => Set::empty(),
    }
}

pub open spec fn evaluated_seq(s: Seq<Schema>) -> Set<Seq<char>>
    decreases s,
{
    if s.len() == 0 {
        Set::empty()
    } else {
        evaluated_seq(s.drop_last()).union(evaluated(s.last()))
    }
}

pub proof fn lemma_name_set_push(v: Seq<String>, x: String)
    ensures
        name_set(v.push(x)) == name_set(v).insert(x@),
{
    let l = name_set(v.push(x));
    let r = name_set(v).insert(x@);
    assert forall|n: Seq<char>| l.contains(n) implies r.contains(n) by {
        let i = choose|i: int| 0 <= i < v.push(x).len() && v.push(x)[i]@ == n;
        if i < v.len() {
            assert(v[i]@ == n);
        }
    }
    assert forall|n: Seq<char>| r.contains(n) implies l.contains(n) by {
        if n == x@ {
            assert(v.push(x)[v.len() as int]@ == n);
        } else {
            let i = choose|i: int| 0 <= i < v.len() && v[i]@ == n;
            assert(v.push(x)[i]@ == n);
        }
    }
    assert(l =~= r);
}

} // verus!
