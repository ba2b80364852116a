//! Field and tag names recovered from `.did` schemas.
//!
//! A schema's type environment is modelled as a [`TypeTable`]: the names it
//! binds, in order, each with the shape of its type.  What the name recovery
//! reads of a type is its record and variant labels and the types nested in
//! it; every other type is [`TypeShape::Other`].
use vstd::prelude::*;
use std::collections::HashMap;
use candid::types::{Type, TypeEnv, TypeInner};
use crate::input::fields_numberable;
use crate::label_guard::check_labels;
use crate::value::{
    label_matches, Args, Field, Label, SpecField, SpecLabel, SpecValue, Value, copy_label, copy_value, fields_view,
    idl_hash, idl_hash_of, lemma_fields_view_index, lemma_fields_view_push, lemma_values_view_index,
    lemma_values_view_push, value_view, values_view,
};

verus! {

broadcast use vstd::std_specs::vec::group_vec_axioms, vstd::std_specs::hash::group_hash_axioms;

/// The part of a Candid type that name recovery reads.
#[derive(Debug, PartialEq, Eq)]
pub enum TypeShape {
    Record(Vec<ShapeField>),
    Variant(Vec<ShapeField>),
    Opt(Box<TypeShape>),
    Vec(Box<TypeShape>),
    /// A function type: its argument types, then its result types.
    Func(Vec<TypeShape>, Vec<TypeShape>),
    /// A service type: the types of its methods, in order.
    Service(Vec<TypeShape>),
    /// A service constructor: its init argument types, then the service type.
    Class(Vec<TypeShape>, Box<TypeShape>),
    /// A reference to a type bound by name.
    Var(String),
    /// Any other type: it holds no label and refers to no name.
    Other,
}

/// A field of a record type, or a tag of a variant type.
#[derive(Debug, PartialEq, Eq)]
pub struct ShapeField {
    pub id: Label,
    pub ty: TypeShape,
}

/// A type environment: `names[i]` is bound to `types[i]`; `services` are
/// the service types that the schemas declare, in order.
#[derive(Debug, PartialEq, Eq)]
pub struct TypeTable {
    pub names: Vec<String>,
    pub types: Vec<TypeShape>,
    pub services: Vec<TypeShape>,
}

impl TypeTable {
    /// One type per name, and no name bound twice.
    pub open spec fn wf(&self) -> bool {
        &&& self.names.len() == self.types.len()
        &&& forall|i: int, j: int|
            0 <= i < j < self.names.len() ==> #[trigger] self.names@[i]@ != #[trigger] self.names@[j]@
    }
}

/// The hash under which binary Candid carries the label `n`.
pub open spec fn hashed(n: Seq<char>) -> u32 {
    idl_hash_of(vstd::utf8::encode_utf8(n))
}

/// The textual label that `l` is, if it is one.
pub open spec fn label_names(l: Label) -> Set<Seq<char>> {
    match l {
        Label::Named(s) => set![s@],
        _ => Set::empty(),
    }
}

/// The textual labels that occur in `t`, not counting the types that `t`
/// refers to by name.
pub open spec fn shape_names(t: TypeShape) -> Set<Seq<char>>
    decreases t,
{
    match t {
        TypeShape::Record(fs) => field_names(fs@),
        TypeShape::Variant(fs) => field_names(fs@),
        TypeShape::Opt(b) => shape_names(*b),
        TypeShape::Vec(b) => shape_names(*b),
        TypeShape::Func(a, r) => shapes_names(a@).union(shapes_names(r@)),
        TypeShape::Service(ms) => shapes_names(ms@),
        TypeShape::Class(a, t) => shapes_names(a@).union(shape_names(*t)),
        TypeShape::Var(_) => Set::empty(),
        TypeShape::Other => Set::empty(),
    }
}

/// The textual labels of the fields `s` and of their types.
pub open spec fn field_names(s: Seq<ShapeField>) -> Set<Seq<char>>
    decreases s,
{
    if s.len() == 0 {
        Set::empty()
    } else {
        field_names(s.subrange(0, s.len() - 1)).union(label_names(s[s.len() - 1].id)).union(
            shape_names(s[s.len() - 1].ty),
        )
    }
}

/// The textual labels that occur in the types `s`.
pub open spec fn shapes_names(s: Seq<TypeShape>) -> Set<Seq<char>>
    decreases s,
{
    if s.len() == 0 {
        Set::empty()
    } else {
        shapes_names(s.subrange(0, s.len() - 1)).union(shape_names(s[s.len() - 1]))
    }
}

/// Every textual label that occurs in the environment's types and in its
/// service types.
pub open spec fn table_names(env: TypeTable) -> Set<Seq<char>> {
    shapes_names(env.types@).union(shapes_names(env.services@))
}

/// The size of `t`, by which the traversal is measured.
pub open spec fn shape_size(t: TypeShape) -> nat
    decreases t,
{
    match t {
        TypeShape::Record(fs) => 1 + fields_size(fs@),
        TypeShape::Variant(fs) => 1 + fields_size(fs@),
        TypeShape::Opt(b) => 1 + shape_size(*b),
        TypeShape::Vec(b) => 1 + shape_size(*b),
        TypeShape::Func(a, r) => 1 + shapes_size(a@) + shapes_size(r@),
        TypeShape::Service(ms) => 1 + shapes_size(ms@),
        TypeShape::Class(a, t) => 1 + shapes_size(a@) + shape_size(*t),
        TypeShape::Var(_) => 1,
        TypeShape::Other => 1,
    }
}

pub open spec fn fields_size(s: Seq<ShapeField>) -> nat
    decreases s,
{
    if s.len() == 0 {
        1
    } else {
        fields_size(s.subrange(0, s.len() - 1)) + shape_size(s[s.len() - 1].ty)
    }
}

pub open spec fn shapes_size(s: Seq<TypeShape>) -> nat
    decreases s,
{
    if s.len() == 0 {
        1
    } else {
        shapes_size(s.subrange(0, s.len() - 1)) + shape_size(s[s.len() - 1])
    }
}

/// The names in a list of visited names.
pub open spec fn seen(v: Seq<String>) -> Seq<Seq<char>> {
    v.map_values(|s: String| s@)
}

/// How many of `names` are not in `vis`.
pub open spec fn unvisited(names: Seq<String>, vis: Seq<Seq<char>>) -> nat
    decreases names.len(),
{
    if names.len() == 0 {
        0
    } else {
        unvisited(names.drop_last(), vis) + if vis.contains(names.last()@) {
            0nat
        } else {
            1nat
        }
    }
}

/// Each entry of `m` maps the hash of a label of `env` to that label.
pub open spec fn sound(env: TypeTable, m: Map<u32, String>) -> bool {
    forall|h: u32|
        #[trigger] m.contains_key(h) ==> table_names(env).contains(m[h]@) && hashed(m[h]@) == h
}

/// Every label of `t` has its hash in `m`.
pub open spec fn covered(t: TypeShape, m: Map<u32, String>) -> bool {
    forall|n: Seq<char>| #[trigger] shape_names(t).contains(n) ==> m.contains_key(hashed(n))
}

/// From `(m0, v0)` to `(m1, v1)`: `m1` is sound, nothing was lost, and every
/// name of `env` visited since has its type's labels in `m1`.
pub open spec fn progress(
    env: TypeTable,
    m0: Map<u32, String>,
    m1: Map<u32, String>,
    v0: Seq<Seq<char>>,
    v1: Seq<Seq<char>>,
) -> bool {
    &&& sound(env, m1)
    &&& forall|h: u32| #[trigger] m0.contains_key(h) ==> m1.contains_key(h)
    &&& forall|s: Seq<char>| #[trigger] v0.contains(s) ==> v1.contains(s)
    &&& forall|i: int|
        0 <= i < env.names.len() && #[trigger] v1.contains(env.names@[i]@) && !v0.contains(
            env.names@[i]@,
        ) ==> covered(env.types@[i], m1)
}

// ---------------------------------------------------------------------------
// Lemmas on the shape model.
// ---------------------------------------------------------------------------

proof fn lemma_fields_size_pos(s: Seq<ShapeField>)
    ensures
        fields_size(s) >= 1,
    decreases s.len(),
{
    if s.len() > 0 {
        lemma_fields_size_pos(s.subrange(0, s.len() - 1));
    }
}

proof fn lemma_shapes_size_pos(s: Seq<TypeShape>)
    ensures
        shapes_size(s) >= 1,
    decreases s.len(),
{
    if s.len() > 0 {
        lemma_shapes_size_pos(s.subrange(0, s.len() - 1));
    }
}

proof fn lemma_field_prefix(s: Seq<ShapeField>, k: int)
    requires
        0 <= k <= s.len(),
    ensures
        field_names(s.subrange(0, k)).subset_of(field_names(s)),
        fields_size(s.subrange(0, k)) <= fields_size(s),
    decreases s.len(),
{
    if k < s.len() {
        let t = s.subrange(0, s.len() - 1);
        lemma_field_prefix(t, k);
        assert(t.subrange(0, k) =~= s.subrange(0, k));
    } else {
        assert(s.subrange(0, k) =~= s);
    }
}

proof fn lemma_field_step(s: Seq<ShapeField>, k: int)
    requires
        0 <= k < s.len(),
    ensures
        field_names(s.subrange(0, k + 1)) == field_names(s.subrange(0, k)).union(
            label_names(s[k].id),
        ).union(shape_names(s[k].ty)),
        fields_size(s.subrange(0, k + 1)) == fields_size(s.subrange(0, k)) + shape_size(s[k].ty),
        label_names(s[k].id).subset_of(field_names(s)),
        shape_names(s[k].ty).subset_of(field_names(s)),
        shape_size(s[k].ty) < fields_size(s),
{
    let p = s.subrange(0, k + 1);
    assert(p.subrange(0, k) =~= s.subrange(0, k));
    assert(p[k] == s[k]);
    lemma_field_prefix(s, k + 1);
    lemma_fields_size_pos(s.subrange(0, k));
}

proof fn lemma_shapes_prefix(s: Seq<TypeShape>, k: int)
    requires
        0 <= k <= s.len(),
    ensures
        shapes_names(s.subrange(0, k)).subset_of(shapes_names(s)),
        shapes_size(s.subrange(0, k)) <= shapes_size(s),
    decreases s.len(),
{
    if k < s.len() {
        let t = s.subrange(0, s.len() - 1);
        lemma_shapes_prefix(t, k);
        assert(t.subrange(0, k) =~= s.subrange(0, k));
    } else {
        assert(s.subrange(0, k) =~= s);
    }
}

proof fn lemma_shapes_step(s: Seq<TypeShape>, k: int)
    requires
        0 <= k < s.len(),
    ensures
        shapes_names(s.subrange(0, k + 1)) == shapes_names(s.subrange(0, k)).union(shape_names(s[k])),
        shape_names(s[k]).subset_of(shapes_names(s)),
        shape_size(s[k]) < shapes_size(s),
{
    let p = s.subrange(0, k + 1);
    assert(p.subrange(0, k) =~= s.subrange(0, k));
    assert(p[k] == s[k]);
    lemma_shapes_prefix(s, k + 1);
    lemma_shapes_size_pos(s.subrange(0, k));
}

/// A label of the types `s` is a label of one of them.
proof fn lemma_shapes_member(s: Seq<TypeShape>, n: Seq<char>)
    requires
        shapes_names(s).contains(n),
    ensures
        exists|j: int| 0 <= j < s.len() && #[trigger] shape_names(s[j]).contains(n),
    decreases s.len(),
{
    let t = s.subrange(0, s.len() - 1);
    if shape_names(s[s.len() - 1]).contains(n) {
        assert(shape_names(s[s.len() - 1]).contains(n));
    } else {
        lemma_shapes_member(t, n);
        let j = choose|j: int| 0 <= j < t.len() && #[trigger] shape_names(t[j]).contains(n);
        assert(t[j] == s[j]);
        assert(shape_names(s[j]).contains(n));
    }
}

proof fn lemma_unvisited_mono(names: Seq<String>, v0: Seq<Seq<char>>, v1: Seq<Seq<char>>)
    requires
        forall|s: Seq<char>| #[trigger] v0.contains(s) ==> v1.contains(s),
    ensures
        unvisited(names, v1) <= unvisited(names, v0),
        (exists|i: int|
            0 <= i < names.len() && !v0.contains(#[trigger] names[i]@) && v1.contains(names[i]@))
            ==> unvisited(names, v1) < unvisited(names, v0),
    decreases names.len(),
{
    if names.len() > 0 {
        let t = names.drop_last();
        lemma_unvisited_mono(t, v0, v1);
        if exists|i: int|
            0 <= i < names.len() && !v0.contains(#[trigger] names[i]@) && v1.contains(names[i]@) {
            let i = choose|i: int|
                0 <= i < names.len() && !v0.contains(#[trigger] names[i]@) && v1.contains(names[i]@);
            if i < names.len() - 1 {
                assert(t[i] == names[i]);
                assert(!v0.contains(t[i]@) && v1.contains(t[i]@));
            }
        }
    }
}

proof fn lemma_progress_trans(
    env: TypeTable,
    m0: Map<u32, String>,
    m1: Map<u32, String>,
    m2: Map<u32, String>,
    v0: Seq<Seq<char>>,
    v1: Seq<Seq<char>>,
    v2: Seq<Seq<char>>,
)
    requires
        progress(env, m0, m1, v0, v1),
        progress(env, m1, m2, v1, v2),
    ensures
        progress(env, m0, m2, v0, v2),
{
    assert forall|i: int|
        0 <= i < env.names.len() && #[trigger] v2.contains(env.names@[i]@) && !v0.contains(
            env.names@[i]@,
        ) implies covered(env.types@[i], m2) by {
        if v1.contains(env.names@[i]@) {
            assert(covered(env.types@[i], m1));
            assert forall|n: Seq<char>| #[trigger]
                shape_names(env.types@[i]).contains(n) implies m2.contains_key(hashed(n)) by {
                assert(m1.contains_key(hashed(n)));
            }
        }
    }
}

proof fn lemma_progress_refl(env: TypeTable, m: Map<u32, String>, v: Seq<Seq<char>>)
    requires
        sound(env, m),
    ensures
        progress(env, m, m, v, v),
{
}

// ---------------------------------------------------------------------------
// Recovering names.
// ---------------------------------------------------------------------------

/// Whether `name` is among the visited names.
fn visited_has(visited: &Vec<String>, name: &String) -> (r: bool)
    ensures
        r == seen(visited@).contains(name@),
{
    let mut k: usize = 0;
    while k < visited.len()
        invariant
            k <= visited.len(),
            forall|j: int| 0 <= j < k ==> visited@[j]@ != name@,
        decreases visited.len() - k,
    {
        if visited[k] == *name {
            assert(seen(visited@)[k as int] == name@);
            return true;
        }
        k = k + 1;
    }
    assert forall|j: int| 0 <= j < seen(visited@).len() implies seen(visited@)[j] != name@ by {
        assert(seen(visited@)[j] == visited@[j]@);
    }
    false
}

/// The position at which `env` binds `name`, if it does.
fn lookup(env: &TypeTable, name: &String) -> (r: Option<usize>)
    requires
        env.wf(),
    ensures
        match r {
            Some(i) => i < env.names.len() && env.names@[i as int]@ == name@,
            None => forall|j: int| 0 <= j < env.names.len() ==> env.names@[j]@ != name@,
        },
{
    let mut k: usize = 0;
    while k < env.names.len()
        invariant
            k <= env.names.len(),
            forall|j: int| 0 <= j < k ==> env.names@[j]@ != name@,
        decreases env.names.len() - k,
    {
        if env.names[k] == *name {
            return Some(k);
        }
        k = k + 1;
    }
    None
}

/// Visits the type bound to `name`, once: a name already visited, or not
/// bound in `env`, adds nothing.
fn collect_from_named(
    name: &String,
    env: &TypeTable,
    map: &mut HashMap<u32, String>,
    visited: &mut Vec<String>,
)
    requires
        env.wf(),
        sound(*env, old(map)@),
    ensures
        progress(*env, old(map)@, final(map)@, seen(old(visited)@), seen(final(visited)@)),
        seen(final(visited)@).contains(name@),
    decreases unvisited(env.names@, seen(old(visited)@)), 0nat,
{
    let ghost m0 = map@;
    let ghost v0 = seen(visited@);
    if visited_has(visited, name) {
        return;
    }
    visited.push(name.clone());
    let ghost v1 = seen(visited@);
    assert(v1 =~= v0.push(name@));
    assert(v1[v1.len() - 1] == name@);
    assert forall|s: Seq<char>| #[trigger] v0.contains(s) implies v1.contains(s) by {
        let j = choose|j: int| 0 <= j < v0.len() && v0[j] == s;
        assert(v1[j] == s);
    }
    match lookup(env, name) {
        Some(i) => {
            proof {
                lemma_unvisited_mono(env.names@, v0, v1);
                assert(!v0.contains(env.names@[i as int]@) && v1.contains(env.names@[i as int]@));
                lemma_shapes_step(env.types@, i as int);
            }
            collect_labels(&env.types[i], env, map, visited);
            proof {
                let m2 = map@;
                let v2 = seen(visited@);
                assert forall|j: int|
                    0 <= j < env.names.len() && #[trigger] v2.contains(env.names@[j]@)
                        && !v0.contains(env.names@[j]@) implies covered(env.types@[j], m2) by {
                    if !v1.contains(env.names@[j]@) {
                    } else {
                        if j != i {
                            assert(env.names@[j]@ != env.names@[i as int]@);
                            let k = choose|k: int| 0 <= k < v1.len() && v1[k] == env.names@[j]@;
                            if k < v0.len() {
                                assert(v0[k] == v1[k]);
                                assert(v0.contains(env.names@[j]@));
                            }
                        }
                    }
                }
                assert forall|s: Seq<char>| #[trigger] v0.contains(s) implies v2.contains(s) by {
                    assert(v1.contains(s));
                }
            }
        },
        None => {
            proof {
                assert forall|j: int|
                    0 <= j < env.names.len() && #[trigger] v1.contains(env.names@[j]@)
                        && !v0.contains(env.names@[j]@) implies covered(env.types@[j], m0) by {
                    let k = choose|k: int| 0 <= k < v1.len() && v1[k] == env.names@[j]@;
                    if k < v0.len() {
                        assert(v0[k] == v1[k]);
                    }
                }
            }
        },
    }
}

/// Records the hash of every label of `ty` (and, through the names `ty`
/// refers to, of the types bound to them, each visited once).
fn collect_labels(
    ty: &TypeShape,
    env: &TypeTable,
    map: &mut HashMap<u32, String>,
    visited: &mut Vec<String>,
)
    requires
        env.wf(),
        sound(*env, old(map)@),
        shape_names(*ty).subset_of(table_names(*env)),
    ensures
        progress(*env, old(map)@, final(map)@, seen(old(visited)@), seen(final(visited)@)),
        covered(*ty, final(map)@),
    decreases unvisited(env.names@, seen(old(visited)@)), shape_size(*ty),
{
    match ty {
        TypeShape::Record(fs) => {
            collect_fields(fs, env, map, visited);
            proof {
                assert(shape_names(*ty) == field_names(fs@));
                assert forall|n: Seq<char>| #[trigger] shape_names(*ty).contains(n) implies map@.contains_key(hashed(n)) by {
                    assert(field_names(fs@).contains(n));
                }
            }
        },
        TypeShape::Variant(fs) => {
            collect_fields(fs, env, map, visited);
            proof {
                assert(shape_names(*ty) == field_names(fs@));
                assert forall|n: Seq<char>| #[trigger] shape_names(*ty).contains(n) implies map@.contains_key(hashed(n)) by {
                    assert(field_names(fs@).contains(n));
                }
            }
        },
        TypeShape::Opt(t) => {
            collect_labels(t, env, map, visited);
            assert(shape_names(*ty) == shape_names(**t));
        },
        TypeShape::Vec(t) => {
            collect_labels(t, env, map, visited);
            assert(shape_names(*ty) == shape_names(**t));
        },
        TypeShape::Func(a, r) => {
            let ghost m0 = map@;
            let ghost v0 = seen(visited@);
            collect_shapes(a, env, map, visited);
            let ghost m1 = map@;
            let ghost v1 = seen(visited@);
            proof {
                lemma_unvisited_mono(env.names@, v0, v1);
            }
            collect_shapes(r, env, map, visited);
            proof {
                lemma_progress_trans(*env, m0, m1, map@, v0, v1, seen(visited@));
                assert forall|n: Seq<char>| #[trigger] shape_names(*ty).contains(n) implies map@.contains_key(hashed(n)) by {
                    if shapes_names(a@).contains(n) {
                        assert(m1.contains_key(hashed(n)));
                    }
                }
            }
        },
        TypeShape::Service(ms) => {
            collect_shapes(ms, env, map, visited);
            proof {
                assert forall|n: Seq<char>| #[trigger] shape_names(*ty).contains(n) implies map@.contains_key(hashed(n)) by {
                    assert(shapes_names(ms@).contains(n));
                }
            }
        },
        TypeShape::Class(a, t) => {
            let ghost m0 = map@;
            let ghost v0 = seen(visited@);
            collect_shapes(a, env, map, visited);
            let ghost m1 = map@;
            let ghost v1 = seen(visited@);
            proof {
                lemma_unvisited_mono(env.names@, v0, v1);
            }
            collect_labels(t, env, map, visited);
            proof {
                lemma_progress_trans(*env, m0, m1, map@, v0, v1, seen(visited@));
                assert forall|n: Seq<char>| #[trigger] shape_names(*ty).contains(n) implies map@.contains_key(hashed(n)) by {
                    if shapes_names(a@).contains(n) {
                        assert(m1.contains_key(hashed(n)));
                    }
                }
            }
        },
        TypeShape::Var(n) => {
            collect_from_named(n, env, map, visited);
            assert(shape_names(*ty) =~= Set::empty());
        },
        TypeShape::Other => {
            proof {
                lemma_progress_refl(*env, map@, seen(visited@));
            }
            assert(shape_names(*ty) =~= Set::empty());
        },
    }
}

/// Records the labels of the fields `fs` and of their types, in order.
fn collect_fields(
    fs: &Vec<ShapeField>,
    env: &TypeTable,
    map: &mut HashMap<u32, String>,
    visited: &mut Vec<String>,
)
    requires
        env.wf(),
        sound(*env, old(map)@),
        field_names(fs@).subset_of(table_names(*env)),
    ensures
        progress(*env, old(map)@, final(map)@, seen(old(visited)@), seen(final(visited)@)),
        forall|n: Seq<char>| #[trigger] field_names(fs@).contains(n) ==> final(map)@.contains_key(hashed(n)),
    decreases unvisited(env.names@, seen(old(visited)@)), fields_size(fs@),
{
    let ghost m0 = map@;
    let ghost v0 = seen(visited@);
    let mut k: usize = 0;
    while k < fs.len()
        invariant
            env.wf(),
            k <= fs.len(),
            field_names(fs@).subset_of(table_names(*env)),
            v0 == seen(old(visited)@),
            progress(*env, m0, map@, v0, seen(visited@)),
            unvisited(env.names@, seen(visited@)) <= unvisited(env.names@, v0),
            forall|n: Seq<char>| #[trigger] field_names(fs@.subrange(0, k as int)).contains(n) ==> map@.contains_key(hashed(n)),
        decreases fs.len() - k,
    {
        let ghost m1 = map@;
        let ghost v1 = seen(visited@);
        proof {
            lemma_field_step(fs@, k as int);
        }
        let f = &fs[k];
        match &f.id {
            Label::Named(n) => {
                let h = idl_hash(n.as_str());
                map.insert(h, n.clone());
                proof {
                    assert(label_names(f.id).contains(n@));
                    assert forall|g: u32| #[trigger] map@.contains_key(g) implies table_names(*env).contains(map@[g]@) && hashed(map@[g]@) == g by {
                        if g != h {
                            assert(m1.contains_key(g));
                        }
                    }
                }
            },
            _ => {},
        }
        let ghost m2 = map@;
        proof {
            assert(progress(*env, m1, m2, v1, v1));
        }
        collect_labels(&f.ty, env, map, visited);
        proof {
            lemma_progress_trans(*env, m1, m2, map@, v1, v1, seen(visited@));
            lemma_progress_trans(*env, m0, m1, map@, v0, v1, seen(visited@));
            lemma_unvisited_mono(env.names@, v1, seen(visited@));
            assert forall|n: Seq<char>| #[trigger] field_names(fs@.subrange(0, k + 1)).contains(n) implies map@.contains_key(hashed(n)) by {
                if field_names(fs@.subrange(0, k as int)).contains(n) {
                    assert(m1.contains_key(hashed(n)));
                } else if label_names(f.id).contains(n) {
                    assert(m2.contains_key(hashed(n)));
                }
            }
        }
        k = k + 1;
    }
    proof {
        assert(fs@.subrange(0, fs.len() as int) =~= fs@);
    }
}

/// Records the labels of the types `ts`, in order.
fn collect_shapes(
    ts: &Vec<TypeShape>,
    env: &TypeTable,
    map: &mut HashMap<u32, String>,
    visited: &mut Vec<String>,
)
    requires
        env.wf(),
        sound(*env, old(map)@),
        shapes_names(ts@).subset_of(table_names(*env)),
    ensures
        progress(*env, old(map)@, final(map)@, seen(old(visited)@), seen(final(visited)@)),
        forall|n: Seq<char>| #[trigger] shapes_names(ts@).contains(n) ==> final(map)@.contains_key(hashed(n)),
    decreases unvisited(env.names@, seen(old(visited)@)), shapes_size(ts@),
{
    let ghost m0 = map@;
    let ghost v0 = seen(visited@);
    let mut k: usize = 0;
    while k < ts.len()
        invariant
            env.wf(),
            k <= ts.len(),
            shapes_names(ts@).subset_of(table_names(*env)),
            v0 == seen(old(visited)@),
            progress(*env, m0, map@, v0, seen(visited@)),
            unvisited(env.names@, seen(visited@)) <= unvisited(env.names@, v0),
            forall|n: Seq<char>| #[trigger] shapes_names(ts@.subrange(0, k as int)).contains(n) ==> map@.contains_key(hashed(n)),
        decreases ts.len() - k,
    {
        let ghost m1 = map@;
        let ghost v1 = seen(visited@);
        proof {
            lemma_shapes_step(ts@, k as int);
        }
        collect_labels(&ts[k], env, map, visited);
        proof {
            lemma_progress_trans(*env, m0, m1, map@, v0, v1, seen(visited@));
            lemma_unvisited_mono(env.names@, v1, seen(visited@));
            assert forall|n: Seq<char>| #[trigger] shapes_names(ts@.subrange(0, k + 1)).contains(n) implies map@.contains_key(hashed(n)) by {
                if shapes_names(ts@.subrange(0, k as int)).contains(n) {
                    assert(m1.contains_key(hashed(n)));
                }
            }
        }
        k = k + 1;
    }
    proof {
        assert(ts@.subrange(0, ts.len() as int) =~= ts@);
    }
}

/// `m` maps back to its name the hash of every textual label that occurs
/// in a type of `env`, and holds nothing else.  (Where two labels share a
/// hash, the entry holds one of them.)
pub open spec fn recovers_names(env: TypeTable, m: Map<u32, String>) -> bool {
    &&& forall|h: u32| #[trigger] m.contains_key(h) <==> exists|n: Seq<char>|
            table_names(env).contains(n) && hashed(n) == h
    &&& forall|h: u32| #[trigger] m.contains_key(h) ==> table_names(env).contains(m[h]@)
            && hashed(m[h]@) == h
}

/// The map from label hashes back to label names for the schema `env`.
pub fn build_hash_map(env: &TypeTable) -> (m: HashMap<u32, String>)
    requires
        env.wf(),
    ensures
        recovers_names(*env, m@),
{
    let mut map: HashMap<u32, String> = HashMap::new();
    let mut visited: Vec<String> = Vec::new();
    let mut i: usize = 0;
    while i < env.names.len()
        invariant
            env.wf(),
            i <= env.names.len(),
            sound(*env, map@),
            forall|j: int| 0 <= j < i ==> #[trigger] seen(visited@).contains(env.names@[j]@),
            forall|j: int| 0 <= j < env.names.len() && #[trigger] seen(visited@).contains(env.names@[j]@)
                ==> covered(env.types@[j], map@),
        decreases env.names.len() - i,
    {
        let ghost m0 = map@;
        let ghost v0 = seen(visited@);
        let name = env.names[i].clone();
        collect_from_named(&name, env, &mut map, &mut visited);
        proof {
            assert forall|j: int| 0 <= j < env.names.len() && #[trigger] seen(visited@).contains(env.names@[j]@)
                implies covered(env.types@[j], map@) by {
                if v0.contains(env.names@[j]@) {
                    assert(covered(env.types@[j], m0));
                    assert forall|n: Seq<char>| #[trigger] shape_names(env.types@[j]).contains(n)
                        implies map@.contains_key(hashed(n)) by {
                        assert(m0.contains_key(hashed(n)));
                    }
                }
            }
            assert forall|j: int| 0 <= j < i + 1 implies #[trigger] seen(visited@).contains(env.names@[j]@) by {
                if j < i {
                    assert(v0.contains(env.names@[j]@));
                }
            }
        }
        i = i + 1;
    }
    let mut k: usize = 0;
    while k < env.services.len()
        invariant
            env.wf(),
            k <= env.services.len(),
            sound(*env, map@),
            forall|j: int| 0 <= j < env.names.len() ==> #[trigger] seen(visited@).contains(env.names@[j]@),
            forall|j: int| 0 <= j < env.names.len() && #[trigger] seen(visited@).contains(env.names@[j]@)
                ==> covered(env.types@[j], map@),
            forall|j: int| 0 <= j < k ==> covered(#[trigger] env.services@[j], map@),
        decreases env.services.len() - k,
    {
        let ghost m0 = map@;
        let ghost v0 = seen(visited@);
        proof {
            lemma_shapes_step(env.services@, k as int);
        }
        collect_labels(&env.services[k], env, &mut map, &mut visited);
        proof {
            assert forall|j: int| 0 <= j < env.names.len() implies #[trigger] seen(visited@).contains(env.names@[j]@) by {
                assert(v0.contains(env.names@[j]@));
            }
            assert forall|j: int| 0 <= j < env.names.len() && #[trigger] seen(visited@).contains(env.names@[j]@)
                implies covered(env.types@[j], map@) by {
                assert(v0.contains(env.names@[j]@));
                assert(covered(env.types@[j], m0));
                assert forall|n: Seq<char>| #[trigger] shape_names(env.types@[j]).contains(n)
                    implies map@.contains_key(hashed(n)) by {
                    assert(m0.contains_key(hashed(n)));
                }
            }
            assert forall|j: int| 0 <= j < k + 1 implies covered(#[trigger] env.services@[j], map@) by {
                if j < k {
                    assert(covered(env.services@[j], m0));
                    assert forall|n: Seq<char>| #[trigger] shape_names(env.services@[j]).contains(n)
                        implies map@.contains_key(hashed(n)) by {
                        assert(m0.contains_key(hashed(n)));
                    }
                }
            }
        }
        k = k + 1;
    }
    proof {
        assert forall|h: u32| #[trigger] map@.contains_key(h) <==> exists|n: Seq<char>|
            table_names(*env).contains(n) && hashed(n) == h by {
            if map@.contains_key(h) {
                assert(table_names(*env).contains(map@[h]@) && hashed(map@[h]@) == h);
            }
            if exists|n: Seq<char>| table_names(*env).contains(n) && hashed(n) == h {
                let n = choose|n: Seq<char>| table_names(*env).contains(n) && hashed(n) == h;
                if shapes_names(env.types@).contains(n) {
                    lemma_shapes_member(env.types@, n);
                    let j = choose|j: int| 0 <= j < env.types@.len() && #[trigger] shape_names(env.types@[j]).contains(n);
                    assert(seen(visited@).contains(env.names@[j]@));
                    assert(covered(env.types@[j], map@));
                } else {
                    lemma_shapes_member(env.services@, n);
                    let j = choose|j: int| 0 <= j < env.services@.len() && #[trigger] shape_names(env.services@[j]).contains(n);
                    assert(covered(env.services@[j], map@));
                }
            }
        }
    }
    map
}


// ---------------------------------------------------------------------------
// Reading schemas (candid_parser, candid).
// ---------------------------------------------------------------------------

/// candid's type environment: the bindings of the schemas read so far.
#[verifier::external_type_specification]
#[verifier::external_body]
pub struct ExTypeEnv(TypeEnv);

/// A candid type.
#[verifier::external_type_specification]
#[verifier::external_body]
pub struct ExType(Type);

/// A parsed `.did` program.
#[verifier::external_type_specification]
#[verifier::external_body]
pub struct ExIdlProg(candid_parser::IDLProg);

/// The names that the type environment `env` binds (a `BTreeMap` of
/// candid's, keyed by name).
pub uninterp spec fn env_names(env: TypeEnv) -> Set<Seq<char>>;

/// `TypeEnv::new` (candid): an environment that binds no name.
pub assume_specification[ TypeEnv::new ]() -> (r: TypeEnv)
    ensures
        env_names(r) == Set::<Seq<char>>::empty(),
;

/// Whether candid_parser parses `src` as a `.did` program.
pub uninterp spec fn did_parses(src: Seq<char>) -> bool;

/// The message of candid_parser's error for the `.did` text `src`.
pub uninterp spec fn did_parse_error(src: Seq<char>) -> Seq<char>;

/// The program that candid_parser parses the `.did` text `src` into.
pub uninterp spec fn did_program(src: Seq<char>) -> candid_parser::IDLProg;

/// `IDLProg`'s `FromStr` (candid_parser): parses `src` as a `.did`
/// program; on failure, the message of candid_parser's error.  Text whose
/// record field numbering could pass 4294967295 is left out: in builds
/// with overflow checks candid_parser panics on it.
#[verifier::external_body]
fn parse_did(src: &str) -> (r: Result<candid_parser::IDLProg, String>)
    requires
        fields_numberable(src@),
    ensures
        r is Ok <==> did_parses(src@),
        r matches Ok(p) ==> p == did_program(src@),
        r matches Err(m) ==> m@ == did_parse_error(src@),
{
    match src.parse::<candid_parser::IDLProg>() {
        Ok(p) => Ok(p),
        Err(e) => Err(e.to_string()),
    }
}

/// Whether `candid_parser::check_prog` accepts `prog` against `env`.
pub uninterp spec fn prog_checks(env: TypeEnv, prog: candid_parser::IDLProg) -> bool;

/// The message of `candid_parser::check_prog`'s error for `prog` against `env`.
pub uninterp spec fn prog_check_error(env: TypeEnv, prog: candid_parser::IDLProg) -> Seq<char>;

/// The environment that `candid_parser::check_prog` leaves after accepting
/// `prog` against `env`: `env` with the bindings of `prog` added.
pub uninterp spec fn env_after(env: TypeEnv, prog: candid_parser::IDLProg) -> TypeEnv;

/// The service type that `candid_parser::check_prog` returns for `prog`
/// against `env`, as a [`TypeShape`] (none when `prog` declares no service).
pub uninterp spec fn prog_service(env: TypeEnv, prog: candid_parser::IDLProg) -> Option<TypeShape>;

/// `candid_parser::check_prog`: type-checks `prog` against `env` and, when
/// it accepts it, adds its bindings to `env` and returns the shape of its
/// service type, if it declares one; on failure, the message of
/// candid_parser's error.  All three depend on what `env` binds and on
/// `prog` alone (the checker walks `BTreeMap`s and `BTreeSet`s).  What
/// `env` holds after a failure is not stated.
#[verifier::external_body]
fn check_program(env: &mut TypeEnv, prog: &candid_parser::IDLProg) -> (r: Result<Option<TypeShape>, String>)
    ensures
        r is Ok <==> prog_checks(*old(env), *prog),
        r is Ok ==> *final(env) == env_after(*old(env), *prog),
        r matches Ok(t) ==> t == prog_service(*old(env), *prog),
        r matches Err(m) ==> m@ == prog_check_error(*old(env), *prog),
{
    match candid_parser::check_prog(env, prog) {
        Ok(actor) => Ok(actor.as_ref().map(shape_of)),
        Err(e) => Err(e.to_string()),
    }
}

/// The fields of a candid record or variant type, each with its label
/// (variant for variant) and the shape of its type; none for another type.
#[verifier::external_body]
fn fields_of(t: &Type) -> Vec<ShapeField> {
    match t.as_ref() {
        TypeInner::Record(fs) | TypeInner::Variant(fs) => fs.iter().map(|f| ShapeField {
            id: match f.id.as_ref() {
                candid::types::Label::Id(n) => Label::Id(*n),
                candid::types::Label::Named(s) => Label::Named(s.clone()),
                candid::types::Label::Unnamed(n) => Label::Unnamed(*n),
            },
            ty: shape_of(&f.ty),
        }).collect(),
        _ => Vec::new(),
    }
}

/// Candid types as [`TypeShape`]s, one for one, in order.
#[verifier::external_body]
fn shapes_of(ts: &[Type]) -> Vec<TypeShape> {
    ts.iter().map(shape_of).collect()
}

/// The types of a service's methods as [`TypeShape`]s, in order.
#[verifier::external_body]
fn method_shapes(ms: &[(String, Type)]) -> Vec<TypeShape> {
    ms.iter().map(|m| shape_of(&m.1)).collect()
}

/// A candid type as a [`TypeShape`], variant for variant; every type that
/// holds no label and no named reference is [`TypeShape::Other`].
#[verifier::external_body]
fn shape_of(t: &Type) -> TypeShape {
    match t.as_ref() {
        TypeInner::Record(_) => TypeShape::Record(fields_of(t)),
        TypeInner::Variant(_) => TypeShape::Variant(fields_of(t)),
        TypeInner::Opt(u) => TypeShape::Opt(Box::new(shape_of(u))),
        TypeInner::Vec(u) => TypeShape::Vec(Box::new(shape_of(u))),
        TypeInner::Func(f) => TypeShape::Func(shapes_of(&f.args), shapes_of(&f.rets)),
        TypeInner::Service(ms) => TypeShape::Service(method_shapes(ms)),
        TypeInner::Class(a, t) => TypeShape::Class(shapes_of(a), Box::new(shape_of(t))),
        TypeInner::Var(n) => TypeShape::Var(n.clone()),
        _ => TypeShape::Other,
    }
}

/// The names that `env` binds, in the map's order.
pub uninterp spec fn env_table_names(env: TypeEnv) -> Seq<Seq<char>>;

/// The shapes of the types that `env` binds, in the map's order of names.
pub uninterp spec fn env_table_types(env: TypeEnv) -> Seq<TypeShape>;

/// The bindings of `env` (a `BTreeMap` of candid's), in the map's order of
/// names, each with the shape of its type, as a [`TypeTable`] with the
/// service types `services`.  The map holds each name once.
#[verifier::external_body]
fn table_of(env: &TypeEnv, services: Vec<TypeShape>) -> (r: TypeTable)
    ensures
        seen(r.names@) == env_table_names(*env),
        r.types@ == env_table_types(*env),
        r.services == services,
        r.wf(),
{
    let (names, types) = env.0.iter().map(|(n, t)| (n.clone(), shape_of(t))).unzip();
    TypeTable { names, types, services }
}

/// Whether the `.did` text `src` is read: its fields can be numbered, and
/// candid_parser parses it.
pub open spec fn did_readable(src: Seq<char>) -> bool {
    fields_numberable(src) && did_parses(src)
}

/// Why the `.did` text `src` is not read.
pub open spec fn did_read_error(src: Seq<char>) -> Seq<char> {
    if !fields_numberable(src) {
        "a field id is too close to 4294967295"@
    } else {
        did_parse_error(src)
    }
}

/// The message for text whose field numbering could overflow.
fn field_id_message() -> (r: String)
    ensures
        r@ == "a field id is too close to 4294967295"@,
{
    let mut s = String::new();
    s.push_str("a field id is too close to 4294967295");
    s
}

/// A `.did` schema: the path it was read from, and its text.
#[derive(Debug, PartialEq, Eq)]
pub struct DidSource {
    pub path: String,
    pub text: String,
}

/// Why the schemas could not be loaded.
#[derive(Debug, PartialEq, Eq)]
pub enum SchemaError {
    /// The schema at the path is not a `.did` program (candid_parser's message).
    Parse(String, String),
    /// The schema at the path does not type-check (candid_parser's message).
    Check(String, String),
}

/// The message of a [`SchemaError`], given its parts.
pub open spec fn schema_error_text(e: SchemaError) -> Seq<char> {
    match e {
        SchemaError::Parse(p, m) => "failed to parse "@ + p@ + ": "@ + m@,
        SchemaError::Check(p, m) => "type error in "@ + p@ + ": "@ + m@,
    }
}

impl SchemaError {
    /// The message that describes this error.
    pub fn message(&self) -> (r: String)
        ensures
            r@ == schema_error_text(*self),
    {
        let mut s = String::new();
        match self {
            SchemaError::Parse(p, m) => {
                s.push_str("failed to parse ");
                s.push_str(p.as_str());
                s.push_str(": ");
                s.push_str(m.as_str());
            },
            SchemaError::Check(p, m) => {
                s.push_str("type error in ");
                s.push_str(p.as_str());
                s.push_str(": ");
                s.push_str(m.as_str());
            },
        }
        assert(s@ =~= schema_error_text(*self));
        s
    }
}

/// The schemas given on the command line, and the names they recover.
pub struct SchemaResolver {
    pub type_env: TypeTable,
    pub hash_to_name: HashMap<u32, String>,
}

/// The texts of the schemas `dids`, in order.
pub open spec fn did_texts(dids: Seq<DidSource>) -> Seq<Seq<char>> {
    Seq::new(dids.len(), |i: int| dids[i].text@)
}

/// The environment that checking the programs of the `.did` texts `srcs`,
/// in order, leaves in `e0`.
pub open spec fn env_reading(e0: TypeEnv, srcs: Seq<Seq<char>>) -> TypeEnv
    decreases srcs.len(),
{
    if srcs.len() == 0 {
        e0
    } else {
        env_after(env_reading(e0, srcs.drop_last()), did_program(srcs.last()))
    }
}

/// The service types that checking the programs of the `.did` texts
/// `srcs`, in order, into `e0` returns, in order (a program that declares
/// no service adds none).
pub open spec fn services_reading(e0: TypeEnv, srcs: Seq<Seq<char>>) -> Seq<TypeShape>
    decreases srcs.len(),
{
    if srcs.len() == 0 {
        Seq::empty()
    } else {
        let before = srcs.drop_last();
        services_reading(e0, before) + match prog_service(env_reading(e0, before), did_program(srcs.last())) {
            Some(t) => seq![t],
            None => Seq::empty(),
        }
    }
}

/// Whether the `i`-th of the texts `srcs` is read and type-checks against
/// what the texts before it left in `e0`.
pub open spec fn did_accepted(e0: TypeEnv, srcs: Seq<Seq<char>>, i: int) -> bool {
    &&& did_readable(srcs[i])
    &&& prog_checks(env_reading(e0, srcs.take(i)), did_program(srcs[i]))
}

/// What reading the schemas `dids` in order into `e0` gives: the table of
/// the final environment with the schemas' service types, and the names
/// of their labels, when every schema is accepted;
/// otherwise the error of the first schema that is not, with its path.
pub open spec fn load_outcome(e0: TypeEnv, dids: Seq<DidSource>, r: Result<SchemaResolver, SchemaError>) -> bool {
    let srcs = did_texts(dids);
    match r {
        Ok(s) => {
            &&& forall|i: int| 0 <= i < dids.len() ==> #[trigger] did_accepted(e0, srcs, i)
            &&& seen(s.type_env.names@) == env_table_names(env_reading(e0, srcs))
            &&& s.type_env.types@ == env_table_types(env_reading(e0, srcs))
            &&& s.type_env.services@ == services_reading(e0, srcs)
            &&& s.type_env.wf()
            &&& recovers_names(s.type_env, s.hash_to_name@)
        },
        Err(SchemaError::Parse(p, m)) => exists|i: int| #![trigger dids[i]] {
            &&& 0 <= i < dids.len()
            &&& forall|j: int| 0 <= j < i ==> #[trigger] did_accepted(e0, srcs, j)
            &&& !did_readable(srcs[i])
            &&& p@ == dids[i].path@
            &&& m@ == did_read_error(srcs[i])
        },
        Err(SchemaError::Check(p, m)) => exists|i: int| #![trigger dids[i]] {
            &&& 0 <= i < dids.len()
            &&& forall|j: int| 0 <= j < i ==> #[trigger] did_accepted(e0, srcs, j)
            &&& did_readable(srcs[i])
            &&& !prog_checks(env_reading(e0, srcs.take(i)), did_program(srcs[i]))
            &&& p@ == dids[i].path@
            &&& m@ == prog_check_error(env_reading(e0, srcs.take(i)), did_program(srcs[i]))
        },
    }
}

impl SchemaResolver {
    /// Reads the schemas `dids` in order into one environment, that starts
    /// with no binding, and recovers the names of the labels of its types
    /// and of the schemas' service declarations.  The first
    /// schema that does not parse, or does not type-check against those
    /// before it, stops the reading.
    pub fn load(dids: &[DidSource]) -> (r: Result<SchemaResolver, SchemaError>)
        ensures
            exists|e0: TypeEnv|
                env_names(e0) == Set::<Seq<char>>::empty() && #[trigger] load_outcome(e0, dids@, r),
    {
        let mut env = TypeEnv::new();
        let ghost e0 = env;
        let ghost srcs = did_texts(dids@);
        let mut services: Vec<TypeShape> = Vec::new();
        let mut k: usize = 0;
        while k < dids.len()
            invariant
                k <= dids.len(),
                srcs == did_texts(dids@),
                env_names(e0) == Set::<Seq<char>>::empty(),
                env == env_reading(e0, srcs.take(k as int)),
                services@ == services_reading(e0, srcs.take(k as int)),
                forall|j: int| 0 <= j < k ==> #[trigger] did_accepted(e0, srcs, j),
            decreases dids.len() - k,
        {
            assert(srcs[k as int] == dids@[k as int].text@);
            if !(check_labels(dids[k].text.as_str(), '=') && check_labels(dids[k].text.as_str(), ':')) {
                let r = Err(SchemaError::Parse(dids[k].path.clone(), field_id_message()));
                assert(load_outcome(e0, dids@, r));
                return r;
            }
            let prog = match parse_did(dids[k].text.as_str()) {
                Ok(p) => p,
                Err(m) => {
                    let r = Err(SchemaError::Parse(dids[k].path.clone(), m));
                    assert(load_outcome(e0, dids@, r));
                    return r;
                },
            };
            match check_program(&mut env, &prog) {
                Ok(service) => {
                    assert(srcs.take(k + 1).drop_last() =~= srcs.take(k as int));
                    match service {
                        Some(t) => {
                            services.push(t);
                        },
                        None => {
                            assert(services@ + Seq::<TypeShape>::empty() =~= services@);
                        },
                    }
                },
                Err(m) => {
                    let r = Err(SchemaError::Check(dids[k].path.clone(), m));
                    assert(load_outcome(e0, dids@, r));
                    return r;
                },
            }
            assert(srcs.take(k + 1).drop_last() =~= srcs.take(k as int));
            assert(did_accepted(e0, srcs, k as int));
            k = k + 1;
        }
        assert(srcs.take(k as int) =~= srcs);
        let table = table_of(&env, services);
        let hash_to_name = build_hash_map(&table);
        let r = Ok(SchemaResolver { type_env: table, hash_to_name });
        assert(load_outcome(e0, dids@, r));
        r
    }
}


// ---------------------------------------------------------------------------
// Putting recovered names on values.
// ---------------------------------------------------------------------------

/// `l`, with a numeric label that `m` knows replaced by its name.
pub open spec fn renamed_label(l: SpecLabel, m: Map<u32, String>) -> SpecLabel {
    match l {
        SpecLabel::Id(h) => if m.contains_key(h) {
            SpecLabel::Named(m[h]@)
        } else {
            SpecLabel::Id(h)
        },
        _ => l,
    }
}

/// `v`, with every numeric field and tag label that `m` knows, at any
/// depth, replaced by its name; nothing else changes.
pub open spec fn renamed(v: SpecValue, m: Map<u32, String>) -> SpecValue
    decreases v,
{
    match v {
        SpecValue::Opt(b) => SpecValue::Opt(Box::new(renamed(*b, m))),
        SpecValue::Vec(items) => SpecValue::Vec(renamed_values(items, m)),
        SpecValue::Record(fs) => SpecValue::Record(renamed_fields(fs, m)),
        SpecValue::Variant(f, i) => SpecValue::Variant(
            Box::new(SpecField { id: renamed_label(f.id, m), val: renamed(f.val, m) }),
            i,
        ),
        _ => v,
    }
}

/// Each of `s`, renamed.
pub open spec fn renamed_values(s: Seq<SpecValue>, m: Map<u32, String>) -> Seq<SpecValue>
    decreases s,
{
    if s.len() == 0 {
        Seq::empty()
    } else {
        renamed_values(s.subrange(0, s.len() - 1), m).push(renamed(s[s.len() - 1], m))
    }
}

/// Each of the fields `s`, label and value renamed.
pub open spec fn renamed_fields(s: Seq<SpecField>, m: Map<u32, String>) -> Seq<SpecField>
    decreases s,
{
    if s.len() == 0 {
        Seq::empty()
    } else {
        renamed_fields(s.subrange(0, s.len() - 1), m).push(
            SpecField { id: renamed_label(s[s.len() - 1].id, m), val: renamed(s[s.len() - 1].val, m) },
        )
    }
}

fn label_with_names(l: &Label, names: &HashMap<u32, String>) -> (r: Label)
    ensures
        r@ == renamed_label(l@, names@),
{
    match l {
        Label::Id(h) => match names.get(h) {
            Some(n) => Label::Named(n.clone()),
            None => Label::Id(*h),
        },
        _ => copy_label(l),
    }
}

fn field_with_names(f: &Field, names: &HashMap<u32, String>) -> (r: Field)
    ensures
        r@ == (SpecField { id: renamed_label(f@.id, names@), val: renamed(f@.val, names@) }),
    decreases f,
{
    Field { id: label_with_names(&f.id, names), val: with_names(&f.val, names) }
}

fn values_with_names(vs: &Vec<Value>, names: &HashMap<u32, String>) -> (r: Vec<Value>)
    ensures
        values_view(r@) == renamed_values(values_view(vs@), names@),
    decreases vs, 0int,
{
    let mut out: Vec<Value> = Vec::new();
    let mut k: usize = 0;
    proof {
        lemma_values_view_index(vs@);
    }
    while k < vs.len()
        invariant
            k <= vs@.len(),
            values_view(vs@).len() == vs@.len(),
            forall|i: int| 0 <= i < vs@.len() ==> #[trigger] values_view(vs@)[i] == value_view(vs@[i]),
            values_view(out@) == renamed_values(values_view(vs@).subrange(0, k as int), names@),
        decreases vs.len() - k,
    {
        let v = with_names(&vs[k], names);
        proof {
            lemma_values_view_push(out@, v);
            let p = values_view(vs@).subrange(0, k + 1);
            assert(p.subrange(0, k as int) =~= values_view(vs@).subrange(0, k as int));
            assert(p[k as int] == value_view(vs@[k as int]));
        }
        out.push(v);
        k = k + 1;
    }
    assert(values_view(vs@).subrange(0, vs@.len() as int) =~= values_view(vs@));
    out
}

fn fields_with_names(fs: &Vec<Field>, names: &HashMap<u32, String>) -> (r: Vec<Field>)
    ensures
        fields_view(r@) == renamed_fields(fields_view(fs@), names@),
    decreases fs, 0int,
{
    let mut out: Vec<Field> = Vec::new();
    let mut k: usize = 0;
    proof {
        lemma_fields_view_index(fs@);
    }
    while k < fs.len()
        invariant
            k <= fs@.len(),
            fields_view(fs@).len() == fs@.len(),
            forall|i: int| 0 <= i < fs@.len() ==> #[trigger] fields_view(fs@)[i] == fs@[i]@,
            fields_view(out@) == renamed_fields(fields_view(fs@).subrange(0, k as int), names@),
        decreases fs.len() - k,
    {
        let f = field_with_names(&fs[k], names);
        proof {
            lemma_fields_view_push(out@, f);
            let p = fields_view(fs@).subrange(0, k + 1);
            assert(p.subrange(0, k as int) =~= fields_view(fs@).subrange(0, k as int));
            assert(p[k as int] == fs@[k as int]@);
        }
        out.push(f);
        k = k + 1;
    }
    assert(fields_view(fs@).subrange(0, fs@.len() as int) =~= fields_view(fs@));
    out
}

/// `v` with the names of `names` put on its numeric labels.
pub fn with_names(v: &Value, names: &HashMap<u32, String>) -> (r: Value)
    ensures
        r@ == renamed(v@, names@),
    decreases v,
{
    match v {
        Value::Opt(b) => Value::Opt(Box::new(with_names(b, names))),
        Value::Vec(items) => Value::Vec(values_with_names(items, names)),
        Value::Record(fs) => Value::Record(fields_with_names(fs, names)),
        Value::Variant(f, i) => Value::Variant(Box::new(field_with_names(f, names)), *i),
        _ => copy_value(v),
    }
}

/// The argument list `a` with the names of `names` put on its numeric labels.
pub fn args_with_names(a: &Args, names: &HashMap<u32, String>) -> (r: Args)
    ensures
        r@ == renamed_values(a@, names@),
{
    Args { args: values_with_names(&a.args, names) }
}


/// The hash by which binary Candid knows the label `l`.
pub open spec fn label_hash(l: SpecLabel) -> u32 {
    match l {
        SpecLabel::Id(h) => h,
        SpecLabel::Unnamed(h) => h,
        SpecLabel::Named(n) => hashed(n),
    }
}

/// Names recovered from a schema keep what a label is: with the map that
/// [`build_hash_map`] recovers, a renamed label is known by the same hash
/// as before (so it encodes to the same binary Candid), and a query that
/// names the renamed label named the label before.
pub proof fn lemma_renaming_keeps_hashes(env: TypeTable, m: Map<u32, String>, l: SpecLabel, name: Seq<char>)
    requires
        recovers_names(env, m),
    ensures
        label_hash(renamed_label(l, m)) == label_hash(l),
        label_matches(renamed_label(l, m), name) ==> label_matches(l, name),
{
    if let SpecLabel::Id(h) = l {
        if m.contains_key(h) {
            assert(hashed(m[h]@) == h);
        }
    }
}

// ---------------------------------------------------------------------------
// What renaming and label recovery do, stated over the syntax of values
// and types.
// ---------------------------------------------------------------------------

/// A numeric label that `m` knows.
pub open spec fn known_id(l: SpecLabel, m: Map<u32, String>) -> bool {
    l matches SpecLabel::Id(h) && m.contains_key(h)
}

/// Whether a numeric label that `m` knows stands anywhere in `v`: on a
/// record field or a variant tag, at any depth, under opt and vec included.
pub open spec fn known_id_in(v: SpecValue, m: Map<u32, String>) -> bool
    decreases v,
{
    match v {
        SpecValue::Opt(b) => known_id_in(*b, m),
        SpecValue::Vec(items) => known_id_in_values(items, m),
        SpecValue::Record(fs) => known_id_in_fields(fs, m),
        SpecValue::Variant(f, _) => known_id(f.id, m) || known_id_in(f.val, m),
        _ => false,
    }
}

/// Whether a numeric label that `m` knows stands in one of the values `s`.
pub open spec fn known_id_in_values(s: Seq<SpecValue>, m: Map<u32, String>) -> bool
    decreases s,
{
    if s.len() == 0 {
        false
    } else {
        known_id_in(s[0], m) || known_id_in_values(s.subrange(1, s.len() as int), m)
    }
}

/// Whether a numeric label that `m` knows labels one of the fields `s` or
/// stands in one of their values.
pub open spec fn known_id_in_fields(s: Seq<SpecField>, m: Map<u32, String>) -> bool
    decreases s,
{
    if s.len() == 0 {
        false
    } else {
        known_id(s[0].id, m) || known_id_in(s[0].val, m) || known_id_in_fields(s.subrange(1, s.len() as int), m)
    }
}

proof fn lemma_known_in_values_index(s: Seq<SpecValue>, m: Map<u32, String>)
    requires
        forall|i: int| 0 <= i < s.len() ==> !#[trigger] known_id_in(s[i], m),
    ensures
        !known_id_in_values(s, m),
    decreases s.len(),
{
    if s.len() > 0 {
        let t = s.subrange(1, s.len() as int);
        assert forall|i: int| 0 <= i < t.len() implies !#[trigger] known_id_in(t[i], m) by {
            assert(t[i] == s[i + 1]);
            assert(!known_id_in(s[i + 1], m));
        }
        lemma_known_in_values_index(t, m);
        assert(!known_id_in(s[0], m));
    }
}

proof fn lemma_known_in_fields_index(s: Seq<SpecField>, m: Map<u32, String>)
    requires
        forall|i: int| #![trigger s[i]] 0 <= i < s.len() ==> !known_id(s[i].id, m) && !known_id_in(s[i].val, m),
    ensures
        !known_id_in_fields(s, m),
    decreases s.len(),
{
    if s.len() > 0 {
        let t = s.subrange(1, s.len() as int);
        assert forall|i: int| #![trigger t[i]] 0 <= i < t.len() implies !known_id(t[i].id, m) && !known_id_in(t[i].val, m) by {
            assert(t[i] == s[i + 1]);
            assert(!known_id(s[i + 1].id, m) && !known_id_in(s[i + 1].val, m));
        }
        lemma_known_in_fields_index(t, m);
        assert(!known_id_in(s[0].val, m));
    }
}

proof fn lemma_renamed_values_index(s: Seq<SpecValue>, m: Map<u32, String>)
    ensures
        renamed_values(s, m).len() == s.len(),
        forall|i: int| 0 <= i < s.len() ==> #[trigger] renamed_values(s, m)[i] == renamed(s[i], m),
    decreases s.len(),
{
    if s.len() > 0 {
        let t = s.subrange(0, s.len() - 1);
        lemma_renamed_values_index(t, m);
        assert forall|i: int| 0 <= i < s.len() implies #[trigger] renamed_values(s, m)[i] == renamed(s[i], m) by {
            if i < s.len() - 1 {
                assert(t[i] == s[i]);
            }
        }
    }
}

proof fn lemma_renamed_fields_index(s: Seq<SpecField>, m: Map<u32, String>)
    ensures
        renamed_fields(s, m).len() == s.len(),
        forall|i: int| 0 <= i < s.len() ==> #[trigger] renamed_fields(s, m)[i] == (SpecField {
            id: renamed_label(s[i].id, m),
            val: renamed(s[i].val, m),
        }),
    decreases s.len(),
{
    if s.len() > 0 {
        let t = s.subrange(0, s.len() - 1);
        lemma_renamed_fields_index(t, m);
        assert forall|i: int| 0 <= i < s.len() implies #[trigger] renamed_fields(s, m)[i] == (SpecField {
            id: renamed_label(s[i].id, m),
            val: renamed(s[i].val, m),
        }) by {
            if i < s.len() - 1 {
                assert(t[i] == s[i]);
            }
        }
    }
}

/// After renaming with `m`, no numeric label that `m` knows is left
/// anywhere in the value: not on a field or tag, at any depth, under opt
/// and vec included.
pub proof fn lemma_renaming_leaves_no_known_id(v: SpecValue, m: Map<u32, String>)
    ensures
        !known_id_in(renamed(v, m), m),
    decreases v,
{
    match v {
        SpecValue::Opt(b) => {
            lemma_renaming_leaves_no_known_id(*b, m);
        },
        SpecValue::Vec(items) => {
            lemma_renamed_values_index(items, m);
            let out = renamed_values(items, m);
            assert forall|i: int| 0 <= i < out.len() implies !#[trigger] known_id_in(out[i], m) by {
                lemma_renaming_leaves_no_known_id(items[i], m);
            }
            lemma_known_in_values_index(out, m);
            assert(renamed(v, m) == SpecValue::Vec(out));
        },
        SpecValue::Record(fs) => {
            lemma_renamed_fields_index(fs, m);
            let out = renamed_fields(fs, m);
            assert forall|i: int| 0 <= i < out.len() implies !known_id(out[i].id, m) && !#[trigger] known_id_in(out[i].val, m) by {
                lemma_renaming_leaves_no_known_id(fs[i].val, m);
            }
            lemma_known_in_fields_index(out, m);
            assert(renamed(v, m) == SpecValue::Record(out));
        },
        SpecValue::Variant(f, i) => {
            lemma_renaming_leaves_no_known_id(f.val, m);
            let g = SpecField { id: renamed_label(f.id, m), val: renamed(f.val, m) };
            assert(renamed(v, m) == SpecValue::Variant(Box::new(g), i));
            assert(!known_id(g.id, m));
        },
        _ => {},
    }
}

/// The name that renaming with `m` gives the label `l`: the name `m` holds
/// for a numeric label it knows; any other label is kept.
pub open spec fn name_for(l: SpecLabel, m: Map<u32, String>) -> SpecLabel {
    if l matches SpecLabel::Id(h) && m.contains_key(h) {
        SpecLabel::Named(m[l->Id_0]@)
    } else {
        l
    }
}

/// Renaming a vec renames each of its items: it keeps the length, and its
/// `i`-th item is the `i`-th item renamed.  Renaming an opt renames what it
/// holds.  Renaming a record keeps its fields in order, gives each known
/// numeric label its name and renames each value; a variant likewise.
pub proof fn lemma_renaming_goes_into_items(
    items: Seq<SpecValue>,
    inner: SpecValue,
    fs: Seq<SpecField>,
    tag: SpecField,
    k: u64,
    m: Map<u32, String>,
)
    ensures
        renamed(SpecValue::Vec(items), m) matches SpecValue::Vec(out) && out.len() == items.len()
            && forall|i: int| 0 <= i < items.len() ==> #[trigger] out[i] == renamed(items[i], m),
        renamed(SpecValue::Opt(Box::new(inner)), m) == SpecValue::Opt(Box::new(renamed(inner, m))),
        renamed(SpecValue::Record(fs), m) matches SpecValue::Record(out) && out.len() == fs.len()
            && forall|i: int| 0 <= i < fs.len() ==> #[trigger] out[i] == (SpecField {
                id: name_for(fs[i].id, m),
                val: renamed(fs[i].val, m),
            }),
        renamed(SpecValue::Variant(Box::new(tag), k), m) == SpecValue::Variant(
            Box::new(SpecField { id: name_for(tag.id, m), val: renamed(tag.val, m) }),
            k,
        ),
{
    lemma_renamed_values_index(items, m);
    lemma_renamed_fields_index(fs, m);
}

/// Whether the textual label `n` is written in `t`: as the label of a field
/// or tag, or anywhere in the types nested in it (under opt and vec, in the
/// arguments and results of functions, the methods of services and the
/// init arguments of service constructors).
pub open spec fn label_in(t: TypeShape, n: Seq<char>) -> bool
    decreases t,
{
    match t {
        TypeShape::Record(fs) => label_in_fields(fs@, n),
        TypeShape::Variant(fs) => label_in_fields(fs@, n),
        TypeShape::Opt(b) => label_in(*b, n),
        TypeShape::Vec(b) => label_in(*b, n),
        TypeShape::Func(a, r) => label_in_types(a@, n) || label_in_types(r@, n),
        TypeShape::Service(ms) => label_in_types(ms@, n),
        TypeShape::Class(a, b) => label_in_types(a@, n) || label_in(*b, n),
        TypeShape::Var(_) => false,
        TypeShape::Other => false,
    }
}

/// Whether `n` labels one of the fields `s` or is written in their types.
pub open spec fn label_in_fields(s: Seq<ShapeField>, n: Seq<char>) -> bool
    decreases s,
{
    if s.len() == 0 {
        false
    } else {
        label_names(s[0].id).contains(n) || label_in(s[0].ty, n)
            || label_in_fields(s.subrange(1, s.len() as int), n)
    }
}

/// Whether `n` is written in one of the types `s`.
pub open spec fn label_in_types(s: Seq<TypeShape>, n: Seq<char>) -> bool
    decreases s,
{
    if s.len() == 0 {
        false
    } else {
        label_in(s[0], n) || label_in_types(s.subrange(1, s.len() as int), n)
    }
}

proof fn lemma_label_in_fields_at(s: Seq<ShapeField>, n: Seq<char>)
    requires
        label_in_fields(s, n),
    ensures
        exists|k: int| #![trigger s[k]] 0 <= k < s.len() && (label_names(s[k].id).contains(n) || label_in(s[k].ty, n)),
    decreases s.len(),
{
    let t = s.subrange(1, s.len() as int);
    if !(label_names(s[0].id).contains(n) || label_in(s[0].ty, n)) {
        lemma_label_in_fields_at(t, n);
        let k = choose|k: int| #![trigger t[k]] 0 <= k < t.len() && (label_names(t[k].id).contains(n) || label_in(t[k].ty, n));
        assert(t[k] == s[k + 1]);
    } else {
        assert(label_in(s[0].ty, n) || label_names(s[0].id).contains(n));
    }
}

proof fn lemma_label_in_types_at(s: Seq<TypeShape>, n: Seq<char>)
    requires
        label_in_types(s, n),
    ensures
        exists|k: int| 0 <= k < s.len() && #[trigger] label_in(s[k], n),
    decreases s.len(),
{
    let t = s.subrange(1, s.len() as int);
    if !label_in(s[0], n) {
        lemma_label_in_types_at(t, n);
        let k = choose|k: int| 0 <= k < t.len() && #[trigger] label_in(t[k], n);
        assert(t[k] == s[k + 1]);
    }
}

/// Every label written in `t` is among the labels that recovery collects
/// from `t`.
pub proof fn lemma_written_labels_are_collected(t: TypeShape, n: Seq<char>)
    requires
        label_in(t, n),
    ensures
        shape_names(t).contains(n),
    decreases t,
{
    match t {
        TypeShape::Record(fs) => {
            lemma_label_in_fields_at(fs@, n);
            let k = choose|k: int| #![trigger fs@[k]] 0 <= k < fs@.len() && (label_names(fs@[k].id).contains(n) || label_in(fs@[k].ty, n));
            lemma_field_step(fs@, k);
            if label_in(fs@[k].ty, n) {
                lemma_written_labels_are_collected(fs@[k].ty, n);
            }
        },
        TypeShape::Variant(fs) => {
            lemma_label_in_fields_at(fs@, n);
            let k = choose|k: int| #![trigger fs@[k]] 0 <= k < fs@.len() && (label_names(fs@[k].id).contains(n) || label_in(fs@[k].ty, n));
            lemma_field_step(fs@, k);
            if label_in(fs@[k].ty, n) {
                lemma_written_labels_are_collected(fs@[k].ty, n);
            }
        },
        TypeShape::Opt(b) => lemma_written_labels_are_collected(*b, n),
        TypeShape::Vec(b) => lemma_written_labels_are_collected(*b, n),
        TypeShape::Func(a, r) => {
            let s = if label_in_types(a@, n) { a@ } else { r@ };
            lemma_label_in_types_at(s, n);
            let k = choose|k: int| 0 <= k < s.len() && #[trigger] label_in(s[k], n);
            lemma_shapes_step(s, k);
            lemma_written_labels_are_collected(s[k], n);
        },
        TypeShape::Service(ms) => {
            lemma_label_in_types_at(ms@, n);
            let k = choose|k: int| 0 <= k < ms@.len() && #[trigger] label_in(ms@[k], n);
            lemma_shapes_step(ms@, k);
            lemma_written_labels_are_collected(ms@[k], n);
        },
        TypeShape::Class(a, b) => {
            if label_in_types(a@, n) {
                lemma_label_in_types_at(a@, n);
                let k = choose|k: int| 0 <= k < a@.len() && #[trigger] label_in(a@[k], n);
                lemma_shapes_step(a@, k);
                lemma_written_labels_are_collected(a@[k], n);
            } else {
                lemma_written_labels_are_collected(*b, n);
            }
        },
        TypeShape::Var(_) => {},
        TypeShape::Other => {},
    }
}

/// A map that recovers the names of a schema maps the hash of every label
/// written anywhere in its types or service types, under opt and vec
/// included, back to a label with that hash (to that label itself when no
/// other label of the schema shares its hash).
pub proof fn lemma_every_written_label_is_recovered(env: TypeTable, m: Map<u32, String>, n: Seq<char>)
    requires
        recovers_names(env, m),
        (exists|i: int| 0 <= i < env.types@.len() && #[trigger] label_in(env.types@[i], n))
            || (exists|i: int| 0 <= i < env.services@.len() && #[trigger] label_in(env.services@[i], n)),
    ensures
        m.contains_key(hashed(n)),
        hashed(m[hashed(n)]@) == hashed(n),
        table_names(env).contains(m[hashed(n)]@),
        (forall|o: Seq<char>| #[trigger] table_names(env).contains(o) && hashed(o) == hashed(n) ==> o == n)
            ==> m[hashed(n)]@ == n,
{
    if exists|i: int| 0 <= i < env.types@.len() && #[trigger] label_in(env.types@[i], n) {
        let i = choose|i: int| 0 <= i < env.types@.len() && #[trigger] label_in(env.types@[i], n);
        lemma_written_labels_are_collected(env.types@[i], n);
        lemma_shapes_step(env.types@, i);
    } else {
        let i = choose|i: int| 0 <= i < env.services@.len() && #[trigger] label_in(env.services@[i], n);
        lemma_written_labels_are_collected(env.services@[i], n);
        lemma_shapes_step(env.services@, i);
    }
    assert(table_names(env).contains(n));
    assert(m.contains_key(hashed(n)));
}

} // verus!
