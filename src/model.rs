use vstd::prelude::*;
use crate::types::{
    Type, Field, same, is_primitive, hashes_ascending, lemma_same_refl, lemma_same_sym,
    lemma_same_trans,
};
use crate::registry::{find, resolves, unrolls_to, lemma_unroll_unique};
use crate::table::{
    lookup, ref_of, fields_refs, entry_bytes, MAX_INDEX, lemma_lookup_same, lemma_lookup_push,
};

verus! {

broadcast use {
    vstd::std_specs::vec::axiom_vec_index_decreases,
    vstd::std_specs::vec::axiom_vec_decreases_to_view,
};

/// Two maps agree entry by entry: structurally equal keys, equal indices.
pub open spec fn map_equiv(a: Seq<(Type, usize)>, b: Seq<(Type, usize)>) -> bool {
    &&& a.len() == b.len()
    &&& forall|j: int| 0 <= j < a.len() ==> same(a[j].0, b[j].0) && a[j].1 == b[j].1
}

pub proof fn lemma_map_equiv_refl(m: Seq<(Type, usize)>)
    ensures
        map_equiv(m, m),
{
    assert forall|j: int| 0 <= j < m.len() implies same(m[j].0, m[j].0) by {
        lemma_same_refl(m[j].0);
    }
}

pub proof fn lemma_map_equiv_trans(a: Seq<(Type, usize)>, b: Seq<(Type, usize)>, c: Seq<(Type, usize)>)
    requires
        map_equiv(a, b),
        map_equiv(b, c),
    ensures
        map_equiv(a, c),
{
    assert forall|j: int| 0 <= j < a.len() implies same(a[j].0, c[j].0) by {
        lemma_same_trans(a[j].0, b[j].0, c[j].0);
    }
}

pub proof fn lemma_push_equiv(a: Seq<(Type, usize)>, b: Seq<(Type, usize)>, x: (Type, usize), y: (Type, usize))
    requires
        map_equiv(a, b),
        same(x.0, y.0),
        x.1 == y.1,
    ensures
        map_equiv(a.push(x), b.push(y)),
{
    assert forall|j: int| 0 <= j < a.len() + 1 implies same(a.push(x)[j].0, b.push(y)[j].0)
        && a.push(x)[j].1 == b.push(y)[j].1 by {
        if j < a.len() {
            assert(a.push(x)[j] == a[j]);
            assert(b.push(y)[j] == b[j]);
        }
    }
}

/// Agreeing maps give every type the same index.
pub proof fn lemma_lookup_equiv(a: Seq<(Type, usize)>, b: Seq<(Type, usize)>, t: Type)
    requires
        map_equiv(a, b),
    ensures
        lookup(a, t) == lookup(b, t),
    decreases a.len(),
{
    if a.len() > 0 {
        if same(t, a[0].0) {
            lemma_same_trans(t, a[0].0, b[0].0);
        }
        if same(t, b[0].0) {
            lemma_same_sym(a[0].0, b[0].0);
            lemma_same_trans(t, b[0].0, a[0].0);
        }
        assert(map_equiv(a.drop_first(), b.drop_first()));
        lemma_lookup_equiv(a.drop_first(), b.drop_first(), t);
    }
}

pub proof fn lemma_ref_equiv(a: Seq<(Type, usize)>, b: Seq<(Type, usize)>, env: Seq<(u64, Type)>, t: Type)
    requires
        map_equiv(a, b),
    ensures
        ref_of(a, env, t) == ref_of(b, env, t),
{
    lemma_lookup_equiv(a, b, t);
    if let Type::Knot(id) = t {
        lemma_lookup_equiv(a, b, find(env, id)->0);
    }
}

proof fn lemma_fields_refs_equiv(
    a: Seq<(Type, usize)>,
    b: Seq<(Type, usize)>,
    env: Seq<(u64, Type)>,
    fs: Seq<Field>,
    n: int,
)
    requires
        map_equiv(a, b),
    ensures
        fields_refs(a, env, fs, n) == fields_refs(b, env, fs, n),
    decreases n,
{
    if n > 0 && n <= fs.len() {
        lemma_fields_refs_equiv(a, b, env, fs, n - 1);
        lemma_ref_equiv(a, b, env, fs[n - 1].ty);
    }
}

/// Agreeing maps give every type the same table entry.
pub proof fn lemma_entry_equiv(a: Seq<(Type, usize)>, b: Seq<(Type, usize)>, env: Seq<(u64, Type)>, t: Type)
    requires
        map_equiv(a, b),
    ensures
        entry_bytes(a, env, t) == entry_bytes(b, env, t),
{
    match t {
        Type::Opt(x) => lemma_ref_equiv(a, b, env, *x),
        Type::Vec(x) => lemma_ref_equiv(a, b, env, *x),
        Type::Record(fs) => lemma_fields_refs_equiv(a, b, env, fs@, fs@.len() as int),
        Type::Variant(fs) => lemma_fields_refs_equiv(a, b, env, fs@, fs@.len() as int),
        _ => {},
    }
}

/// The fields of a record or variant are in ascending order of hash.
pub open spec fn fields_in_order(t: Type) -> bool {
    match t {
        Type::Record(fs) => hashes_ascending(fs@),
        Type::Variant(fs) => hashes_ascending(fs@),
        _ => true,
    }
}

/// The table and map after building `t` from `tbl` and `m`, or `None` when
/// building fails:
/// a primitive, or a type already mapped, adds nothing; a `Knot` adds
/// nothing and needs the type it names to be mapped; a type whose `Knot`s do
/// not all resolve fails; a type whose unrolled form is mapped gets that
/// index and no entry; a record or variant with fields out of hash order
/// fails; otherwise the type gets the next index before its children are
/// built, and its entry once they are.
pub open spec fn built(
    env: Seq<(u64, Type)>,
    tbl: Seq<Seq<u8>>,
    m: Seq<(Type, usize)>,
    t: Type,
) -> Option<(Seq<Seq<u8>>, Seq<(Type, usize)>)>
    decreases t,
{
    if is_primitive(t) {
        Some((tbl, m))
    } else if t is Knot {
        if ref_of(m, env, t) is Some {
            Some((tbl, m))
        } else {
            None
        }
    } else if lookup(m, t) is Some {
        Some((tbl, m))
    } else if !resolves(env, t) {
        None
    } else {
        let u = choose|u: Type| unrolls_to(env, t, u);
        if lookup(m, u) is Some {
            Some((tbl, m.push((t, lookup(m, u)->0))))
        } else if !fields_in_order(t) || tbl.len() >= MAX_INDEX {
            None
        } else {
            let idx = tbl.len() as usize;
            let m1 = m.push((t, idx));
            let tbl1 = tbl.push(Seq::empty());
            let inner = match t {
                Type::Opt(x) => built(env, tbl1, m1, *x),
                Type::Vec(x) => built(env, tbl1, m1, *x),
                Type::Record(fs) => built_fields(env, tbl1, m1, fs@, fs@.len() as int),
                Type::Variant(fs) => built_fields(env, tbl1, m1, fs@, fs@.len() as int),
                _ => None,
            };
            match inner {
                Some((tb2, m2)) => match entry_bytes(m2, env, t) {
                    Some(e) => Some((tb2.update(idx as int, e), m2)),
                    None => None,
                },
                None => None,
            }
        }
    }
}

/// Building the types of the first `n` fields, one after another.
pub open spec fn built_fields(
    env: Seq<(u64, Type)>,
    tbl: Seq<Seq<u8>>,
    m: Seq<(Type, usize)>,
    fs: Seq<Field>,
    n: int,
) -> Option<(Seq<Seq<u8>>, Seq<(Type, usize)>)>
    decreases fs, n,
{
    if n <= 0 || n > fs.len() {
        Some((tbl, m))
    } else {
        match built_fields(env, tbl, m, fs, n - 1) {
            Some((t2, m2)) => built(env, t2, m2, fs[n - 1].ty),
            None => None,
        }
    }
}

/// The result of building agrees for agreeing maps.
pub open spec fn results_equiv(
    a: Option<(Seq<Seq<u8>>, Seq<(Type, usize)>)>,
    b: Option<(Seq<Seq<u8>>, Seq<(Type, usize)>)>,
) -> bool {
    &&& (a is Some <==> b is Some)
    &&& a is Some ==> a.unwrap().0 == b.unwrap().0 && map_equiv(a.unwrap().1, b.unwrap().1)
}

/// Building gives agreeing results from agreeing maps.
pub proof fn lemma_built_equiv(
    env: Seq<(u64, Type)>,
    tbl: Seq<Seq<u8>>,
    a: Seq<(Type, usize)>,
    b: Seq<(Type, usize)>,
    t: Type,
)
    requires
        map_equiv(a, b),
    ensures
        results_equiv(built(env, tbl, a, t), built(env, tbl, b, t)),
    decreases t,
{
    lemma_lookup_equiv(a, b, t);
    lemma_ref_equiv(a, b, env, t);
    if is_primitive(t) || t is Knot || lookup(a, t) is Some {
    } else if resolves(env, t) {
        let u = choose|u: Type| unrolls_to(env, t, u);
        lemma_lookup_equiv(a, b, u);
        lemma_same_refl(t);
        if lookup(a, u) is Some {
            lemma_push_equiv(a, b, (t, lookup(a, u)->0), (t, lookup(b, u)->0));
        } else if fields_in_order(t) && tbl.len() < MAX_INDEX {
            let idx = tbl.len() as usize;
            let a1 = a.push((t, idx));
            let b1 = b.push((t, idx));
            let tbl1 = tbl.push(Seq::<u8>::empty());
            lemma_push_equiv(a, b, (t, idx), (t, idx));
            let ia = match t {
                Type::Opt(x) => built(env, tbl1, a1, *x),
                Type::Vec(x) => built(env, tbl1, a1, *x),
                Type::Record(fs) => built_fields(env, tbl1, a1, fs@, fs@.len() as int),
                Type::Variant(fs) => built_fields(env, tbl1, a1, fs@, fs@.len() as int),
                _ => None,
            };
            let ib = match t {
                Type::Opt(x) => built(env, tbl1, b1, *x),
                Type::Vec(x) => built(env, tbl1, b1, *x),
                Type::Record(fs) => built_fields(env, tbl1, b1, fs@, fs@.len() as int),
                Type::Variant(fs) => built_fields(env, tbl1, b1, fs@, fs@.len() as int),
                _ => None,
            };
            match t {
                Type::Opt(x) => lemma_built_equiv(env, tbl1, a1, b1, *x),
                Type::Vec(x) => lemma_built_equiv(env, tbl1, a1, b1, *x),
                Type::Record(fs) => lemma_built_fields_equiv(env, tbl1, a1, b1, fs@, fs@.len() as int),
                Type::Variant(fs) => lemma_built_fields_equiv(env, tbl1, a1, b1, fs@, fs@.len() as int),
                _ => {},
            }
            if ia is Some {
                lemma_entry_equiv(ia.unwrap().1, ib.unwrap().1, env, t);
            }
        }
    }
}

pub proof fn lemma_built_fields_equiv(
    env: Seq<(u64, Type)>,
    tbl: Seq<Seq<u8>>,
    a: Seq<(Type, usize)>,
    b: Seq<(Type, usize)>,
    fs: Seq<Field>,
    n: int,
)
    requires
        map_equiv(a, b),
    ensures
        results_equiv(built_fields(env, tbl, a, fs, n), built_fields(env, tbl, b, fs, n)),
    decreases fs, n,
{
    if n > 0 && n <= fs.len() {
        lemma_built_fields_equiv(env, tbl, a, b, fs, n - 1);
        let ra = built_fields(env, tbl, a, fs, n - 1);
        let rb = built_fields(env, tbl, b, fs, n - 1);
        if ra is Some {
            lemma_built_equiv(env, ra.unwrap().0, ra.unwrap().1, rb.unwrap().1, fs[n - 1].ty);
        }
    }
}

/// A structurally equal alias adds no table entry: a compound type not yet
/// mapped, whose unrolled form is mapped, keeps the table as it is and gets
/// the index of its unrolled form.
pub proof fn lemma_alias_adds_no_entry(
    env: Seq<(u64, Type)>,
    tbl: Seq<Seq<u8>>,
    m: Seq<(Type, usize)>,
    t: Type,
    u: Type,
)
    requires
        !is_primitive(t),
        !(t is Knot),
        lookup(m, t) is None,
        resolves(env, t),
        unrolls_to(env, t, u),
        lookup(m, u) is Some,
    ensures
        built(env, tbl, m, t) is Some,
        built(env, tbl, m, t).unwrap().0 == tbl,
        lookup(built(env, tbl, m, t).unwrap().1, t) == lookup(m, u),
{
    let cu = choose|v: Type| unrolls_to(env, t, v);
    lemma_unroll_unique(env, t, u, cu);
    lemma_lookup_same(m, u, cu);
    lemma_same_refl(t);
    lemma_lookup_push(m, (t, lookup(m, u)->0), t);
}

/// Once building the first `k` fields fails, building more fails too.
pub proof fn lemma_built_fields_none(
    env: Seq<(u64, Type)>,
    tbl: Seq<Seq<u8>>,
    m: Seq<(Type, usize)>,
    fs: Seq<Field>,
    k: int,
    n: int,
)
    requires
        0 < k <= n <= fs.len(),
        built_fields(env, tbl, m, fs, k) is None,
    ensures
        built_fields(env, tbl, m, fs, n) is None,
    decreases n,
{
    if k < n {
        lemma_built_fields_none(env, tbl, m, fs, k, n - 1);
    }
}

} // verus!
