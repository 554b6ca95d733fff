use vstd::prelude::*;
use crate::types::Type;
use crate::value::Value;
use crate::registry::{TypeEnv, find};

verus! {

broadcast use {
    vstd::std_specs::vec::axiom_vec_index_decreases,
    vstd::std_specs::vec::axiom_vec_decreases_to_view,
};

/// `v` is a value of type `t`: records have one value per field in stored
/// order, a variant's index names one of its cases and its payload fits
/// that case, and a `Knot` stands for the type it names. `knot_ok` allows
/// one `Knot` step before the value gets smaller.
pub open spec fn conforms(env: Seq<(u64, Type)>, t: Type, v: Value, knot_ok: bool) -> bool
    decreases v, (if knot_ok { 1int } else { 0int }),
{
    match t {
        Type::Knot(id) => knot_ok && find(env, id) is Some && conforms(
            env,
            find(env, id)->0,
            v,
            false,
        ),
        Type::Null => v is Null,
        Type::Bool => v is Bool,
        Type::Nat => v is Nat,
        Type::Int => v is Int,
        Type::Text => v is Text,
        Type::Opt(x) => match v {
            Value::Opt(None) => true,
            Value::Opt(Some(y)) => conforms(env, *x, *y, true),
            _ => false,
        },
        Type::Vec(x) => match v {
            Value::Vec(xs) => all_conform(env, *x, xs@, xs@.len() as int),
            _ => false,
        },
        Type::Record(fs) => match v {
            Value::Record(xs) => xs@.len() == fs@.len() && fields_conform(
                env,
                fs@,
                xs@,
                xs@.len() as int,
            ),
            _ => false,
        },
        Type::Variant(fs) => match v {
            Value::Variant(i, xs) => i < fs@.len() && payload_conforms(env, fs@[i as int].ty, xs@),
            _ => false,
        },
    }
}

/// The first `n` values of `xs` are of type `t`.
pub open spec fn all_conform(env: Seq<(u64, Type)>, t: Type, xs: Seq<Value>, n: int) -> bool
    decreases xs, n,
{
    if n <= 0 || n > xs.len() {
        n <= 0
    } else {
        all_conform(env, t, xs, n - 1) && conforms(env, t, xs[n - 1], true)
    }
}

/// The first `n` values of `xs` are of the types of the first `n` fields.
pub open spec fn fields_conform(
    env: Seq<(u64, Type)>,
    fs: Seq<crate::types::Field>,
    xs: Seq<Value>,
    n: int,
) -> bool
    decreases xs, n,
{
    if n <= 0 || n > xs.len() || n > fs.len() {
        n <= 0
    } else {
        fields_conform(env, fs, xs, n - 1) && conforms(env, fs[n - 1].ty, xs[n - 1], true)
    }
}

/// The payload of a variant case: nothing for a case of type `Null`, one
/// value per field for a case of record type.
pub open spec fn payload_conforms(env: Seq<(u64, Type)>, t: Type, xs: Seq<Value>) -> bool
    decreases xs, xs.len() + 1,
{
    match t {
        Type::Null => xs.len() == 0,
        Type::Record(gs) => gs@.len() == xs.len() && fields_conform(
            env,
            gs@,
            xs,
            xs.len() as int,
        ),
        _ => false,
    }
}

/// Tests `conforms(env@, *t, *v, knot_ok)`.
pub fn check_value(env: &TypeEnv, t: &Type, v: &Value, knot_ok: bool) -> (r: bool)
    ensures
        r == conforms(env@, *t, *v, knot_ok),
    decreases v, (if knot_ok { 1int } else { 0int }),
{
    match t {
        Type::Knot(id) => {
            if !knot_ok {
                return false;
            }
            match env.get(*id) {
                Some(u) => check_value(env, u, v, false),
                None => false,
            }
        },
        Type::Null => matches!(v, Value::Null),
        Type::Bool => matches!(v, Value::Bool(_)),
        Type::Nat => matches!(v, Value::Nat(_)),
        Type::Int => matches!(v, Value::Int(_)),
        Type::Text => matches!(v, Value::Text(_)),
        Type::Opt(x) => match v {
            Value::Opt(None) => true,
            Value::Opt(Some(y)) => check_value(env, x, y, true),
            _ => false,
        },
        Type::Vec(x) => match v {
            Value::Vec(xs) => check_all(env, x, xs),
            _ => false,
        },
        Type::Record(fs) => match v {
            Value::Record(xs) => xs.len() == fs.len() && check_fields(env, fs, xs),
            _ => false,
        },
        Type::Variant(fs) => match v {
            Value::Variant(i, xs) => {
                if *i >= fs.len() as u64 {
                    return false;
                }
                check_payload(env, &fs[*i as usize].ty, xs)
            },
            _ => false,
        },
    }
}

fn check_all(env: &TypeEnv, t: &Type, xs: &Vec<Value>) -> (r: bool)
    ensures
        r == all_conform(env@, *t, xs@, xs@.len() as int),
    decreases xs, xs@.len() + 2,
{
    let mut i: usize = 0;
    while i < xs.len()
        invariant
            i <= xs@.len(),
            all_conform(env@, *t, xs@, i as int),
        decreases xs@.len() - i,
    {
        assert(decreases_to!(xs => xs@[i as int]));
        if !check_value(env, t, &xs[i], true) {
            proof {
                if all_conform(env@, *t, xs@, xs@.len() as int) {
                    lemma_all_prefix(env@, *t, xs@, i + 1, xs@.len() as int);
                }
            }
            return false;
        }
        i += 1;
    }
    true
}

fn check_fields(env: &TypeEnv, fs: &Vec<crate::types::Field>, xs: &Vec<Value>) -> (r: bool)
    requires
        fs@.len() == xs@.len(),
    ensures
        r == fields_conform(env@, fs@, xs@, xs@.len() as int),
    decreases xs, xs@.len() + 2,
{
    let mut i: usize = 0;
    while i < xs.len()
        invariant
            i <= xs@.len() == fs@.len(),
            fields_conform(env@, fs@, xs@, i as int),
        decreases xs@.len() - i,
    {
        assert(decreases_to!(xs => xs@[i as int]));
        if !check_value(env, &fs[i].ty, &xs[i], true) {
            proof {
                if fields_conform(env@, fs@, xs@, xs@.len() as int) {
                    lemma_fields_prefix(env@, fs@, xs@, i + 1, xs@.len() as int);
                }
            }
            return false;
        }
        i += 1;
    }
    true
}

fn check_payload(env: &TypeEnv, t: &Type, xs: &Vec<Value>) -> (r: bool)
    ensures
        r == payload_conforms(env@, *t, xs@),
    decreases xs, xs@.len() + 3,
{
    match t {
        Type::Null => xs.len() == 0,
        Type::Record(gs) => gs.len() == xs.len() && check_fields(env, gs, xs),
        _ => false,
    }
}

proof fn lemma_all_prefix(env: Seq<(u64, Type)>, t: Type, xs: Seq<Value>, m: int, n: int)
    requires
        0 <= m <= n <= xs.len(),
        all_conform(env, t, xs, n),
    ensures
        all_conform(env, t, xs, m),
    decreases n,
{
    if m < n {
        lemma_all_prefix(env, t, xs, m, n - 1);
    }
}

proof fn lemma_fields_prefix(
    env: Seq<(u64, Type)>,
    fs: Seq<crate::types::Field>,
    xs: Seq<Value>,
    m: int,
    n: int,
)
    requires
        0 <= m <= n <= xs.len(),
        n <= fs.len(),
        fields_conform(env, fs, xs, n),
    ensures
        fields_conform(env, fs, xs, m),
    decreases n,
{
    if m < n {
        lemma_fields_prefix(env, fs, xs, m, n - 1);
    }
}

} // verus!
