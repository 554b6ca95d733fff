use vstd::prelude::*;
use crate::types::{Type, Field, Error, same, is_primitive, same_fields, lemma_same_sym, lemma_same_trans};

verus! {

broadcast use {
    vstd::std_specs::vec::axiom_vec_index_decreases,
    vstd::std_specs::vec::axiom_vec_decreases_to_view,
};

/// The registry that resolves `Knot` identifiers: the first type registered
/// under an identifier is the one it names.
pub struct TypeEnv {
    entries: Vec<(u64, Type)>,
}

/// The type that `id` names in `s`: the first entry under `id`.
pub open spec fn find(s: Seq<(u64, Type)>, id: u64) -> Option<Type>
    decreases s.len(),
{
    if s.len() == 0 {
        None
    } else if s[0].0 == id {
        Some(s[0].1)
    } else {
        find(s.drop_first(), id)
    }
}

proof fn lemma_find_push(s: Seq<(u64, Type)>, e: (u64, Type), id: u64)
    ensures
        find(s.push(e), id) == (if find(s, id) is Some {
            find(s, id)
        } else if e.0 == id {
            Some(e.1)
        } else {
            None
        }),
    decreases s.len(),
{
    if s.len() > 0 {
        assert(s.push(e).drop_first() =~= s.drop_first().push(e));
        assert(s.push(e)[0] == s[0]);
        lemma_find_push(s.drop_first(), e, id);
    } else {
        assert(s.push(e)[0] == e);
        assert(s.push(e).drop_first() =~= Seq::<(u64, Type)>::empty());
        assert(find(s.push(e).drop_first(), id) is None);
    }
}

/// Every `Knot` in `t` names a registered type.
pub open spec fn resolves(env: Seq<(u64, Type)>, t: Type) -> bool
    decreases t,
{
    match t {
        Type::Knot(id) => find(env, id) is Some,
        Type::Opt(x) => resolves(env, *x),
        Type::Vec(x) => resolves(env, *x),
        Type::Record(fs) => fields_resolve(env, fs@, fs@.len() as int),
        Type::Variant(fs) => fields_resolve(env, fs@, fs@.len() as int),
        _ => true,
    }
}

pub open spec fn fields_resolve(env: Seq<(u64, Type)>, fs: Seq<Field>, n: int) -> bool
    decreases fs, n,
{
    if n <= 0 || n > fs.len() {
        true
    } else {
        fields_resolve(env, fs, n - 1) && resolves(env, fs[n - 1].ty)
    }
}

/// `r` is `t` with each `Knot` replaced, one level deep, by the type it names.
pub open spec fn unrolls_to(env: Seq<(u64, Type)>, t: Type, r: Type) -> bool
    decreases t,
{
    match (t, r) {
        (Type::Knot(id), _) => find(env, id) is Some && same(find(env, id)->0, r),
        (Type::Opt(x), Type::Opt(y)) => unrolls_to(env, *x, *y),
        (Type::Vec(x), Type::Vec(y)) => unrolls_to(env, *x, *y),
        (Type::Record(fa), Type::Record(fb)) => fa@.len() == fb@.len() && fields_unroll(
            env,
            fa@,
            fb@,
            fa@.len() as int,
        ),
        (Type::Variant(fa), Type::Variant(fb)) => fa@.len() == fb@.len() && fields_unroll(
            env,
            fa@,
            fb@,
            fa@.len() as int,
        ),
        _ => is_primitive(t) && same(t, r),
    }
}

pub open spec fn fields_unroll(env: Seq<(u64, Type)>, fa: Seq<Field>, fb: Seq<Field>, n: int) -> bool
    decreases fa, n,
{
    if n <= 0 || n > fa.len() || n > fb.len() {
        n <= 0
    } else {
        fields_unroll(env, fa, fb, n - 1) && fa[n - 1].hash == fb[n - 1].hash && unrolls_to(
            env,
            fa[n - 1].ty,
            fb[n - 1].ty,
        )
    }
}

/// Unrolling is unique up to structural equality.
pub proof fn lemma_unroll_unique(env: Seq<(u64, Type)>, t: Type, u1: Type, u2: Type)
    requires
        unrolls_to(env, t, u1),
        unrolls_to(env, t, u2),
    ensures
        same(u1, u2),
    decreases t,
{
    if t is Knot || is_primitive(t) {
        let f = if t is Knot { find(env, t->Knot_0)->0 } else { t };
        lemma_same_sym(f, u1);
        lemma_same_trans(u1, f, u2);
    } else {
        match (t, u1, u2) {
            (Type::Opt(x), Type::Opt(y), Type::Opt(z)) => lemma_unroll_unique(env, *x, *y, *z),
            (Type::Vec(x), Type::Vec(y), Type::Vec(z)) => lemma_unroll_unique(env, *x, *y, *z),
            (Type::Record(fa), Type::Record(fb), Type::Record(fc)) => lemma_fields_unroll_unique(
                env,
                fa@,
                fb@,
                fc@,
                fa@.len() as int,
            ),
            (Type::Variant(fa), Type::Variant(fb), Type::Variant(fc)) => lemma_fields_unroll_unique(
                env,
                fa@,
                fb@,
                fc@,
                fa@.len() as int,
            ),
            _ => {},
        }
    }
}

proof fn lemma_fields_unroll_unique(
    env: Seq<(u64, Type)>,
    fa: Seq<Field>,
    fb: Seq<Field>,
    fc: Seq<Field>,
    n: int,
)
    requires
        n <= fa.len() == fb.len() == fc.len(),
        fields_unroll(env, fa, fb, n),
        fields_unroll(env, fa, fc, n),
    ensures
        same_fields(fb, fc, n),
    decreases fa, n,
{
    if n > 0 {
        lemma_fields_unroll_unique(env, fa, fb, fc, n - 1);
        lemma_unroll_unique(env, fa[n - 1].ty, fb[n - 1].ty, fc[n - 1].ty);
    }
}

proof fn lemma_fields_unroll_extend(
    env: Seq<(u64, Type)>,
    fa: Seq<Field>,
    fb: Seq<Field>,
    fc: Seq<Field>,
    n: int,
)
    requires
        0 <= n <= fb.len() < fc.len(),
        n <= fa.len(),
        fc.subrange(0, fb.len() as int) == fb,
        fields_unroll(env, fa, fb, n),
    ensures
        fields_unroll(env, fa, fc, n),
    decreases n,
{
    if n > 0 {
        lemma_fields_unroll_extend(env, fa, fb, fc, n - 1);
        assert(fc[n - 1] == fb[n - 1]);
    }
}

proof fn lemma_fields_resolve_prefix(env: Seq<(u64, Type)>, fs: Seq<Field>, m: int, n: int)
    requires
        0 <= m <= n <= fs.len(),
        fields_resolve(env, fs, n),
    ensures
        fields_resolve(env, fs, m),
    decreases n,
{
    if m < n {
        lemma_fields_resolve_prefix(env, fs, m, n - 1);
    }
}

impl View for TypeEnv {
    type V = Seq<(u64, Type)>;

    closed spec fn view(&self) -> Seq<(u64, Type)> {
        self.entries@
    }
}

impl TypeEnv {
    /// An empty registry.
    pub fn new() -> (r: Self)
        ensures
            r@ == Seq::<(u64, Type)>::empty(),
            forall|id: u64| find(r@, id) is None,
    {
        let r = TypeEnv { entries: Vec::new() };
        assert forall|id: u64| find(r@, id) is None by {}
        r
    }

    /// Registers `t` under `id`; an identifier already registered keeps its
    /// first type.
    pub fn register(&mut self, id: u64, t: Type)
        ensures
            forall|k: u64| k != id ==> find(final(self)@, k) == find(old(self)@, k),
            find(old(self)@, id) is Some ==> find(final(self)@, id) == find(old(self)@, id),
            find(old(self)@, id) is None ==> find(final(self)@, id) == Some(t),
    {
        let ghost e = (id, t);
        self.entries.push((id, t));
        proof {
            assert forall|k: u64| #[trigger] find(self@, k) == (if find(old(self)@, k) is Some {
                find(old(self)@, k)
            } else if e.0 == k {
                Some(e.1)
            } else {
                None
            }) by {
                lemma_find_push(old(self)@, e, k);
            }
        }
    }

    /// The position of the entry that `id` names, if any.
    fn position(&self, id: u64) -> (r: Option<usize>)
        ensures
            match r {
                Some(i) => i < self@.len() && find(self@, id) == Some(self@[i as int].1),
                None => find(self@, id) is None,
            },
    {
        let mut i: usize = 0;
        assert(self@.subrange(0, self@.len() as int) =~= self@);
        while i < self.entries.len()
            invariant
                i <= self@.len(),
                find(self@, id) == find(self@.subrange(i as int, self@.len() as int), id),
            decreases self@.len() - i,
        {
            let ghost rest = self@.subrange(i as int, self@.len() as int);
            assert(rest.drop_first() =~= self@.subrange(i + 1, self@.len() as int));
            if self.entries[i].0 == id {
                return Some(i);
            }
            i += 1;
        }
        None
    }

    /// The type that `id` names.
    pub fn get(&self, id: u64) -> (r: Option<&Type>)
        ensures
            match r {
                Some(t) => find(self@, id) == Some(*t),
                None => find(self@, id) is None,
            },
    {
        match self.position(id) {
            Some(i) => Some(&self.entries[i].1),
            None => None,
        }
    }

    /// A copy of the type that `id` names.
    pub fn find_type(&self, id: u64) -> (r: Result<Type, Error>)
        ensures
            match r {
                Ok(t) => find(self@, id) is Some && same(find(self@, id)->0, t),
                Err(e) => find(self@, id) is None && e == Error::UnresolvedRecursiveReference,
            },
    {
        match self.position(id) {
            Some(i) => Ok(self.entries[i].1.copy()),
            None => Err(Error::UnresolvedRecursiveReference),
        }
    }

    /// Replaces each `Knot` of `t`, one level deep, by a copy of the type it
    /// names. Fails exactly when some `Knot` of `t` names nothing.
    pub fn unroll(&self, t: &Type) -> (r: Result<Type, Error>)
        ensures
            r is Ok <==> resolves(self@, *t),
            r matches Ok(u) ==> unrolls_to(self@, *t, u),
            r matches Err(e) ==> e == Error::UnresolvedRecursiveReference,
        decreases t,
    {
        match t {
            Type::Knot(id) => self.find_type(*id),
            Type::Opt(x) => {
                let u = self.unroll(x)?;
                Ok(Type::Opt(Box::new(u)))
            },
            Type::Vec(x) => {
                let u = self.unroll(x)?;
                Ok(Type::Vec(Box::new(u)))
            },
            Type::Record(fs) => {
                let us = self.unroll_fields(fs)?;
                Ok(Type::Record(us))
            },
            Type::Variant(fs) => {
                let us = self.unroll_fields(fs)?;
                Ok(Type::Variant(us))
            },
            Type::Null => Ok(Type::Null),
            Type::Bool => Ok(Type::Bool),
            Type::Nat => Ok(Type::Nat),
            Type::Int => Ok(Type::Int),
            Type::Text => Ok(Type::Text),
        }
    }

    fn unroll_fields(&self, fs: &Vec<Field>) -> (r: Result<Vec<Field>, Error>)
        ensures
            r is Ok <==> fields_resolve(self@, fs@, fs@.len() as int),
            r matches Ok(us) ==> us@.len() == fs@.len() && fields_unroll(
                self@,
                fs@,
                us@,
                fs@.len() as int,
            ),
            r matches Err(e) ==> e == Error::UnresolvedRecursiveReference,
        decreases fs, 0int,
    {
        let mut out: Vec<Field> = Vec::new();
        let mut i: usize = 0;
        while i < fs.len()
            invariant
                i <= fs@.len(),
                out@.len() == i,
                fields_resolve(self@, fs@, i as int),
                fields_unroll(self@, fs@, out@, i as int),
            decreases fs@.len() - i,
        {
            assert(decreases_to!(fs => fs@[i as int]));
            let ty = match self.unroll(&fs[i].ty) {
                Ok(ty) => ty,
                Err(e) => {
                    proof {
                        if fields_resolve(self@, fs@, fs@.len() as int) {
                            lemma_fields_resolve_prefix(self@, fs@, i + 1, fs@.len() as int);
                        }
                    }
                    return Err(e);
                },
            };
            let ghost prev = out@;
            out.push(Field { id: fs[i].id.clone(), hash: fs[i].hash, ty });
            proof {
                assert(out@.subrange(0, prev.len() as int) =~= prev);
                lemma_fields_unroll_extend(self@, fs@, prev, out@, i as int);
            }
            i += 1;
        }
        Ok(out)
    }
}

} // verus!
