use vstd::prelude::*;
use crate::leb::{uleb, sleb, write_uleb, write_sleb};
use crate::types::{
    Type, Field, Error, same, is_primitive, prim_tag, hashes_ascending, lemma_same_trans,
    lemma_same_sym,
};
use crate::registry::{TypeEnv, find, unrolls_to, lemma_unroll_unique};
use crate::model::{
    built, built_fields, map_equiv, lemma_map_equiv_refl, lemma_map_equiv_trans,
    lemma_push_equiv, lemma_built_equiv, lemma_built_fields_equiv, lemma_built_fields_none,
    lemma_entry_equiv,
};

verus! {

broadcast use {
    vstd::std_specs::vec::axiom_vec_index_decreases,
    vstd::std_specs::vec::axiom_vec_decreases_to_view,
};

/// The number of table entries a builder accepts: an index fits in `i32`.
pub const MAX_INDEX: usize = 0x7fff_ffff;

/// The index that `m` gives `t`: that of the first entry structurally equal to it.
pub open spec fn lookup(m: Seq<(Type, usize)>, t: Type) -> Option<usize>
    decreases m.len(),
{
    if m.len() == 0 {
        None
    } else if same(t, m[0].0) {
        Some(m[0].1)
    } else {
        lookup(m.drop_first(), t)
    }
}

pub proof fn lemma_lookup_push(m: Seq<(Type, usize)>, e: (Type, usize), t: Type)
    ensures
        lookup(m.push(e), t) == (if lookup(m, t) is Some {
            lookup(m, t)
        } else if same(t, e.0) {
            Some(e.1)
        } else {
            None
        }),
    decreases m.len(),
{
    if m.len() > 0 {
        assert(m.push(e).drop_first() =~= m.drop_first().push(e));
        assert(m.push(e)[0] == m[0]);
        lemma_lookup_push(m.drop_first(), e, t);
    } else {
        assert(m.push(e)[0] == e);
        assert(m.push(e).drop_first() =~= Seq::<(Type, usize)>::empty());
        assert(lookup(m.push(e).drop_first(), t) is None);
    }
}

/// What a prefix of the map finds, the whole map finds.
proof fn lemma_lookup_prefix(m: Seq<(Type, usize)>, k: int, t: Type)
    requires
        0 <= k <= m.len(),
        lookup(m.subrange(0, k), t) is Some,
    ensures
        lookup(m, t) == lookup(m.subrange(0, k), t),
    decreases m.len() - k,
{
    if k < m.len() {
        let p = m.subrange(0, k);
        assert(m.subrange(0, k + 1) =~= p.push(m[k]));
        lemma_lookup_push(p, m[k], t);
        lemma_lookup_prefix(m, k + 1, t);
    } else {
        assert(m.subrange(0, k) =~= m);
    }
}

/// The reference that an entry or an argument writes for `t`: a primitive's
/// code, the index of the type a `Knot` names, or `t`'s own index.
pub open spec fn ref_of(m: Seq<(Type, usize)>, env: Seq<(u64, Type)>, t: Type) -> Option<int> {
    if is_primitive(t) {
        Some(prim_tag(t))
    } else if let Type::Knot(id) = t {
        match find(env, id) {
            Some(u) => match lookup(m, u) {
                Some(i) => Some(i as int),
                None => None,
            },
            None => None,
        }
    } else {
        match lookup(m, t) {
            Some(i) => Some(i as int),
            None => None,
        }
    }
}

/// For the first `n` fields: each field's hash, then its type's reference.
pub open spec fn fields_refs(
    m: Seq<(Type, usize)>,
    env: Seq<(u64, Type)>,
    fs: Seq<Field>,
    n: int,
) -> Option<Seq<u8>>
    decreases n,
{
    if n <= 0 || n > fs.len() {
        Some(Seq::empty())
    } else {
        match (fields_refs(m, env, fs, n - 1), ref_of(m, env, fs[n - 1].ty)) {
            (Some(p), Some(r)) => Some(p + uleb(fs[n - 1].hash as nat) + sleb(r)),
            _ => None,
        }
    }
}

proof fn lemma_fields_refs_none(
    m: Seq<(Type, usize)>,
    env: Seq<(u64, Type)>,
    fs: Seq<Field>,
    k: int,
    n: int,
)
    requires
        0 < k <= n <= fs.len(),
        fields_refs(m, env, fs, k) is None,
    ensures
        fields_refs(m, env, fs, n) is None,
    decreases n,
{
    if k < n {
        lemma_fields_refs_none(m, env, fs, k, n - 1);
    }
}

/// Structurally equal types have the same index.
pub proof fn lemma_lookup_same(m: Seq<(Type, usize)>, a: Type, b: Type)
    requires
        same(a, b),
    ensures
        lookup(m, a) == lookup(m, b),
    decreases m.len(),
{
    if m.len() > 0 {
        lemma_same_sym(a, b);
        if same(a, m[0].0) {
            lemma_same_trans(b, a, m[0].0);
        }
        if same(b, m[0].0) {
            lemma_same_trans(a, b, m[0].0);
        }
        lemma_lookup_same(m.drop_first(), a, b);
    }
}

/// Structurally equal types have the same reference.
pub proof fn lemma_ref_same(m: Seq<(Type, usize)>, env: Seq<(u64, Type)>, a: Type, b: Type)
    requires
        same(a, b),
    ensures
        ref_of(m, env, a) == ref_of(m, env, b),
{
    lemma_lookup_same(m, a, b);
}

/// A reference that a prefix of the map gives, the whole map gives.
pub proof fn lemma_ref_prefix(m: Seq<(Type, usize)>, k: int, env: Seq<(u64, Type)>, t: Type)
    requires
        0 <= k <= m.len(),
        ref_of(m.subrange(0, k), env, t) is Some,
    ensures
        ref_of(m, env, t) == ref_of(m.subrange(0, k), env, t),
{
    if !is_primitive(t) {
        if let Type::Knot(id) = t {
            lemma_lookup_prefix(m, k, find(env, id)->0);
        } else {
            lemma_lookup_prefix(m, k, t);
        }
    }
}

fn fields_ascending(fs: &Vec<Field>) -> (r: bool)
    ensures
        r == hashes_ascending(fs@),
{
    let mut i: usize = 1;
    if fs.len() == 0 {
        return true;
    }
    while i < fs.len()
        invariant
            1 <= i <= fs@.len(),
            forall|a: int, b: int| 0 <= a < b < i ==> fs@[a].hash < fs@[b].hash,
        decreases fs@.len() - i,
    {
        if fs[i - 1].hash >= fs[i].hash {
            return false;
        }
        i += 1;
    }
    true
}

/// The table entry of a compound type: its code, then the reference of an
/// optional's or a sequence's element type, or the field count and each
/// field's hash and type reference in stored order.
pub open spec fn entry_bytes(m: Seq<(Type, usize)>, env: Seq<(u64, Type)>, t: Type) -> Option<
    Seq<u8>,
> {
    match t {
        Type::Opt(x) => match ref_of(m, env, *x) {
            Some(r) => Some(sleb(-18) + sleb(r)),
            None => None,
        },
        Type::Vec(x) => match ref_of(m, env, *x) {
            Some(r) => Some(sleb(-19) + sleb(r)),
            None => None,
        },
        Type::Record(fs) => match fields_refs(m, env, fs@, fs@.len() as int) {
            Some(p) => Some(sleb(-20) + uleb(fs@.len() as nat) + p),
            None => None,
        },
        Type::Variant(fs) => match fields_refs(m, env, fs@, fs@.len() as int) {
            Some(p) => Some(sleb(-21) + uleb(fs@.len() as nat) + p),
            None => None,
        },
        _ => None,
    }
}

/// The first `n` entries of a table, concatenated.
pub open spec fn flatten(tbl: Seq<Seq<u8>>, n: int) -> Seq<u8>
    decreases n,
{
    if n <= 0 || n > tbl.len() {
        Seq::empty()
    } else {
        flatten(tbl, n - 1) + tbl[n - 1]
    }
}

/// The references of the first `n` arguments, concatenated.
pub open spec fn args_refs(
    m: Seq<(Type, usize)>,
    env: Seq<(u64, Type)>,
    args: Seq<Type>,
    n: int,
) -> Option<Seq<u8>>
    decreases n,
{
    if n <= 0 || n > args.len() {
        Some(Seq::empty())
    } else {
        match (args_refs(m, env, args, n - 1), ref_of(m, env, args[n - 1])) {
            (Some(p), Some(r)) => Some(p + sleb(r)),
            _ => None,
        }
    }
}

pub proof fn lemma_args_refs_some(
    m: Seq<(Type, usize)>,
    env: Seq<(u64, Type)>,
    args: Seq<Type>,
    n: int,
)
    requires
        n <= args.len(),
        forall|k: int| 0 <= k < args.len() ==> ref_of(m, env, #[trigger] args[k]) is Some,
    ensures
        args_refs(m, env, args, n) is Some,
    decreases n,
{
    if n > 0 {
        lemma_args_refs_some(m, env, args, n - 1);
    }
}

proof fn lemma_args_refs_none(
    m: Seq<(Type, usize)>,
    env: Seq<(u64, Type)>,
    args: Seq<Type>,
    k: int,
    n: int,
)
    requires
        0 < k <= n <= args.len(),
        args_refs(m, env, args, k) is None,
    ensures
        args_refs(m, env, args, n) is None,
    decreases n,
{
    if k < n {
        lemma_args_refs_none(m, env, args, k, n - 1);
    }
}

/// Appends the bytes of `src` to `buf`.
pub(crate) fn append(buf: &mut Vec<u8>, src: &Vec<u8>)
    ensures
        final(buf)@ == old(buf)@ + src@,
{
    let mut i: usize = 0;
    while i < src.len()
        invariant
            i <= src@.len(),
            buf@ == old(buf)@ + src@.subrange(0, i as int),
        decreases src@.len() - i,
    {
        buf.push(src[i]);
        assert(src@.subrange(0, i + 1) =~= src@.subrange(0, i as int).push(src@[i as int]));
        i += 1;
    }
    assert(src@.subrange(0, i as int) =~= src@);
}

/// The type-table builder: the table entries, the index of each type seen
/// so far, and the argument types in the order they were pushed.
pub struct TypeSerialize {
    env: TypeEnv,
    type_table: Vec<Vec<u8>>,
    type_map: Vec<(Type, usize)>,
    args: Vec<Type>,
}

impl TypeSerialize {
    pub closed spec fn env(&self) -> Seq<(u64, Type)> {
        self.env@
    }

    pub closed spec fn table(&self) -> Seq<Vec<u8>> {
        self.type_table@
    }

    /// The table's entries as bytes.
    pub closed spec fn entries(&self) -> Seq<Seq<u8>> {
        self.type_table@.map_values(|v: Vec<u8>| v@)
    }

    pub closed spec fn map(&self) -> Seq<(Type, usize)> {
        self.type_map@
    }

    pub closed spec fn args(&self) -> Seq<Type> {
        self.args@
    }

    /// Every index the map gives names an entry of the table, and the table
    /// stays within `MAX_INDEX` entries.
    pub open spec fn wf(&self) -> bool {
        &&& self.table().len() <= MAX_INDEX
        &&& self.entries().len() == self.table().len()
        &&& forall|j: int| 0 <= j < self.map().len() ==> self.map()[j].1 < self.table().len()
    }

    /// The type section of the output: the table's entry count and entries,
    /// then the argument count and each argument's reference.
    pub open spec fn type_section(&self) -> Option<Seq<u8>> {
        match args_refs(self.map(), self.env(), self.args(), self.args().len() as int) {
            Some(a) => Some(uleb(self.entries().len() as nat) + flatten(
                self.entries(),
                self.entries().len() as int,
            ) + uleb(self.args().len() as nat) + a),
            None => None,
        }
    }

    /// An empty builder whose `Knot`s resolve through `env`.
    pub fn new(env: TypeEnv) -> (r: Self)
        ensures
            r.wf(),
            r.env() == env@,
            r.table().len() == 0,
            r.map().len() == 0,
            r.entries() == Seq::<Seq<u8>>::empty(),
            r.map() == Seq::<(Type, usize)>::empty(),
            r.args().len() == 0,
    {
        let r = TypeSerialize {
            env,
            type_table: Vec::new(),
            type_map: Vec::new(),
            args: Vec::new(),
        };
        assert(r.entries() =~= Seq::<Seq<u8>>::empty());
        assert(r.map() =~= Seq::<(Type, usize)>::empty());
        r
    }

    /// The registry that resolves `Knot`s.
    pub fn registry(&self) -> (r: &TypeEnv)
        ensures
            r@ == self.env(),
    {
        &self.env
    }

    fn index_of(&self, t: &Type) -> (r: Option<usize>)
        ensures
            r == lookup(self.map(), *t),
    {
        let mut i: usize = 0;
        assert(self.map().subrange(0, self.map().len() as int) =~= self.map());
        while i < self.type_map.len()
            invariant
                i <= self.map().len(),
                lookup(self.map(), *t) == lookup(
                    self.map().subrange(i as int, self.map().len() as int),
                    *t,
                ),
            decreases self.map().len() - i,
        {
            let ghost rest = self.map().subrange(i as int, self.map().len() as int);
            assert(rest.drop_first() =~= self.map().subrange(i + 1, self.map().len() as int));
            if t.same_as(&self.type_map[i].0) {
                return Some(self.type_map[i].1);
            }
            i += 1;
        }
        None
    }

    /// The reference of `t`, if it has one yet.
    fn reference(&self, t: &Type) -> (r: Option<i64>)
        requires
            self.wf(),
        ensures
            r is Some <==> ref_of(self.map(), self.env(), *t) is Some,
            r matches Some(i) ==> ref_of(self.map(), self.env(), *t) == Some(i as int),
    {
        let idx = match t {
            Type::Null => {
                return Some(-1);
            },
            Type::Bool => {
                return Some(-2);
            },
            Type::Nat => {
                return Some(-3);
            },
            Type::Int => {
                return Some(-4);
            },
            Type::Text => {
                return Some(-15);
            },
            Type::Knot(id) => match self.env.get(*id) {
                Some(u) => self.index_of(u),
                None => None,
            },
            _ => self.index_of(t),
        };
        match idx {
            Some(i) => {
                proof {
                    lemma_lookup_in_map(self.map(), *t);
                    if let Type::Knot(id) = *t {
                        lemma_lookup_in_map(self.map(), find(self.env(), id)->0);
                    }
                }
                Some(i as i64)
            },
            None => None,
        }
    }

    /// Writes the reference of `t`, which must have one: a primitive's code,
    /// the index of the type a `Knot` names, or `t`'s own index.
    pub fn encode(&self, buf: &mut Vec<u8>, t: &Type)
        requires
            self.wf(),
            ref_of(self.map(), self.env(), *t) is Some,
        ensures
            final(buf)@ == old(buf)@ + sleb(ref_of(self.map(), self.env(), *t)->0),
    {
        if let Some(i) = self.reference(t) {
            write_sleb(buf, i);
        }
    }

    /// The table entry of a compound type, against the current map; fails
    /// when a child has no reference.
    fn encode_entry(&self, t: &Type) -> (r: Result<Vec<u8>, Error>)
        requires
            self.wf(),
            !is_primitive(*t),
            !(t is Knot),
        ensures
            r is Ok <==> entry_bytes(self.map(), self.env(), *t) is Some,
            r matches Ok(b) ==> b@ == entry_bytes(self.map(), self.env(), *t)->0,
            r matches Err(e) ==> e == Error::UnresolvedRecursiveReference,
    {
        let mut buf: Vec<u8> = Vec::new();
        match t {
            Type::Opt(x) => {
                if self.reference(x).is_none() {
                    return Err(Error::UnresolvedRecursiveReference);
                }
                write_sleb(&mut buf, -18);
                self.encode(&mut buf, x);
            },
            Type::Vec(x) => {
                if self.reference(x).is_none() {
                    return Err(Error::UnresolvedRecursiveReference);
                }
                write_sleb(&mut buf, -19);
                self.encode(&mut buf, x);
            },
            Type::Record(fs) => {
                write_sleb(&mut buf, -20);
                self.encode_fields(&mut buf, fs)?;
            },
            Type::Variant(fs) => {
                write_sleb(&mut buf, -21);
                self.encode_fields(&mut buf, fs)?;
            },
            _ => {
                return Err(Error::UnresolvedRecursiveReference);
            },
        }
        Ok(buf)
    }

    fn encode_fields(&self, buf: &mut Vec<u8>, fs: &Vec<Field>) -> (r: Result<(), Error>)
        requires
            self.wf(),
        ensures
            r is Ok <==> fields_refs(self.map(), self.env(), fs@, fs@.len() as int) is Some,
            r is Ok ==> final(buf)@ == old(buf)@ + uleb(fs@.len() as nat) + fields_refs(
                self.map(),
                self.env(),
                fs@,
                fs@.len() as int,
            )->0,
            r matches Err(e) ==> e == Error::UnresolvedRecursiveReference,
    {
        write_uleb(buf, fs.len() as u64);
        let ghost start = buf@;
        let mut i: usize = 0;
        while i < fs.len()
            invariant
                self.wf(),
                i <= fs@.len(),
                start == old(buf)@ + uleb(fs@.len() as nat),
                fields_refs(self.map(), self.env(), fs@, i as int) is Some,
                buf@ == start + fields_refs(self.map(), self.env(), fs@, i as int)->0,
            decreases fs@.len() - i,
        {
            if self.reference(&fs[i].ty).is_none() {
                proof {
                    lemma_fields_refs_none(self.map(), self.env(), fs@, i + 1, fs@.len() as int);
                }
                return Err(Error::UnresolvedRecursiveReference);
            }
            write_uleb(buf, fs[i].hash as u64);
            self.encode(buf, &fs[i].ty);
            i += 1;
        }
        Ok(())
    }
}

impl TypeSerialize {
    /// Adds `t` and every type reachable from it to the table, as `built`
    /// describes: the entries come out exactly, and the map agrees with
    /// `built`'s entry by entry.
    pub fn build_type(&mut self, t: &Type) -> (r: Result<(), Error>)
        requires
            old(self).wf(),
        ensures
            final(self).wf(),
            final(self).env() == old(self).env(),
            final(self).args() == old(self).args(),
            old(self).map().len() <= final(self).map().len(),
            final(self).map().subrange(0, old(self).map().len() as int) == old(self).map(),
            old(self).table().len() <= final(self).table().len(),
            r is Ok <==> built(old(self).env(), old(self).entries(), old(self).map(), *t) is Some,
            r is Ok ==> final(self).entries() == built(
                old(self).env(),
                old(self).entries(),
                old(self).map(),
                *t,
            ).unwrap().0 && map_equiv(
                final(self).map(),
                built(old(self).env(), old(self).entries(), old(self).map(), *t).unwrap().1,
            ),
            r is Ok ==> ref_of(final(self).map(), final(self).env(), *t) is Some,
            r matches Err(e) ==> e == Error::UnresolvedRecursiveReference || e
                == Error::TableOverflow || e == Error::UnsortedFields,
        decreases t,
    {
        let ghost m0 = self.map();
        let ghost e0 = self.entries();
        let ghost env = self.env();
        proof {
            assert(self.map().subrange(0, m0.len() as int) =~= m0);
            lemma_map_equiv_refl(m0);
        }
        if t.is_primitive() {
            return Ok(());
        }
        if let Type::Knot(id) = t {
            let found = match self.env.get(*id) {
                Some(u) => self.index_of(u).is_some(),
                None => false,
            };
            if found {
                return Ok(());
            }
            return Err(Error::UnresolvedRecursiveReference);
        }
        if self.index_of(t).is_some() {
            return Ok(());
        }
        let unrolled = self.env.unroll(t)?;
        let ghost cu = choose|u: Type| unrolls_to(env, *t, u);
        proof {
            lemma_unroll_unique(env, *t, unrolled, cu);
            lemma_lookup_same(m0, unrolled, cu);
        }
        match self.index_of(&unrolled) {
            Some(idx) => {
                let c = t.copy();
                let ghost e = (c, idx);
                self.type_map.push((c, idx));
                proof {
                    lemma_lookup_push(m0, e, *t);
                    assert(self.map().subrange(0, m0.len() as int) =~= m0);
                    lemma_lookup_in_map(m0, unrolled);
                    lemma_same_sym(*t, c);
                    lemma_push_equiv(m0, m0, e, (*t, idx));
                }
                return Ok(());
            },
            None => {},
        }
        match t {
            Type::Record(fs) => {
                if !fields_ascending(fs) {
                    return Err(Error::UnsortedFields);
                }
            },
            Type::Variant(fs) => {
                if !fields_ascending(fs) {
                    return Err(Error::UnsortedFields);
                }
            },
            _ => {},
        }
        let idx = self.type_table.len();
        if idx >= MAX_INDEX {
            return Err(Error::TableOverflow);
        }
        let c = t.copy();
        let ghost e = (c, idx);
        self.type_map.push((c, idx));
        self.type_table.push(Vec::new());
        let ghost m1 = self.map();
        let ghost e1 = self.entries();
        let ghost m1s = m0.push((*t, idx));
        proof {
            lemma_lookup_push(m0, e, *t);
            assert(m1.subrange(0, m0.len() as int) =~= m0);
            assert(e1 =~= e0.push(Seq::<u8>::empty()));
            lemma_same_sym(*t, c);
            lemma_push_equiv(m0, m0, e, (*t, idx));
        }
        match t {
            Type::Opt(x) => {
                let r = self.build_type(x);
                proof {
                    lemma_built_equiv(env, e1, m1, m1s, **x);
                }
                r?;
                proof {
                    lemma_map_equiv_trans(
                        self.map(),
                        built(env, e1, m1, **x).unwrap().1,
                        built(env, e1, m1s, **x).unwrap().1,
                    );
                }
            },
            Type::Vec(x) => {
                let r = self.build_type(x);
                proof {
                    lemma_built_equiv(env, e1, m1, m1s, **x);
                }
                r?;
                proof {
                    lemma_map_equiv_trans(
                        self.map(),
                        built(env, e1, m1, **x).unwrap().1,
                        built(env, e1, m1s, **x).unwrap().1,
                    );
                }
            },
            Type::Record(fs) => {
                let r = self.build_fields(fs);
                proof {
                    lemma_built_fields_equiv(env, e1, m1, m1s, fs@, fs@.len() as int);
                }
                r?;
                proof {
                    lemma_map_equiv_trans(
                        self.map(),
                        built_fields(env, e1, m1, fs@, fs@.len() as int).unwrap().1,
                        built_fields(env, e1, m1s, fs@, fs@.len() as int).unwrap().1,
                    );
                }
            },
            Type::Variant(fs) => {
                let r = self.build_fields(fs);
                proof {
                    lemma_built_fields_equiv(env, e1, m1, m1s, fs@, fs@.len() as int);
                }
                r?;
                proof {
                    lemma_map_equiv_trans(
                        self.map(),
                        built_fields(env, e1, m1, fs@, fs@.len() as int).unwrap().1,
                        built_fields(env, e1, m1s, fs@, fs@.len() as int).unwrap().1,
                    );
                }
            },
            _ => {},
        }
        let ghost inner = match t {
            Type::Opt(x) => built(env, e1, m1s, **x),
            Type::Vec(x) => built(env, e1, m1s, **x),
            Type::Record(fs) => built_fields(env, e1, m1s, fs@, fs@.len() as int),
            Type::Variant(fs) => built_fields(env, e1, m1s, fs@, fs@.len() as int),
            _ => None,
        };
        proof {
            assert(self.map().subrange(0, m1.len() as int).subrange(0, m0.len() as int)
                =~= self.map().subrange(0, m0.len() as int));
            assert(self.map().subrange(0, m0.len() as int) =~= m0);
            assert(self.map().subrange(0, m1.len() as int) == m1);
            lemma_lookup_prefix(self.map(), m1.len() as int, *t);
            assert(inner is Some);
            lemma_entry_equiv(self.map(), inner.unwrap().1, env, *t);
        }
        let buf = self.encode_entry(t)?;
        self.type_table.set(idx, buf);
        proof {
            assert(self.entries() =~= inner.unwrap().0.update(idx as int, buf@));
        }
        Ok(())
    }

    fn build_fields(&mut self, fs: &Vec<Field>) -> (r: Result<(), Error>)
        requires
            old(self).wf(),
        ensures
            final(self).wf(),
            final(self).env() == old(self).env(),
            final(self).args() == old(self).args(),
            old(self).map().len() <= final(self).map().len(),
            final(self).map().subrange(0, old(self).map().len() as int) == old(self).map(),
            old(self).table().len() <= final(self).table().len(),
            r is Ok <==> built_fields(
                old(self).env(),
                old(self).entries(),
                old(self).map(),
                fs@,
                fs@.len() as int,
            ) is Some,
            r is Ok ==> final(self).entries() == built_fields(
                old(self).env(),
                old(self).entries(),
                old(self).map(),
                fs@,
                fs@.len() as int,
            ).unwrap().0 && map_equiv(
                final(self).map(),
                built_fields(
                    old(self).env(),
                    old(self).entries(),
                    old(self).map(),
                    fs@,
                    fs@.len() as int,
                ).unwrap().1,
            ),
            r matches Err(e) ==> e == Error::UnresolvedRecursiveReference || e
                == Error::TableOverflow || e == Error::UnsortedFields,
        decreases fs, 0int,
    {
        let ghost env = self.env();
        let ghost e0 = self.entries();
        let ghost m0 = self.map();
        proof {
            lemma_map_equiv_refl(m0);
        }
        let mut i: usize = 0;
        while i < fs.len()
            invariant
                self.wf(),
                i <= fs@.len(),
                env == old(self).env(),
                e0 == old(self).entries(),
                m0 == old(self).map(),
                self.env() == env,
                self.args() == old(self).args(),
                m0.len() <= self.map().len(),
                self.map().subrange(0, m0.len() as int) == m0,
                old(self).table().len() <= self.table().len(),
                built_fields(env, e0, m0, fs@, i as int) is Some,
                self.entries() == built_fields(env, e0, m0, fs@, i as int).unwrap().0,
                map_equiv(self.map(), built_fields(env, e0, m0, fs@, i as int).unwrap().1),
            decreases fs@.len() - i,
        {
            assert(decreases_to!(fs => fs@[i as int]));
            let ghost bi = built_fields(env, e0, m0, fs@, i as int).unwrap();
            let ghost before = self.map();
            let r = self.build_type(&fs[i].ty);
            proof {
                lemma_built_equiv(env, bi.0, before, bi.1, fs@[i as int].ty);
                assert(built_fields(env, e0, m0, fs@, i + 1) == built(env, bi.0, bi.1, fs@[i as int].ty));
                if r is Err {
                    if i + 1 < fs@.len() {
                        lemma_built_fields_none(env, e0, m0, fs@, i + 1, fs@.len() as int);
                    }
                } else {
                    lemma_map_equiv_trans(
                        self.map(),
                        built(env, bi.0, before, fs@[i as int].ty).unwrap().1,
                        built(env, bi.0, bi.1, fs@[i as int].ty).unwrap().1,
                    );
                }
                assert(self.map().subrange(0, before.len() as int).subrange(0, m0.len() as int)
                    =~= self.map().subrange(0, m0.len() as int));
            }
            r?;
            i += 1;
        }
        Ok(())
    }

    /// Records `t` as the next argument and builds its table entries, as
    /// `built` describes.
    pub fn push_type(&mut self, t: &Type) -> (r: Result<(), Error>)
        requires
            old(self).wf(),
        ensures
            final(self).wf(),
            final(self).env() == old(self).env(),
            final(self).args().len() == old(self).args().len() + 1,
            final(self).args().subrange(0, old(self).args().len() as int) == old(self).args(),
            same(*t, final(self).args().last()),
            old(self).map().len() <= final(self).map().len(),
            final(self).map().subrange(0, old(self).map().len() as int) == old(self).map(),
            old(self).table().len() <= final(self).table().len(),
            r is Ok <==> built(old(self).env(), old(self).entries(), old(self).map(), *t) is Some,
            r is Ok ==> final(self).entries() == built(
                old(self).env(),
                old(self).entries(),
                old(self).map(),
                *t,
            ).unwrap().0 && map_equiv(
                final(self).map(),
                built(old(self).env(), old(self).entries(), old(self).map(), *t).unwrap().1,
            ),
            r is Ok ==> ref_of(final(self).map(), final(self).env(), final(self).args().last())
                is Some,
            r matches Err(e) ==> e == Error::UnresolvedRecursiveReference || e
                == Error::TableOverflow || e == Error::UnsortedFields,
    {
        let c = t.copy();
        self.args.push(c);
        let ghost a = self.args();
        assert(self.table() == old(self).table());
        assert(self.entries() == old(self).entries());
        assert(self.map() == old(self).map());
        assert(a.subrange(0, old(self).args().len() as int) =~= old(self).args());
        let r = self.build_type(t);
        proof {
            lemma_ref_same(self.map(), self.env(), *t, c);
        }
        r
    }

    /// The type section: the entry count, the entries in index order, the
    /// argument count, and each argument's reference in the order pushed.
    /// Fails when some argument has no reference.
    pub fn serialize(&self) -> (r: Result<Vec<u8>, Error>)
        requires
            self.wf(),
        ensures
            r is Ok <==> self.type_section() is Some,
            r matches Ok(b) ==> b@ == self.type_section()->0,
            r matches Err(e) ==> e == Error::UnresolvedRecursiveReference,
    {
        let mut out: Vec<u8> = Vec::new();
        write_uleb(&mut out, self.type_table.len() as u64);
        let mut i: usize = 0;
        while i < self.type_table.len()
            invariant
                i <= self.table().len(),
                out@ == uleb(self.table().len() as nat) + flatten(self.entries(), i as int),
            decreases self.table().len() - i,
        {
            append(&mut out, &self.type_table[i]);
            i += 1;
        }
        write_uleb(&mut out, self.args.len() as u64);
        let ghost head = out@;
        let mut j: usize = 0;
        while j < self.args.len()
            invariant
                self.wf(),
                j <= self.args().len(),
                args_refs(self.map(), self.env(), self.args(), j as int) is Some,
                out@ == head + args_refs(self.map(), self.env(), self.args(), j as int)->0,
            decreases self.args().len() - j,
        {
            if self.reference(&self.args[j]).is_none() {
                proof {
                    lemma_args_refs_none(
                        self.map(),
                        self.env(),
                        self.args(),
                        j + 1,
                        self.args().len() as int,
                    );
                }
                return Err(Error::UnresolvedRecursiveReference);
            }
            self.encode(&mut out, &self.args[j]);
            j += 1;
        }
        Ok(out)
    }
}

/// An index that the map gives is one of its entries' indices.
proof fn lemma_lookup_in_map(m: Seq<(Type, usize)>, t: Type)
    ensures
        lookup(m, t) matches Some(i) ==> exists|j: int| 0 <= j < m.len() && m[j].1 == i,
    decreases m.len(),
{
    if m.len() > 0 && !same(t, m[0].0) {
        lemma_lookup_in_map(m.drop_first(), t);
        if lookup(m, t) is Some {
            let j = choose|j: int| 0 <= j < m.drop_first().len() && m.drop_first()[j].1 == lookup(m, t)->0;
            assert(m[j + 1].1 == lookup(m, t)->0);
        }
    } else if m.len() > 0 {
        assert(m[0].1 == lookup(m, t)->0);
    }
}

} // verus!
