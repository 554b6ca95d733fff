use vstd::prelude::*;
use crate::hash::{hash_of, hash_step, idl_hash};

verus! {

broadcast use {
    vstd::std_specs::vec::axiom_vec_index_decreases,
    vstd::std_specs::vec::axiom_vec_decreases_to_view,
};

/// A structural type. `Knot` names a type of the registry by its identifier
/// and closes a recursive cycle.
pub enum Type {
    Null,
    Bool,
    Nat,
    Int,
    Text,
    Opt(Box<Type>),
    Vec(Box<Type>),
    Record(Vec<Field>),
    Variant(Vec<Field>),
    Knot(u64),
}

/// A field of a record or a case of a variant.
pub struct Field {
    pub id: String,
    pub hash: u32,
    pub ty: Type,
}

/// The errors of type construction and of the type table.
#[derive(PartialEq, Eq, Structural, Clone, Copy, Debug)]
pub enum Error {
    /// Two fields or cases of one record or variant have the same hash.
    DuplicateFieldHash,
    /// A `Knot` names an identifier that the registry does not hold.
    UnresolvedRecursiveReference,
    /// The fields or cases of a record or variant are not in ascending
    /// order of hash.
    UnsortedFields,
    /// A value does not fit the type given with it.
    ValueMismatch,
    /// The type table would hold more entries than an `i32` index names.
    TableOverflow,
}

pub open spec fn is_primitive(t: Type) -> bool {
    match t {
        Type::Null | Type::Bool | Type::Nat | Type::Int | Type::Text => true,
        _ => false,
    }
}

/// The fixed negative code of a primitive type.
pub open spec fn prim_tag(t: Type) -> int {
    match t {
        Type::Null => -1,
        Type::Bool => -2,
        Type::Nat => -3,
        Type::Int => -4,
        _ => -15,
    }
}

/// Structural equality: the same shape and the same field hashes; field
/// names do not count, as they are not on the wire. Two `Knot`s are equal
/// when they carry the same identifier, which names one type of the
/// registry; resolving them here instead would not terminate on a cycle.
pub open spec fn same(a: Type, b: Type) -> bool
    decreases a,
{
    match (a, b) {
        (Type::Null, Type::Null) => true,
        (Type::Bool, Type::Bool) => true,
        (Type::Nat, Type::Nat) => true,
        (Type::Int, Type::Int) => true,
        (Type::Text, Type::Text) => true,
        (Type::Knot(x), Type::Knot(y)) => x == y,
        (Type::Opt(x), Type::Opt(y)) => same(*x, *y),
        (Type::Vec(x), Type::Vec(y)) => same(*x, *y),
        (Type::Record(fa), Type::Record(fb)) => fa@.len() == fb@.len() && same_fields(
            fa@,
            fb@,
            fa@.len() as int,
        ),
        (Type::Variant(fa), Type::Variant(fb)) => fa@.len() == fb@.len() && same_fields(
            fa@,
            fb@,
            fa@.len() as int,
        ),
        _ => false,
    }
}

/// The first `n` fields of `fa` and `fb` agree in hash and, structurally, in type.
pub open spec fn same_fields(fa: Seq<Field>, fb: Seq<Field>, n: int) -> bool
    decreases fa, n,
{
    if n <= 0 || n > fa.len() || n > fb.len() {
        n <= 0
    } else {
        same_fields(fa, fb, n - 1) && fa[n - 1].hash == fb[n - 1].hash && same(
            fa[n - 1].ty,
            fb[n - 1].ty,
        )
    }
}

/// The hashes of a field list are strictly ascending.
pub open spec fn hashes_ascending(fs: Seq<Field>) -> bool {
    forall|i: int, j: int| 0 <= i < j < fs.len() ==> fs[i].hash < fs[j].hash
}

/// The character of a decimal digit.
pub open spec fn digit_char(d: nat) -> char {
    if d == 0 { '0' } else if d == 1 { '1' } else if d == 2 { '2' } else if d == 3 { '3' }
    else if d == 4 { '4' } else if d == 5 { '5' } else if d == 6 { '6' } else if d == 7 { '7' }
    else if d == 8 { '8' } else { '9' }
}

/// The decimal representation of `n`, most significant digit first.
pub open spec fn decimal(n: nat) -> Seq<char>
    decreases n,
{
    if n < 10 {
        seq![digit_char(n)]
    } else {
        decimal(n / 10).push(digit_char(n % 10))
    }
}

/// The hash of an unnamed field: that of its zero-based position written
/// in decimal.
pub fn positional_hash(index: u32) -> (r: u32)
    ensures
        r == hash_of(decimal(index as nat)),
    decreases index,
{
    let d: u32 = index % 10;
    let c: u32 = 48 + d;
    let prev: u32 = if index < 10 { 0 } else { positional_hash(index / 10) };
    let m = prev.wrapping_mul(223);
    let t = m.wrapping_add(c);
    proof {
        assert((digit_char(d as nat) as u32) == c);
        vstd::arithmetic::div_mod::lemma_add_mod_noop(prev as int * 223, c as int, 0x1_0000_0000);
        assert(t == hash_step(prev, digit_char(d as nat)));
        let s = decimal(index as nat);
        if index < 10 {
            assert(s == seq![digit_char(index as nat)]);
            assert(s.drop_last() =~= Seq::<char>::empty());
            assert(hash_of(s.drop_last()) == 0);
        } else {
            assert(s.drop_last() =~= decimal((index / 10) as nat));
        }
        assert(s.last() == digit_char(d as nat));
        assert(hash_of(s) == hash_step(hash_of(s.drop_last()), s.last()));
    }
    t
}

/// Some field of `fs` has hash `h`.
pub open spec fn has_hash(fs: Seq<Field>, h: u32) -> bool {
    exists|i: int| 0 <= i < fs.len() && fs[i].hash == h
}

/// No two fields of `fs` share a hash.
pub open spec fn distinct_hashes(fs: Seq<Field>) -> bool {
    forall|i: int, j: int| 0 <= i < j < fs.len() ==> fs[i].hash != fs[j].hash
}

/// The canonical order of fields: two field lists sorted ascending by hash
/// that hold the same fields are equal, so the order in which fields were
/// declared does not reach the type, nor the wire.
pub proof fn lemma_canonical_order(a: Seq<Field>, b: Seq<Field>)
    requires
        a.len() == b.len(),
        hashes_ascending(a),
        hashes_ascending(b),
        forall|f: Field| a.contains(f) == b.contains(f),
    ensures
        a == b,
{
    assert forall|h: u32| has_hash(a, h) == has_hash(b, h) by {
        if has_hash(a, h) {
            let i = choose|i: int| 0 <= i < a.len() && a[i].hash == h;
            assert(a.contains(a[i]));
            let j = choose|j: int| 0 <= j < b.len() && b[j] == a[i];
        }
        if has_hash(b, h) {
            let i = choose|i: int| 0 <= i < b.len() && b[i].hash == h;
            assert(b.contains(b[i]));
            let j = choose|j: int| 0 <= j < a.len() && a[j] == b[i];
        }
    }
    lemma_canonical_prefix(a, b, a.len() as int);
    assert forall|k: int| 0 <= k < a.len() implies a[k] == b[k] by {
        assert(a.contains(a[k]));
        let j = choose|j: int| 0 <= j < b.len() && b[j] == a[k];
        if j < k {
            assert(b[j].hash < b[k].hash);
        } else if j > k {
            assert(b[k].hash < b[j].hash);
        }
    }
    assert(a =~= b);
}

proof fn lemma_canonical_prefix(a: Seq<Field>, b: Seq<Field>, k: int)
    requires
        0 <= k <= a.len() == b.len(),
        hashes_ascending(a),
        hashes_ascending(b),
        forall|h: u32| has_hash(a, h) == has_hash(b, h),
    ensures
        forall|i: int| 0 <= i < k ==> a[i].hash == b[i].hash,
    decreases k,
{
    if k > 0 {
        lemma_canonical_prefix(a, b, k - 1);
        let i = k - 1;
        assert(has_hash(a, a[i].hash));
        assert(has_hash(b, a[i].hash));
        let j = choose|j: int| 0 <= j < b.len() && b[j].hash == a[i].hash;
        if j < i {
            assert(a[j].hash == b[j].hash);
        }
        assert(has_hash(b, b[i].hash));
        assert(has_hash(a, b[i].hash));
        let l = choose|l: int| 0 <= l < a.len() && a[l].hash == b[i].hash;
        if l < i {
            assert(a[l].hash == b[l].hash);
        }
    }
}

fn check_distinct(fs: &Vec<Field>) -> (r: bool)
    ensures
        r == distinct_hashes(fs@),
{
    let mut j: usize = 0;
    while j < fs.len()
        invariant
            j <= fs@.len(),
            forall|a: int, b: int| 0 <= a < b < j ==> fs@[a].hash != fs@[b].hash,
        decreases fs@.len() - j,
    {
        let mut i: usize = 0;
        while i < j
            invariant
                i <= j < fs@.len(),
                forall|a: int, b: int| 0 <= a < b < j ==> fs@[a].hash != fs@[b].hash,
                forall|a: int| 0 <= a < i ==> fs@[a].hash != fs@[j as int].hash,
            decreases j - i,
        {
            if fs[i].hash == fs[j].hash {
                return false;
            }
            i += 1;
        }
        j += 1;
    }
    true
}

/// Sorts fields with distinct hashes ascending by hash; each field is kept
/// whole, so the result is a permutation of the input.
fn sort_by_hash(fs: Vec<Field>) -> (r: Vec<Field>)
    requires
        distinct_hashes(fs@),
    ensures
        hashes_ascending(r@),
        r@.len() == fs@.len(),
        forall|f: Field| r@.contains(f) == fs@.contains(f),
{
    let ghost orig = fs@;
    let mut rest = fs;
    let mut out: Vec<Field> = Vec::new();
    while rest.len() > 0
        invariant
            rest@ == orig.subrange(0, rest@.len() as int),
            out@.len() + rest@.len() == orig.len(),
            distinct_hashes(orig),
            hashes_ascending(out@),
            forall|f: Field|
                out@.contains(f) <==> (exists|j: int| rest@.len() <= j < orig.len() && orig[j] == f),
        decreases rest@.len(),
    {
        let f = rest.pop().unwrap();
        let ghost n = rest@.len() as int;
        let h = f.hash;
        let mut pos: usize = 0;
        while pos < out.len() && out[pos].hash < h
            invariant
                pos <= out@.len(),
                forall|k: int| 0 <= k < pos ==> out@[k].hash < h,
            decreases out@.len() - pos,
        {
            pos += 1;
        }
        proof {
            assert(orig[n] == f);
            assert forall|k: int| 0 <= k < out@.len() implies out@[k].hash != h by {
                assert(out@.contains(out@[k]));
                let j = choose|j: int| n + 1 <= j < orig.len() && orig[j] == out@[k];
            }
        }
        let ghost prev = out@;
        out.insert(pos, f);
        proof {
            assert(rest@ =~= orig.subrange(0, n));
            assert forall|a: int, b: int| 0 <= a < b < out@.len() implies out@[a].hash
                < out@[b].hash by {
                if b < pos {
                } else if a < pos && b == pos {
                } else if a < pos {
                    assert(out@[b] == prev[b - 1]);
                    if pos < prev.len() {
                        assert(prev[pos as int].hash != h);
                    }
                } else if a == pos {
                    assert(out@[b] == prev[b - 1]);
                    assert(prev[pos as int].hash != h);
                    assert(prev[pos as int].hash >= h);
                } else {
                    assert(out@[a] == prev[a - 1]);
                    assert(out@[b] == prev[b - 1]);
                }
            }
            assert forall|g: Field|
                out@.contains(g) <==> (exists|j: int| n <= j < orig.len() && orig[j] == g) by {
                if out@.contains(g) {
                    let k = choose|k: int| 0 <= k < out@.len() && out@[k] == g;
                    if k == pos {
                        assert(orig[n] == g);
                    } else if k < pos {
                        assert(prev[k] == g);
                        assert(prev.contains(g));
                    } else {
                        assert(out@[k] == prev[k - 1]);
                        assert(prev.contains(g));
                    }
                }
                if exists|j: int| n <= j < orig.len() && orig[j] == g {
                    let j = choose|j: int| n <= j < orig.len() && orig[j] == g;
                    if j == n {
                        assert(out@[pos as int] == f);
                    } else {
                        assert(prev.contains(g));
                        let k = choose|k: int| 0 <= k < prev.len() && prev[k] == g;
                        if k < pos {
                            assert(out@[k] == prev[k]);
                        } else {
                            assert(out@[k + 1] == prev[k]);
                        }
                    }
                }
            }
        }
    }
    proof {
        assert forall|g: Field| out@.contains(g) == orig.contains(g) by {
            if orig.contains(g) {
                let j = choose|j: int| 0 <= j < orig.len() && orig[j] == g;
            }
        }
    }
    out
}

impl Field {
    /// A named field: its hash is that of its name.
    pub fn named(id: String, ty: Type) -> (r: Field)
        ensures
            r.id@ == id@,
            r.hash == hash_of(id@),
            r.ty == ty,
    {
        let hash = idl_hash(id.as_str());
        Field { id, hash, ty }
    }

    /// The unnamed field at zero-based position `index`: its name is the
    /// position in decimal, and its hash that name's hash.
    pub fn positional(index: u32, ty: Type) -> (r: Field)
        ensures
            r.id@ == decimal(index as nat),
            r.hash == hash_of(decimal(index as nat)),
            r.ty == ty,
    {
        Field { id: decimal_string(index), hash: positional_hash(index), ty }
    }
}

/// Relies on `u32`'s `Display` (through `ToString::to_string`): an unsigned
/// integer is written in decimal, with no sign and no leading zeros.
#[verifier::external_body]
fn decimal_string(index: u32) -> (r: String)
    ensures
        r@ == decimal(index as nat),
{
    index.to_string()
}

/// The position of the case named `name` among the cases of a variant,
/// found by the name's hash, as the cases are stored ascending by hash.
pub fn case_index(t: &Type, name: &str) -> (r: Option<u64>)
    ensures
        r matches Some(i) ==> {
            &&& t is Variant
            &&& i < t->Variant_0@.len()
            &&& t->Variant_0@[i as int].hash == hash_of(name@)
            &&& forall|k: int| 0 <= k < i ==> t->Variant_0@[k].hash != hash_of(name@)
        },
        r is None ==> !(t is Variant) || forall|k: int|
            0 <= k < t->Variant_0@.len() ==> t->Variant_0@[k].hash != hash_of(name@),
{
    match t {
        Type::Variant(fs) => {
            let h = idl_hash(name);
            let mut i: usize = 0;
            while i < fs.len()
                invariant
                    i <= fs@.len(),
                    h == hash_of(name@),
                    t->Variant_0@ == fs@,
                    t is Variant,
                    forall|k: int| 0 <= k < i ==> fs@[k].hash != h,
                decreases fs@.len() - i,
            {
                if fs[i].hash == h {
                    return Some(i as u64);
                }
                i += 1;
            }
            None
        },
        _ => None,
    }
}

impl Type {
    /// A record of `fields`, stored ascending by hash; fails when two fields
    /// share a hash.
    pub fn record(fields: Vec<Field>) -> (r: Result<Type, Error>)
        ensures
            r is Err <==> !distinct_hashes(fields@),
            r matches Err(e) ==> e == Error::DuplicateFieldHash,
            r matches Ok(t) ==> (t matches Type::Record(fs) && hashes_ascending(fs@)
                && fs@.len() == fields@.len() && forall|f: Field|
                fs@.contains(f) == fields@.contains(f)),
    {
        if !check_distinct(&fields) {
            return Err(Error::DuplicateFieldHash);
        }
        Ok(Type::Record(sort_by_hash(fields)))
    }

    /// A variant of `cases`, stored ascending by hash; fails when two cases
    /// share a hash.
    pub fn variant(cases: Vec<Field>) -> (r: Result<Type, Error>)
        ensures
            r is Err <==> !distinct_hashes(cases@),
            r matches Err(e) ==> e == Error::DuplicateFieldHash,
            r matches Ok(t) ==> (t matches Type::Variant(fs) && hashes_ascending(fs@)
                && fs@.len() == cases@.len() && forall|f: Field|
                fs@.contains(f) == cases@.contains(f)),
    {
        if !check_distinct(&cases) {
            return Err(Error::DuplicateFieldHash);
        }
        Ok(Type::Variant(sort_by_hash(cases)))
    }

    pub fn is_primitive(&self) -> (r: bool)
        ensures
            r == is_primitive(*self),
    {
        match self {
            Type::Null | Type::Bool | Type::Nat | Type::Int | Type::Text => true,
            _ => false,
        }
    }

    /// Structural equality, as `same`.
    pub fn same_as(&self, other: &Type) -> (r: bool)
        ensures
            r == same(*self, *other),
        decreases self,
    {
        match (self, other) {
            (Type::Null, Type::Null) => true,
            (Type::Bool, Type::Bool) => true,
            (Type::Nat, Type::Nat) => true,
            (Type::Int, Type::Int) => true,
            (Type::Text, Type::Text) => true,
            (Type::Knot(x), Type::Knot(y)) => *x == *y,
            (Type::Opt(x), Type::Opt(y)) => x.same_as(y),
            (Type::Vec(x), Type::Vec(y)) => x.same_as(y),
            (Type::Record(fa), Type::Record(fb)) => fa.len() == fb.len() && fields_same(fa, fb),
            (Type::Variant(fa), Type::Variant(fb)) => fa.len() == fb.len() && fields_same(fa, fb),
            _ => false,
        }
    }

    /// A structural copy.
    pub fn copy(&self) -> (r: Type)
        ensures
            same(*self, r),
        decreases self,
    {
        match self {
            Type::Null => Type::Null,
            Type::Bool => Type::Bool,
            Type::Nat => Type::Nat,
            Type::Int => Type::Int,
            Type::Text => Type::Text,
            Type::Knot(x) => Type::Knot(*x),
            Type::Opt(x) => Type::Opt(Box::new(x.copy())),
            Type::Vec(x) => Type::Vec(Box::new(x.copy())),
            Type::Record(fs) => Type::Record(copy_fields(fs)),
            Type::Variant(fs) => Type::Variant(copy_fields(fs)),
        }
    }
}

fn fields_same(fa: &Vec<Field>, fb: &Vec<Field>) -> (r: bool)
    requires
        fa@.len() == fb@.len(),
    ensures
        r == same_fields(fa@, fb@, fa@.len() as int),
    decreases fa, 0int,
{
    let mut i: usize = 0;
    while i < fa.len()
        invariant
            i <= fa@.len() == fb@.len(),
            same_fields(fa@, fb@, i as int),
        decreases fa@.len() - i,
    {
        assert(decreases_to!(fa => fa@[i as int]));
        if fa[i].hash != fb[i].hash || !fa[i].ty.same_as(&fb[i].ty) {
            proof {
                if same_fields(fa@, fb@, fa@.len() as int) {
                    lemma_same_fields_prefix(fa@, fb@, i + 1, fa@.len() as int);
                }
            }
            return false;
        }
        i += 1;
    }
    true
}

/// Structural equality is reflexive.
pub proof fn lemma_same_refl(a: Type)
    ensures
        same(a, a),
    decreases a,
{
    match a {
        Type::Opt(x) => lemma_same_refl(*x),
        Type::Vec(x) => lemma_same_refl(*x),
        Type::Record(fs) => lemma_fields_refl(fs@, fs@.len() as int),
        Type::Variant(fs) => lemma_fields_refl(fs@, fs@.len() as int),
        _ => {},
    }
}

proof fn lemma_fields_refl(fs: Seq<Field>, n: int)
    requires
        n <= fs.len(),
    ensures
        same_fields(fs, fs, n),
    decreases fs, n,
{
    if n > 0 {
        lemma_fields_refl(fs, n - 1);
        lemma_same_refl(fs[n - 1].ty);
    }
}

/// Structural equality is symmetric.
pub proof fn lemma_same_sym(a: Type, b: Type)
    requires
        same(a, b),
    ensures
        same(b, a),
    decreases a,
{
    match (a, b) {
        (Type::Opt(x), Type::Opt(y)) => lemma_same_sym(*x, *y),
        (Type::Vec(x), Type::Vec(y)) => lemma_same_sym(*x, *y),
        (Type::Record(fa), Type::Record(fb)) => lemma_fields_sym(fa@, fb@, fa@.len() as int),
        (Type::Variant(fa), Type::Variant(fb)) => lemma_fields_sym(fa@, fb@, fa@.len() as int),
        _ => {},
    }
}

proof fn lemma_fields_sym(fa: Seq<Field>, fb: Seq<Field>, n: int)
    requires
        n <= fa.len(),
        fa.len() == fb.len(),
        same_fields(fa, fb, n),
    ensures
        same_fields(fb, fa, n),
    decreases fa, n,
{
    if n > 0 {
        lemma_fields_sym(fa, fb, n - 1);
        lemma_same_sym(fa[n - 1].ty, fb[n - 1].ty);
    }
}

/// Structural equality is transitive.
pub proof fn lemma_same_trans(a: Type, b: Type, c: Type)
    requires
        same(a, b),
        same(b, c),
    ensures
        same(a, c),
    decreases a,
{
    match (a, b, c) {
        (Type::Opt(x), Type::Opt(y), Type::Opt(z)) => lemma_same_trans(*x, *y, *z),
        (Type::Vec(x), Type::Vec(y), Type::Vec(z)) => lemma_same_trans(*x, *y, *z),
        (Type::Record(fa), Type::Record(fb), Type::Record(fc)) => lemma_fields_trans(
            fa@,
            fb@,
            fc@,
            fa@.len() as int,
        ),
        (Type::Variant(fa), Type::Variant(fb), Type::Variant(fc)) => lemma_fields_trans(
            fa@,
            fb@,
            fc@,
            fa@.len() as int,
        ),
        _ => {},
    }
}

proof fn lemma_fields_trans(fa: Seq<Field>, fb: Seq<Field>, fc: Seq<Field>, n: int)
    requires
        n <= fa.len(),
        fa.len() == fb.len() == fc.len(),
        same_fields(fa, fb, n),
        same_fields(fb, fc, n),
    ensures
        same_fields(fa, fc, n),
    decreases fa, n,
{
    if n > 0 {
        lemma_fields_trans(fa, fb, fc, n - 1);
        lemma_same_trans(fa[n - 1].ty, fb[n - 1].ty, fc[n - 1].ty);
    }
}

/// Agreement on a longer prefix implies agreement on a shorter one.
pub proof fn lemma_same_fields_prefix(fa: Seq<Field>, fb: Seq<Field>, m: int, n: int)
    requires
        0 <= m <= n <= fa.len(),
        n <= fb.len(),
        same_fields(fa, fb, n),
    ensures
        same_fields(fa, fb, m),
    decreases n,
{
    if m < n {
        lemma_same_fields_prefix(fa, fb, m, n - 1);
    }
}

fn copy_fields(fs: &Vec<Field>) -> (r: Vec<Field>)
    ensures
        r@.len() == fs@.len(),
        same_fields(fs@, r@, fs@.len() as int),
        forall|i: int| 0 <= i < r@.len() ==> r@[i].hash == fs@[i].hash,
    decreases fs, 0int,
{
    let mut out: Vec<Field> = Vec::new();
    let mut i: usize = 0;
    while i < fs.len()
        invariant
            i <= fs@.len(),
            out@.len() == i,
            same_fields(fs@, out@, i as int),
            forall|k: int| 0 <= k < i ==> out@[k].hash == fs@[k].hash,
        decreases fs@.len() - i,
    {
        assert(decreases_to!(fs => fs@[i as int]));
        let ty = fs[i].ty.copy();
        let ghost prev = out@;
        out.push(Field { id: fs[i].id.clone(), hash: fs[i].hash, ty });
        proof {
            assert(out@.subrange(0, prev.len() as int) =~= prev);
            lemma_same_fields_extend(fs@, prev, out@, i as int);
        }
        i += 1;
    }
    out
}

/// Agreement on a prefix survives appending to the second list.
proof fn lemma_same_fields_extend(fa: Seq<Field>, fb: Seq<Field>, fc: Seq<Field>, n: int)
    requires
        0 <= n <= fb.len() < fc.len(),
        n <= fa.len(),
        fc.subrange(0, fb.len() as int) == fb,
        same_fields(fa, fb, n),
    ensures
        same_fields(fa, fc, n),
    decreases n,
{
    if n > 0 {
        lemma_same_fields_extend(fa, fb, fc, n - 1);
        assert(fc[n - 1] == fb[n - 1]);
    }
}

} // verus!
