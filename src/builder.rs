use vstd::prelude::*;
use crate::types::{Type, Error, same};
use crate::leb::{uleb, sleb};
use crate::value::{Value, ValueSerializer, value_bytes};
use crate::registry::TypeEnv;
use crate::table::{
    TypeSerialize, append, ref_of, flatten, args_refs, lemma_args_refs_some, lemma_ref_prefix,
    lemma_ref_same,
};
use crate::model::{built, map_equiv, lemma_ref_equiv};
use crate::conform::{conforms, check_value};

verus! {

/// The four bytes that open every message: ASCII "DIDL".
pub open spec fn magic() -> Seq<u8> {
    seq![0x44u8, 0x49u8, 0x44u8, 0x4cu8]
}

/// An encoding session: arguments are added one by one, each a type and a
/// value; the output is the magic, the shared type section, and the value
/// bytes of all arguments in the order they were added. Once an argument
/// fails, the session keeps that error and produces no output.
pub struct IDLBuilder {
    type_ser: TypeSerialize,
    value_ser: ValueSerializer,
    failed: Option<Error>,
}

impl IDLBuilder {
    pub closed spec fn types(&self) -> TypeSerialize {
        self.type_ser
    }

    pub closed spec fn values(&self) -> Seq<u8> {
        self.value_ser@
    }

    /// The error of the first argument that failed, if any.
    pub closed spec fn failed(&self) -> Option<Error> {
        self.failed
    }

    /// The table is well formed and, unless an argument failed, every
    /// argument has a reference.
    pub open spec fn wf(&self) -> bool {
        &&& self.types().wf()
        &&& self.failed() is None ==> forall|k: int|
            0 <= k < self.types().args().len() ==> ref_of(
                self.types().map(),
                self.types().env(),
                #[trigger] self.types().args()[k],
            ) is Some
    }

    /// The message this session encodes, unless an argument failed.
    pub open spec fn encoded(&self) -> Option<Seq<u8>> {
        if self.failed() is Some {
            None
        } else {
            match self.types().type_section() {
                Some(s) => Some(magic() + s + self.values()),
                None => None,
            }
        }
    }

    /// A session with no arguments whose `Knot`s resolve through `env`.
    pub fn with_registry(env: TypeEnv) -> (r: Self)
        ensures
            r.wf(),
            r.failed() is None,
            r.types().env() == env@,
            r.types().args().len() == 0,
            r.types().map().len() == 0,
            r.types().table().len() == 0,
            r.types().entries() == Seq::<Seq<u8>>::empty(),
            r.types().map() == Seq::<(Type, usize)>::empty(),
            r.values() == Seq::<u8>::empty(),
    {
        IDLBuilder {
            type_ser: TypeSerialize::new(env),
            value_ser: ValueSerializer::new(),
            failed: None,
        }
    }

    /// A session with no arguments and an empty registry.
    pub fn new() -> (r: Self)
        ensures
            r.wf(),
            r.failed() is None,
            r.types().env() == Seq::<(u64, Type)>::empty(),
            r.types().args().len() == 0,
            r.types().map().len() == 0,
            r.types().table().len() == 0,
            r.types().entries() == Seq::<Seq<u8>>::empty(),
            r.types().map() == Seq::<(Type, usize)>::empty(),
            r.values() == Seq::<u8>::empty(),
    {
        IDLBuilder::with_registry(TypeEnv::new())
    }

    /// Adds one argument: its type to the type table and the argument list,
    /// and, once the type is built, its value's bytes after those before.
    /// A value that does not fit its type is refused and changes nothing.
    /// Otherwise, on a session that has not failed, the table and map become
    /// what `built` gives, and the call fails exactly when `built` does; a
    /// failure is kept by the session.
    pub fn arg(&mut self, ty: &Type, value: &Value) -> (r: Result<(), Error>)
        requires
            old(self).wf(),
        ensures
            final(self).wf(),
            final(self).types().env() == old(self).types().env(),
            old(self).failed() is None && !conforms(old(self).types().env(), *ty, *value, true)
                ==> r == Err::<(), Error>(Error::ValueMismatch) && *final(self) == *old(self),
            old(self).failed() is None && conforms(old(self).types().env(), *ty, *value, true)
                ==> (r is Ok <==> built(
                old(self).types().env(),
                old(self).types().entries(),
                old(self).types().map(),
                *ty,
            ) is Some),
            r is Ok ==> final(self).types().entries() == built(
                old(self).types().env(),
                old(self).types().entries(),
                old(self).types().map(),
                *ty,
            ).unwrap().0 && map_equiv(
                final(self).types().map(),
                built(
                    old(self).types().env(),
                    old(self).types().entries(),
                    old(self).types().map(),
                    *ty,
                ).unwrap().1,
            ),
            r is Ok ==> {
                &&& old(self).failed() is None
                &&& final(self).failed() is None
                &&& final(self).types().args().len() == old(self).types().args().len() + 1
                &&& final(self).types().args().subrange(0, old(self).types().args().len() as int)
                    == old(self).types().args()
                &&& same(*ty, final(self).types().args().last())
                &&& final(self).values() == old(self).values() + value_bytes(*value)
            },
            r matches Err(e) ==> final(self).values() == old(self).values() && (e
                == Error::ValueMismatch || final(self).failed() == Some(e)),
            old(self).failed() is Some ==> *final(self) == *old(self),
    {
        if let Some(e) = self.failed {
            return Err(e);
        }
        if !check_value(self.type_ser.registry(), ty, value, true) {
            return Err(Error::ValueMismatch);
        }
        let ghost t0 = self.types();
        match self.type_ser.push_type(ty) {
            Ok(()) => {},
            Err(e) => {
                self.failed = Some(e);
                return Err(e);
            },
        }
        proof {
            let t1 = self.types();
            assert forall|k: int| 0 <= k < t1.args().len() implies ref_of(
                t1.map(),
                t1.env(),
                #[trigger] t1.args()[k],
            ) is Some by {
                if k < t0.args().len() {
                    assert(t1.args()[k] == t0.args()[k]);
                    lemma_ref_prefix(t1.map(), t0.map().len() as int, t1.env(), t0.args()[k]);
                }
            }
        }
        self.value_ser.serialize_value(value);
        Ok(())
    }

    /// The message: the magic, the type section, then the value bytes.
    /// It fails exactly when an argument failed. The session is left as it
    /// was, so it can be serialized again.
    pub fn to_vec(&self) -> (r: Result<Vec<u8>, Error>)
        requires
            self.wf(),
        ensures
            r is Ok <==> self.failed() is None,
            self.failed() is None ==> self.encoded() is Some,
            r matches Ok(b) ==> b@ == self.encoded()->0,
            r matches Err(e) ==> self.failed() == Some(e),
    {
        if let Some(e) = self.failed {
            return Err(e);
        }
        proof {
            let t = self.types();
            lemma_args_refs_some(t.map(), t.env(), t.args(), t.args().len() as int);
        }
        let section = match self.type_ser.serialize() {
            Ok(s) => s,
            Err(e) => {
                return Err(e);
            },
        };
        let mut out: Vec<u8> = Vec::new();
        out.push(0x44u8);
        out.push(0x49u8);
        out.push(0x44u8);
        out.push(0x4cu8);
        append(&mut out, &section);
        append(&mut out, self.value_ser.bytes());
        assert(out@ =~= magic() + section@ + self.values());
        Ok(out)
    }

    /// As `to_vec`, through a mutable borrow.
    pub fn serialize_to_vec(&mut self) -> (r: Result<Vec<u8>, Error>)
        requires
            old(self).wf(),
        ensures
            *final(self) == *old(self),
            r is Ok <==> old(self).failed() is None,
            r matches Ok(b) ==> b@ == old(self).encoded()->0,
            r matches Err(e) ==> old(self).failed() == Some(e),
    {
        self.to_vec()
    }
}

/// Two sessions agree: the same registry, table entries, argument count,
/// value bytes and failure, maps that agree entry by entry, and
/// structurally equal arguments. Adding the same argument to both keeps
/// them agreeing, as `arg` follows `built` and `lemma_built_equiv` holds.
pub open spec fn sessions_agree(a: IDLBuilder, b: IDLBuilder) -> bool {
    &&& a.types().env() == b.types().env()
    &&& a.types().entries() == b.types().entries()
    &&& map_equiv(a.types().map(), b.types().map())
    &&& a.types().args().len() == b.types().args().len()
    &&& forall|k: int|
        0 <= k < a.types().args().len() ==> same(a.types().args()[k], b.types().args()[k])
    &&& a.values() == b.values()
    &&& a.failed() == b.failed()
}

/// Sessions that agree encode the same message.
pub proof fn lemma_agreeing_sessions_encode_alike(a: IDLBuilder, b: IDLBuilder)
    requires
        sessions_agree(a, b),
    ensures
        a.encoded() == b.encoded(),
{
    lemma_args_refs_agree(a, b, a.types().args().len() as int);
}

proof fn lemma_args_refs_agree(a: IDLBuilder, b: IDLBuilder, n: int)
    requires
        sessions_agree(a, b),
        n <= a.types().args().len(),
    ensures
        args_refs(a.types().map(), a.types().env(), a.types().args(), n) == args_refs(
            b.types().map(),
            b.types().env(),
            b.types().args(),
            n,
        ),
    decreases n,
{
    if n > 0 {
        lemma_args_refs_agree(a, b, n - 1);
        let env = a.types().env();
        let x = a.types().args()[n - 1];
        let y = b.types().args()[n - 1];
        lemma_ref_equiv(a.types().map(), b.types().map(), env, x);
        lemma_ref_same(b.types().map(), env, x, y);
    }
}

/// The type section of a message with the single argument `ty` and an
/// empty registry: no section when building `ty` fails.
pub open spec fn single_section(ty: Type) -> Option<Seq<u8>> {
    let env = Seq::<(u64, Type)>::empty();
    match built(env, Seq::empty(), Seq::empty(), ty) {
        Some(b) => match ref_of(b.1, env, ty) {
            Some(r) => Some(uleb(b.0.len() as nat) + flatten(b.0, b.0.len() as int) + uleb(1)
                + sleb(r)),
            None => None,
        },
        None => None,
    }
}

/// Encodes one value of one type as a complete message, with an empty
/// registry. It succeeds exactly when the value fits the type and the type
/// builds; the message is the magic, the type section, and the value bytes.
pub fn to_vec(ty: &Type, value: &Value) -> (r: Result<Vec<u8>, Error>)
    ensures
        r is Ok <==> conforms(Seq::empty(), *ty, *value, true) && built(
            Seq::empty(),
            Seq::empty(),
            Seq::empty(),
            *ty,
        ) is Some,
        r is Ok ==> single_section(*ty) is Some,
        r matches Ok(b) ==> b@ == magic() + single_section(*ty)->0 + value_bytes(*value),
{
    let mut b = IDLBuilder::new();
    let ghost b0 = b;
    b.arg(ty, value)?;
    let r = b.to_vec();
    proof {
        let t = b.types();
        let env = Seq::<(u64, Type)>::empty();
        let sb = built(env, Seq::empty(), Seq::empty(), *ty).unwrap();
        let c = t.args()[0];
        assert(t.args().last() == c);
        lemma_ref_same(t.map(), env, *ty, c);
        lemma_ref_equiv(t.map(), sb.1, env, *ty);
        assert(t.args().len() == 1);
        assert(crate::table::args_refs(t.map(), env, t.args(), 0) == Some(Seq::<u8>::empty()));
        assert(r is Ok);
        assert(r->Ok_0@ =~= magic() + single_section(*ty)->0 + value_bytes(*value));
    }
    r
}

} // verus!
