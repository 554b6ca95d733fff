use serde_idl::builder::{to_vec, IDLBuilder};
use serde_idl::hash::idl_hash;
use serde_idl::registry::TypeEnv;
use serde_idl::types::{case_index, positional_hash, Error, Field, Type};
use serde_idl::value::{Compound, Value, ValueSerializer};

fn uleb(mut v: u64) -> Vec<u8> {
    let mut out = Vec::new();
    loop {
        let b = (v & 0x7f) as u8;
        v >>= 7;
        if v == 0 {
            out.push(b);
            return out;
        }
        out.push(b | 0x80);
    }
}

fn field(name: &str, ty: Type) -> Field {
    Field { id: name.to_string(), hash: idl_hash(name), ty }
}

#[test]
fn hash_of_empty_is_zero() {
    assert_eq!(idl_hash(""), 0);
}

#[test]
fn hash_accumulates_characters() {
    assert_eq!(idl_hash("a"), 97);
    assert_eq!(idl_hash("ab"), 97 * 223 + 98);
    assert_eq!(idl_hash("age"), 4846783);
    assert_eq!(idl_hash("name"), 1224700491);
    assert_eq!(idl_hash("name"), idl_hash("name"));
}

#[test]
fn hash_wraps_around() {
    let long = "zzzzzzzzzzzz";
    let mut acc: u32 = 0;
    for c in long.chars() {
        acc = acc.wrapping_mul(223).wrapping_add(c as u32);
    }
    assert_eq!(idl_hash(long), acc);
}

#[test]
fn unsigned_numbers_small_values() {
    let mut s = ValueSerializer::new();
    s.serialize_nat(0);
    s.serialize_nat(127);
    s.serialize_nat(128);
    assert_eq!(s.bytes().clone(), vec![0x00, 0x7f, 0x80, 0x01]);
}

#[test]
fn unsigned_numbers_length_law() {
    for (v, n) in [(1u64, 1usize), (16383, 2), (16384, 3), (u64::MAX, 10)] {
        let mut s = ValueSerializer::new();
        s.serialize_nat(v);
        assert_eq!(s.bytes().len(), n);
        let b = s.bytes();
        for i in 0..b.len() - 1 {
            assert!(b[i] & 0x80 != 0);
        }
        assert!(b[b.len() - 1] & 0x80 == 0);
    }
}

#[test]
fn signed_numbers() {
    let mut s = ValueSerializer::new();
    s.serialize_int(-1);
    s.serialize_int(63);
    s.serialize_int(64);
    s.serialize_int(-65);
    assert_eq!(s.bytes().clone(), vec![0x7f, 0x3f, 0xc0, 0x00, 0xbf, 0x7f]);
}

#[test]
fn bool_text_and_null() {
    let mut s = ValueSerializer::new();
    s.serialize_bool(true);
    s.serialize_bool(false);
    s.serialize_null();
    s.serialize_text("hé");
    assert_eq!(s.bytes().clone(), vec![1, 0, 3, b'h', 0xc3, 0xa9]);
}

#[test]
fn record_fields_follow_hash_order() {
    let ty = Type::Record(vec![field("age", Type::Nat), field("name", Type::Text)]);
    let value = Value::Record(vec![Value::Nat(7), Value::Text("x".to_string())]);
    let out = to_vec(&ty, &value).unwrap();
    let mut expected = b"DIDL".to_vec();
    expected.push(1);
    expected.push(0x6c);
    expected.push(2);
    expected.extend(uleb(4846783));
    expected.push(0x7d);
    expected.extend(uleb(1224700491));
    expected.push(0x71);
    expected.push(1);
    expected.push(0);
    expected.extend([7, 1, b'x']);
    assert_eq!(out, expected);
}

#[test]
fn variant_case_index_among_sorted_cases() {
    let payload = Type::Record(vec![Field::positional(0, Type::Nat)]);
    let mut cases = vec![field("c", Type::Null), field("a", payload), field("b", Type::Null)];
    cases.sort_by_key(|f| f.hash);
    let idx = cases.iter().position(|f| f.id == "a").unwrap() as u64;
    assert_eq!(idx, 0);
    let ty = Type::Variant(cases);
    let value = Value::Variant(idx, vec![Value::Nat(5)]);
    let out = to_vec(&ty, &value).unwrap();
    assert_eq!(&out[out.len() - 2..], &[0, 5]);
    assert_eq!(out[5], 0x6b);
}

#[test]
fn optional_absent_and_present() {
    let ty = Type::Opt(Box::new(Type::Nat));
    let absent = to_vec(&ty, &Value::Opt(None)).unwrap();
    assert_eq!(absent, vec![b'D', b'I', b'D', b'L', 1, 0x6e, 0x7d, 1, 0, 0]);
    let text_ty = Type::Opt(Box::new(Type::Text));
    let absent_text = to_vec(&text_ty, &Value::Opt(None)).unwrap();
    assert_eq!(absent_text[absent_text.len() - 1], 0);
    let present = to_vec(&ty, &Value::Opt(Some(Box::new(Value::Nat(5))))).unwrap();
    assert_eq!(&present[present.len() - 2..], &[1, 5]);
}

fn list_type() -> Type {
    Type::Opt(Box::new(Type::Record(vec![field("head", Type::Nat), field("tail", Type::Knot(1))])))
}

#[test]
fn recursive_list_encodes() {
    let mut env = TypeEnv::new();
    env.register(1, list_type());
    let mut b = IDLBuilder::with_registry(env);
    let value = Value::Opt(Some(Box::new(Value::Record(vec![
        Value::Nat(1),
        Value::Opt(Some(Box::new(Value::Record(vec![Value::Nat(2), Value::Opt(None)])))),
    ]))));
    b.arg(&list_type(), &value).unwrap();
    let out = b.to_vec().unwrap();
    let mut expected = b"DIDL".to_vec();
    expected.extend([2, 0x6e, 1, 0x6c, 2]);
    expected.extend(uleb(idl_hash("head") as u64));
    expected.push(0x7d);
    expected.extend(uleb(idl_hash("tail") as u64));
    expected.push(0);
    expected.extend([1, 0]);
    expected.extend([1, 1, 1, 2, 0]);
    assert_eq!(out, expected);
}

#[test]
fn equal_types_share_an_entry() {
    let mut b = IDLBuilder::new();
    let ty = Type::Vec(Box::new(Type::Int));
    b.arg(&ty, &Value::Vec(vec![Value::Int(-1)])).unwrap();
    b.arg(&Type::Vec(Box::new(Type::Int)), &Value::Vec(vec![])).unwrap();
    let out = b.to_vec().unwrap();
    assert_eq!(out, vec![b'D', b'I', b'D', b'L', 1, 0x6d, 0x7c, 2, 0, 0, 1, 0x7f, 0]);
}

#[test]
fn knot_alias_shares_an_entry() {
    let mut env = TypeEnv::new();
    env.register(1, list_type());
    let mut b = IDLBuilder::with_registry(env);
    b.arg(&list_type(), &Value::Opt(None)).unwrap();
    b.arg(&Type::Knot(1), &Value::Opt(None)).unwrap();
    let out = b.to_vec().unwrap();
    assert_eq!(out[4], 2);
    assert_eq!(&out[out.len() - 5..], &[2, 0, 0, 0, 0]);
}

#[test]
fn primitive_arguments_have_no_entries() {
    let mut b = IDLBuilder::new();
    b.arg(&Type::Bool, &Value::Bool(true)).unwrap();
    b.arg(&Type::Text, &Value::Text("ok".to_string())).unwrap();
    b.arg(&Type::Null, &Value::Null).unwrap();
    let out = b.to_vec().unwrap();
    assert_eq!(out, vec![b'D', b'I', b'D', b'L', 0, 3, 0x7e, 0x71, 0x7f, 1, 2, b'o', b'k']);
}

#[test]
fn empty_session() {
    let b = IDLBuilder::new();
    assert_eq!(b.to_vec().unwrap(), vec![b'D', b'I', b'D', b'L', 0, 0]);
}

#[test]
fn unresolved_knot_is_an_error() {
    let mut b = IDLBuilder::new();
    let ty = Type::Vec(Box::new(Type::Knot(9)));
    assert_eq!(b.arg(&ty, &Value::Vec(vec![])), Err(Error::UnresolvedRecursiveReference));
}

#[test]
fn serializing_twice_gives_the_same_bytes() {
    let mut b = IDLBuilder::new();
    b.arg(&Type::Opt(Box::new(Type::Int)), &Value::Opt(Some(Box::new(Value::Int(-3))))).unwrap();
    let first = b.to_vec().unwrap();
    let second = b.serialize_to_vec().unwrap();
    assert_eq!(first, second);
}

#[test]
fn registry_keeps_first_type() {
    let mut env = TypeEnv::new();
    env.register(3, Type::Vec(Box::new(Type::Nat)));
    env.register(3, Type::Opt(Box::new(Type::Nat)));
    let mut b = IDLBuilder::with_registry(env);
    b.arg(&Type::Vec(Box::new(Type::Nat)), &Value::Vec(vec![])).unwrap();
    b.arg(&Type::Knot(3), &Value::Vec(vec![])).unwrap();
    let out = b.to_vec().unwrap();
    assert_eq!(out, vec![b'D', b'I', b'D', b'L', 1, 0x6d, 0x7d, 2, 0, 0, 0, 0]);
}

#[test]
fn record_constructor_sorts_by_hash() {
    let declared = vec![Field::named("name".to_string(), Type::Text), Field::named("age".to_string(), Type::Nat)];
    let t = Type::record(declared).unwrap();
    match t {
        Type::Record(fs) => {
            assert_eq!(fs.len(), 2);
            assert_eq!(fs[0].id, "age");
            assert_eq!(fs[0].hash, 4846783);
            assert_eq!(fs[1].id, "name");
        }
        _ => panic!("not a record"),
    }
}

#[test]
fn field_order_does_not_change_the_encoding() {
    let a = Type::record(vec![
        Field::named("x".to_string(), Type::Nat),
        Field::named("y".to_string(), Type::Int),
        Field::named("z".to_string(), Type::Bool),
    ])
    .unwrap();
    let b = Type::record(vec![
        Field::named("z".to_string(), Type::Bool),
        Field::named("x".to_string(), Type::Nat),
        Field::named("y".to_string(), Type::Int),
    ])
    .unwrap();
    let v = Value::Record(vec![Value::Nat(1), Value::Int(2), Value::Bool(true)]);
    assert_eq!(to_vec(&a, &v).unwrap(), to_vec(&b, &v).unwrap());
}

#[test]
fn duplicate_field_hash_is_rejected() {
    let fs = vec![Field::named("a".to_string(), Type::Nat), Field::named("a".to_string(), Type::Text)];
    assert!(matches!(Type::record(fs), Err(Error::DuplicateFieldHash)));
    let cs = vec![Field::named("b".to_string(), Type::Null), Field::named("b".to_string(), Type::Null)];
    assert!(matches!(Type::variant(cs), Err(Error::DuplicateFieldHash)));
}

#[test]
fn variant_constructor_picks_sorted_index() {
    let t = Type::variant(vec![
        Field::named("Red".to_string(), Type::Null),
        Field::named("Green".to_string(), Type::Null),
        Field::named("Blue".to_string(), Type::Record(vec![Field::positional(0, Type::Nat)])),
    ])
    .unwrap();
    let names: Vec<String> = match &t {
        Type::Variant(fs) => fs.iter().map(|f| f.id.clone()).collect(),
        _ => panic!("not a variant"),
    };
    let mut by_hash = vec!["Red", "Green", "Blue"];
    by_hash.sort_by_key(|n| idl_hash(n));
    assert_eq!(names, by_hash);
    let idx = names.iter().position(|n| n == "Blue").unwrap() as u64;
    assert_eq!(case_index(&t, "Blue"), Some(idx));
    assert_eq!(case_index(&t, "Purple"), None);
    let out = to_vec(&t, &Value::Variant(idx, vec![Value::Nat(9)])).unwrap();
    let mut tail = uleb(idx);
    tail.push(9);
    assert_eq!(&out[out.len() - tail.len()..], &tail[..]);
}

#[test]
fn positional_hash_matches_decimal_name() {
    for i in 0u32..300 {
        assert_eq!(positional_hash(i), idl_hash(&i.to_string()));
    }
    assert_eq!(positional_hash(4294967295), idl_hash("4294967295"));
    assert_eq!(positional_hash(12), 49 * 223 + 50);
    let f = Field::positional(3, Type::Nat);
    assert_eq!(f.id, "3");
    assert_eq!(f.hash, 51);
}

#[test]
fn compound_writes_children_in_order() {
    let mut s = ValueSerializer::new();
    s.serialize_vec(2);
    let mut c = Compound::new(s);
    c.serialize_element(&Value::Nat(300));
    c.serialize_element(&Value::Text("a".to_string()));
    let s = c.end();
    assert_eq!(s.bytes().clone(), vec![2, 0xac, 0x02, 1, b'a']);
}

#[test]
fn option_and_variant_headers() {
    let mut s = ValueSerializer::new();
    s.serialize_none();
    s.serialize_some();
    s.serialize_nat(5);
    s.serialize_variant(2);
    s.serialize_struct();
    assert_eq!(s.bytes().clone(), vec![0, 1, 5, 2]);
}

#[test]
fn case_index_follows_hash_order() {
    let t = Type::variant(vec![
        Field::named("C".to_string(), Type::Null),
        Field::named("B".to_string(), Type::Null),
        Field::named("A".to_string(), Type::Null),
    ])
    .unwrap();
    assert_eq!(case_index(&t, "A"), Some(0));
    assert_eq!(case_index(&t, "B"), Some(1));
    assert_eq!(case_index(&t, "C"), Some(2));
    assert_eq!(case_index(&Type::Nat, "A"), None);
    let out = to_vec(&t, &Value::Variant(0, vec![])).unwrap();
    assert_eq!(
        out,
        vec![0x44, 0x49, 0x44, 0x4C, 0x01, 0x6B, 0x03, 0x41, 0x7F, 0x42, 0x7F, 0x43, 0x7F, 0x01, 0x00, 0x00]
    );
}

#[test]
fn record_scenario_exact_bytes() {
    let t = Type::record(vec![
        Field::named("name".to_string(), Type::Text),
        Field::named("age".to_string(), Type::Nat),
    ])
    .unwrap();
    let mut b = IDLBuilder::new();
    b.arg(&t, &Value::Record(vec![Value::Nat(7), Value::Text("x".to_string())])).unwrap();
    assert_eq!(
        b.serialize_to_vec().unwrap(),
        vec![
            0x44, 0x49, 0x44, 0x4C, 0x01, 0x6C, 0x02, 0xBF, 0xE9, 0xA7, 0x02, 0x7D, 0xCB, 0xE4, 0xFD,
            0xC7, 0x04, 0x71, 0x01, 0x00, 0x07, 0x01, 0x78
        ]
    );
}

#[test]
fn unsorted_fields_are_rejected() {
    let t = Type::Record(vec![field("name", Type::Text), field("age", Type::Nat)]);
    let v = Value::Record(vec![Value::Text("x".to_string()), Value::Nat(7)]);
    assert_eq!(to_vec(&t, &v), Err(Error::UnsortedFields));
}

#[test]
fn value_that_does_not_fit_is_refused() {
    let mut b = IDLBuilder::new();
    let t = Type::Opt(Box::new(Type::Nat));
    assert_eq!(b.arg(&t, &Value::Text("no".to_string())), Err(Error::ValueMismatch));
    assert_eq!(b.to_vec().unwrap(), vec![b'D', b'I', b'D', b'L', 0, 0]);
    let r = Type::record(vec![Field::named("a".to_string(), Type::Nat)]).unwrap();
    assert_eq!(b.arg(&r, &Value::Record(vec![])), Err(Error::ValueMismatch));
    let v = Type::variant(vec![Field::named("a".to_string(), Type::Null)]).unwrap();
    assert_eq!(b.arg(&v, &Value::Variant(1, vec![])), Err(Error::ValueMismatch));
    b.arg(&t, &Value::Opt(None)).unwrap();
    assert_eq!(b.to_vec().unwrap(), vec![b'D', b'I', b'D', b'L', 1, 0x6e, 0x7d, 1, 0, 0]);
}

#[test]
fn failed_argument_poisons_the_session() {
    let mut env = TypeEnv::new();
    env.register(4, Type::Vec(Box::new(Type::Nat)));
    let mut b = IDLBuilder::with_registry(env);
    let t = Type::Opt(Box::new(Type::Knot(4)));
    assert_eq!(b.arg(&t, &Value::Opt(None)), Err(Error::UnresolvedRecursiveReference));
    assert_eq!(b.to_vec(), Err(Error::UnresolvedRecursiveReference));
    assert_eq!(b.arg(&Type::Nat, &Value::Nat(1)), Err(Error::UnresolvedRecursiveReference));
}

#[test]
fn optional_of_vector_entries() {
    let t = Type::Opt(Box::new(Type::Vec(Box::new(Type::Bool))));
    let out = to_vec(&t, &Value::Opt(Some(Box::new(Value::Vec(vec![Value::Bool(true)]))))).unwrap();
    assert_eq!(out, vec![b'D', b'I', b'D', b'L', 2, 0x6e, 1, 0x6d, 0x7e, 1, 0, 1, 1, 1]);
}

#[test]
fn recursive_list_table_does_not_depend_on_length() {
    let encode = |n: u64| {
        let mut env = TypeEnv::new();
        env.register(1, list_type());
        let mut value = Value::Opt(None);
        for h in 0..n {
            value = Value::Opt(Some(Box::new(Value::Record(vec![Value::Nat(h), value]))));
        }
        let mut b = IDLBuilder::with_registry(env);
        b.arg(&list_type(), &value).unwrap();
        b.to_vec().unwrap()
    };
    let one = encode(1);
    let many = encode(50);
    let k = one.len() - 3;
    assert_eq!(&one[k..], &[1, 0, 0]);
    assert_eq!(&many[..k], &one[..k]);
    assert_eq!(many.len(), k + 50 * 2 + 1);
    assert_eq!(&many[k..k + 4], &[1, 49, 1, 48]);
}

#[test]
fn two_sessions_agree() {
    let make = || {
        let mut b = IDLBuilder::new();
        b.arg(&Type::Vec(Box::new(Type::Text)), &Value::Vec(vec![Value::Text("a".to_string())])).unwrap();
        b.arg(&Type::Int, &Value::Int(-200)).unwrap();
        b.serialize_to_vec().unwrap()
    };
    assert_eq!(make(), make());
}

#[test]
fn single_bool_message() {
    assert_eq!(
        to_vec(&Type::Bool, &Value::Bool(true)).unwrap(),
        vec![0x44, 0x49, 0x44, 0x4C, 0x00, 0x01, 0x7E, 0x01]
    );
}

#[test]
fn optional_of_vector_builds_child_after_parent() {
    let t = Type::Opt(Box::new(Type::Vec(Box::new(Type::Bool))));
    let out = to_vec(&t, &Value::Opt(None)).unwrap();
    assert_eq!(&out[4..10], &[2, 0x6e, 1, 0x6d, 0x7e, 1]);
}
