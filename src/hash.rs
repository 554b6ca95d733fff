use vstd::prelude::*;
use vstd::string::{axiom_spec_iter, next_postcondition};
use vstd::std_specs::iter::IteratorSpec;

verus! {

broadcast use {axiom_spec_iter, next_postcondition};

/// One step of the field-name hash: `acc * 223 + c`, modulo 2^32.
pub open spec fn hash_step(acc: u32, c: char) -> u32 {
    ((acc as int * 223 + (c as u32) as int) % 0x1_0000_0000) as u32
}

/// The hash of a field or case name, folded over its characters from the left.
pub open spec fn hash_of(s: Seq<char>) -> u32
    decreases s.len(),
{
    if s.len() == 0 {
        0
    } else {
        hash_step(hash_of(s.drop_last()), s.last())
    }
}

/// Hashes a field or variant-case name: starting from 0, each character's
/// scalar value is accumulated as `acc * 223 + c` with wrapping arithmetic.
pub fn idl_hash(id: &str) -> (r: u32)
    ensures
        r == hash_of(id@),
{
    let mut s: u32 = 0;
    let mut it = id.chars();
    let ghost mut done: Seq<char> = Seq::empty();
    loop
        invariant
            it.obeys_prophetic_iter_laws(),
            done + it.remaining() == id@,
            s == hash_of(done),
            it.decrease() is Some,
        decreases it.decrease()->0,
    {
        let ghost before = it.remaining();
        match it.next() {
            None => {
                assert(done =~= id@);
                return s;
            },
            Some(c) => {
                proof {
                    assert(done.push(c).drop_last() =~= done);
                    assert(done.push(c) + before.drop_first() =~= done + before);
                    done = done.push(c);
                }
                let m = s.wrapping_mul(223);
                let t = m.wrapping_add(c as u32);
                proof {
                    vstd::arithmetic::div_mod::lemma_add_mod_noop(
                        s as int * 223,
                        (c as u32) as int,
                        0x1_0000_0000,
                    );
                    assert(t == hash_step(s, c));
                }
                s = t;
            },
        }
    }
}

} // verus!
