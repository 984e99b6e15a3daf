//! Keys and their order.
//!
//! A key is a UTF-8 string. Everywhere in the index keys are ordered as
//! their bytes are: byte by byte, a proper prefix before its extensions.

use vstd::prelude::*;
use vstd::string::*;
use vstd::utf8::*;

verus! {

/// How one key stands to another in the byte order.
#[derive(Debug, Clone, Copy, PartialEq, Eq, Structural)]
pub enum KeyOrder {
    Before,
    Same,
    After,
}

/// `a` comes strictly before `b` in the byte order.
pub open spec fn bytes_lt(a: Seq<u8>, b: Seq<u8>) -> bool
    decreases a.len(),
{
    if b.len() == 0 {
        false
    } else if a.len() == 0 {
        true
    } else if a[0] != b[0] {
        a[0] < b[0]
    } else {
        bytes_lt(a.drop_first(), b.drop_first())
    }
}

/// The bytes under which a key is stored and ordered.
pub open spec fn key_bytes(key: Seq<char>) -> Seq<u8> {
    encode_utf8(key)
}

/// Key `a` comes strictly before key `b`.
pub open spec fn key_lt(a: Seq<char>, b: Seq<char>) -> bool {
    bytes_lt(key_bytes(a), key_bytes(b))
}

/// No run of bytes comes before itself.
pub proof fn lemma_bytes_lt_irreflexive(a: Seq<u8>)
    ensures
        !bytes_lt(a, a),
    decreases a.len(),
{
    if a.len() > 0 {
        lemma_bytes_lt_irreflexive(a.drop_first());
    }
}

/// Of two runs of bytes exactly one holds: the first comes before the
/// second, they are equal, or the second comes before the first.
pub proof fn lemma_bytes_lt_trichotomy(a: Seq<u8>, b: Seq<u8>)
    ensures
        bytes_lt(a, b) || a == b || bytes_lt(b, a),
        !(bytes_lt(a, b) && bytes_lt(b, a)),
        !(bytes_lt(a, b) && a == b),
    decreases a.len(),
{
    lemma_bytes_lt_irreflexive(a);
    if a.len() == 0 || b.len() == 0 {
        if a.len() == 0 && b.len() == 0 {
            assert(a =~= b);
        }
    } else if a[0] == b[0] {
        lemma_bytes_lt_trichotomy(a.drop_first(), b.drop_first());
        if a.drop_first() == b.drop_first() {
            assert(a =~= seq![a[0]] + a.drop_first());
            assert(b =~= seq![b[0]] + b.drop_first());
        }
    }
}

/// The byte order is transitive.
pub proof fn lemma_bytes_lt_transitive(a: Seq<u8>, b: Seq<u8>, c: Seq<u8>)
    requires
        bytes_lt(a, b),
        bytes_lt(b, c),
    ensures
        bytes_lt(a, c),
    decreases a.len(),
{
    if a.len() > 0 && a[0] == b[0] && b[0] == c[0] {
        lemma_bytes_lt_transitive(a.drop_first(), b.drop_first(), c.drop_first());
    }
}

/// Two keys with the same bytes are the same key.
pub proof fn lemma_key_bytes_injective(a: Seq<char>, b: Seq<char>)
    requires
        key_bytes(a) == key_bytes(b),
    ensures
        a == b,
{
    encode_utf8_decode_utf8(a);
    encode_utf8_decode_utf8(b);
}

/// Skipping a shared first byte does not change how two runs compare.
proof fn lemma_bytes_lt_step(a: Seq<u8>, b: Seq<u8>, i: int)
    requires
        0 <= i < a.len(),
        i < b.len(),
        a[i] == b[i],
    ensures
        bytes_lt(a.skip(i), b.skip(i)) == bytes_lt(a.skip(i + 1), b.skip(i + 1)),
{
    assert(a.skip(i).drop_first() =~= a.skip(i + 1));
    assert(b.skip(i).drop_first() =~= b.skip(i + 1));
}

/// Compares two runs of bytes in the byte order.
pub fn compare_bytes(a: &[u8], b: &[u8]) -> (order: KeyOrder)
    ensures
        order == KeyOrder::Before <==> bytes_lt(a@, b@),
        order == KeyOrder::Same <==> a@ == b@,
        order == KeyOrder::After <==> bytes_lt(b@, a@),
{
    let mut i: usize = 0;
    proof {
        lemma_bytes_lt_trichotomy(a@, b@);
        assert(a@.skip(0) =~= a@);
        assert(b@.skip(0) =~= b@);
    }
    while i < a.len() && i < b.len()
        invariant
            i <= a@.len(),
            i <= b@.len(),
            a@.take(i as int) == b@.take(i as int),
            bytes_lt(a@, b@) == bytes_lt(a@.skip(i as int), b@.skip(i as int)),
            bytes_lt(b@, a@) == bytes_lt(b@.skip(i as int), a@.skip(i as int)),
        decreases a@.len() - i,
    {
        let x: u8 = a[i];
        let y: u8 = b[i];
        if x != y {
            proof {
                assert(a@.skip(i as int)[0] == x);
                assert(b@.skip(i as int)[0] == y);
                assert(a@ != b@);
            }
            if x < y {
                return KeyOrder::Before;
            } else {
                return KeyOrder::After;
            }
        }
        proof {
            lemma_bytes_lt_step(a@, b@, i as int);
            lemma_bytes_lt_step(b@, a@, i as int);
            assert(a@.take(i + 1) =~= a@.take(i as int).push(x));
            assert(b@.take(i + 1) =~= b@.take(i as int).push(y));
        }
        i = i + 1;
    }
    proof {
        lemma_bytes_lt_trichotomy(a@, b@);
        if i == a@.len() && i == b@.len() {
            assert(a@ =~= a@.take(i as int));
            assert(b@ =~= b@.take(i as int));
        } else {
            assert(a@.len() != b@.len());
        }
    }
    if i < b.len() {
        KeyOrder::Before
    } else if i < a.len() {
        KeyOrder::After
    } else {
        KeyOrder::Same
    }
}

/// Compares two keys by their bytes.
pub fn compare_keys(a: &str, b: &str) -> (order: KeyOrder)
    ensures
        order == KeyOrder::Before <==> key_lt(a@, b@),
        order == KeyOrder::Same <==> a@ == b@,
        order == KeyOrder::After <==> key_lt(b@, a@),
{
    proof {
        if key_bytes(a@) == key_bytes(b@) {
            lemma_key_bytes_injective(a@, b@);
        }
    }
    compare_bytes(a.as_bytes(), b.as_bytes())
}

} // verus!
