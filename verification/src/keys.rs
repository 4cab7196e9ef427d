//! Store keys: how a path becomes a key, and the order in which keys are
//! iterated.

use vstd::prelude::*;
use vstd::string::StringSliceAdditionalSpecFns;
use vstd::utf8::{encode_utf8, encode_utf8_decode_utf8};

verus! {

/// Strict lexicographic order on byte strings. A proper prefix sorts before
/// every string that extends it.
pub open spec fn bytes_lt(a: Seq<u8>, b: Seq<u8>) -> bool
    decreases a.len(),
{
    if b.len() == 0 {
        false
    } else if a.len() == 0 {
        true
    } else if a[0] != b[0] {
        a[0] < b[0]
    } else {
        bytes_lt(a.drop_first(), b.drop_first())
    }
}

/// The order of keys: the byte order of their UTF-8 encodings.
pub open spec fn key_lt(a: Seq<char>, b: Seq<char>) -> bool {
    bytes_lt(encode_utf8(a), encode_utf8(b))
}

/// `a` sorts before `b` or is `b`.
pub open spec fn key_le(a: Seq<char>, b: Seq<char>) -> bool {
    a == b || key_lt(a, b)
}

/// The key under which the record of `path` is stored: the path with every
/// separator `/` replaced by the NUL character.
pub open spec fn db_key(path: Seq<char>) -> Seq<char> {
    path.map_values(|c: char| if c == '/' { '\0' } else { c })
}

/// Two paths that hold no NUL character and have the same key are the same
/// path.
pub proof fn lemma_db_key_injective(a: Seq<char>, b: Seq<char>)
    requires
        !a.contains('\0'),
        !b.contains('\0'),
        db_key(a) == db_key(b),
    ensures
        a == b,
{
    assert(a.len() == db_key(a).len());
    assert(b.len() == db_key(b).len());
    assert forall|i: int| 0 <= i < a.len() implies a[i] == b[i] by {
        assert(db_key(a)[i] == db_key(b)[i]);
        assert(db_key(a)[i] == if a[i] == '/' { '\0' } else { a[i] });
        assert(db_key(b)[i] == if b[i] == '/' { '\0' } else { b[i] });
        assert(a.contains(a[i]));
        assert(b.contains(b[i]));
    }
    assert(a =~= b);
}

/// No byte string sorts before itself.
pub proof fn lemma_bytes_lt_irreflexive(a: Seq<u8>)
    ensures
        !bytes_lt(a, a),
    decreases a.len(),
{
    if a.len() > 0 {
        lemma_bytes_lt_irreflexive(a.drop_first());
    }
}

/// The order of byte strings is transitive.
pub proof fn lemma_bytes_lt_transitive(a: Seq<u8>, b: Seq<u8>, c: Seq<u8>)
    requires
        bytes_lt(a, b),
        bytes_lt(b, c),
    ensures
        bytes_lt(a, c),
    decreases a.len(),
{
    if a.len() > 0 && a[0] == b[0] && b[0] == c[0] {
        lemma_bytes_lt_transitive(a.drop_first(), b.drop_first(), c.drop_first());
    }
}

/// Of two byte strings, one sorts before the other or they are the same.
pub proof fn lemma_bytes_lt_total(a: Seq<u8>, b: Seq<u8>)
    ensures
        bytes_lt(a, b) || a == b || bytes_lt(b, a),
    decreases a.len(),
{
    if a.len() == 0 || b.len() == 0 {
        if a.len() == 0 && b.len() == 0 {
            assert(a =~= b);
        }
    } else if a[0] == b[0] {
        lemma_bytes_lt_total(a.drop_first(), b.drop_first());
        if a.drop_first() == b.drop_first() {
            assert(a =~= seq![a[0]] + a.drop_first());
            assert(b =~= seq![b[0]] + b.drop_first());
        }
    }
}

/// Two byte strings that agree on their first `n` bytes compare as their
/// remainders do.
pub proof fn lemma_bytes_lt_common_prefix(a: Seq<u8>, b: Seq<u8>, n: int)
    requires
        0 <= n <= a.len(),
        n <= b.len(),
        a.take(n) == b.take(n),
    ensures
        bytes_lt(a, b) == bytes_lt(a.skip(n), b.skip(n)),
    decreases n,
{
    if n == 0 {
        assert(a.skip(0) =~= a);
        assert(b.skip(0) =~= b);
    } else {
        assert(a[0] == a.take(n)[0]);
        assert(b[0] == b.take(n)[0]);
        assert(a.drop_first().take(n - 1) =~= a.take(n).drop_first());
        assert(b.drop_first().take(n - 1) =~= b.take(n).drop_first());
        lemma_bytes_lt_common_prefix(a.drop_first(), b.drop_first(), n - 1);
        assert(a.drop_first().skip(n - 1) =~= a.skip(n));
        assert(b.drop_first().skip(n - 1) =~= b.skip(n));
    }
}

/// No key sorts before itself.
pub proof fn lemma_key_lt_irreflexive(a: Seq<char>)
    ensures
        !key_lt(a, a),
{
    lemma_bytes_lt_irreflexive(encode_utf8(a));
}

/// The key order is transitive.
pub proof fn lemma_key_lt_transitive(a: Seq<char>, b: Seq<char>, c: Seq<char>)
    requires
        key_lt(a, b),
        key_lt(b, c),
    ensures
        key_lt(a, c),
{
    lemma_bytes_lt_transitive(encode_utf8(a), encode_utf8(b), encode_utf8(c));
}

/// Two keys never sort before each other.
pub proof fn lemma_key_lt_asymmetric(a: Seq<char>, b: Seq<char>)
    requires
        key_lt(a, b),
    ensures
        !key_lt(b, a),
        a != b,
{
    if key_lt(b, a) {
        lemma_key_lt_transitive(a, b, a);
    }
    lemma_key_lt_irreflexive(a);
}

/// Of two keys, one sorts before the other or they are the same key.
pub proof fn lemma_key_lt_total(a: Seq<char>, b: Seq<char>)
    ensures
        key_lt(a, b) || a == b || key_lt(b, a),
{
    lemma_bytes_lt_total(encode_utf8(a), encode_utf8(b));
    if encode_utf8(a) == encode_utf8(b) {
        encode_utf8_decode_utf8(a);
        encode_utf8_decode_utf8(b);
    }
}

/// Exactly one of three holds of two keys: the first sorts before the second,
/// they are the same key, or the second sorts before the first.
pub proof fn lemma_key_order_exclusive(a: Seq<char>, b: Seq<char>)
    ensures
        key_lt(a, b) || a == b || key_lt(b, a),
        key_lt(a, b) ==> a != b && !key_lt(b, a),
        key_lt(b, a) ==> a != b,
{
    lemma_key_lt_total(a, b);
    if key_lt(a, b) {
        lemma_key_lt_asymmetric(a, b);
    }
    if key_lt(b, a) {
        lemma_key_lt_asymmetric(b, a);
    }
}

/// How one key stands to another in the key order.
#[derive(Clone, Copy, Debug, PartialEq, Eq, Structural)]
pub enum KeyOrder {
    Less,
    Equal,
    Greater,
}

/// Compares two keys in the key order.
pub fn compare_keys(a: &str, b: &str) -> (order: KeyOrder)
    ensures
        order == KeyOrder::Less <==> key_lt(a@, b@),
        order == KeyOrder::Equal <==> a@ == b@,
        order == KeyOrder::Greater <==> key_lt(b@, a@),
{
    let x = a.as_bytes();
    let y = b.as_bytes();
    let n: usize = if x.len() < y.len() { x.len() } else { y.len() };
    let mut i: usize = 0;
    proof {
        lemma_key_order_exclusive(a@, b@);
    }
    while i < n
        invariant
            i <= n,
            x@ == encode_utf8(a@),
            y@ == encode_utf8(b@),
            key_lt(a@, b@) ==> a@ != b@ && !key_lt(b@, a@),
            key_lt(b@, a@) ==> a@ != b@,
            n <= x@.len(),
            n <= y@.len(),
            n == x@.len() || n == y@.len(),
            x@.take(i as int) == y@.take(i as int),
        decreases n - i,
    {
        if x[i] != y[i] {
            proof {
                lemma_bytes_lt_common_prefix(x@, y@, i as int);
                lemma_bytes_lt_common_prefix(y@, x@, i as int);
                assert(x@.skip(i as int)[0] == x@[i as int]);
                assert(y@.skip(i as int)[0] == y@[i as int]);
            }
            if x[i] < y[i] {
                return KeyOrder::Less;
            } else {
                return KeyOrder::Greater;
            }
        }
        proof {
            assert(x@.take(i + 1) =~= x@.take(i as int).push(x@[i as int]));
            assert(y@.take(i + 1) =~= y@.take(i as int).push(y@[i as int]));
        }
        i += 1;
    }
    proof {
        lemma_bytes_lt_common_prefix(x@, y@, n as int);
        lemma_bytes_lt_common_prefix(y@, x@, n as int);
        if x@.len() == y@.len() {
            assert(x@.take(n as int) =~= x@);
            assert(y@.take(n as int) =~= y@);
        }
    }
    if x.len() < y.len() {
        KeyOrder::Less
    } else if x.len() > y.len() {
        KeyOrder::Greater
    } else {
        KeyOrder::Equal
    }
}

/// `String::push` of std: appends the character `c` to the end of `s` and
/// leaves the characters before it as they were.
#[verifier::external_body]
fn push_char(s: &mut String, c: char)
    ensures
        final(s)@ == old(s)@.push(c),
{
    s.push(c)
}

/// Computes the key under which the record of `path` is stored.
pub fn db_key_for_path(path: &str) -> (key: String)
    ensures
        key@ == db_key(path@),
{
    broadcast use vstd::string::group_string_axioms;

    let mut key = String::new();
    for c in it: path.chars()
        invariant
            it.seq() == path@,
            key@ == db_key(path@.take(it.index())),
    {
        assert(path@.take(it.index() + 1) =~= path@.take(it.index()).push(c));
        push_char(&mut key, if c == '/' { '\0' } else { c });
        assert(key@ =~= db_key(path@.take(it.index() + 1)));
    }
    assert(path@.take(path@.len() as int) =~= path@);
    key
}

} // verus!
