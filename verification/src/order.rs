use vstd::prelude::*;
use vstd::utf8::{encode_utf8, encode_utf8_decode_utf8};

verus! {

/// Lexicographic order on byte strings: `a` comes no later than `b`.
/// A proper prefix comes before the longer string.
pub open spec fn bytes_le(a: Seq<u8>, b: Seq<u8>) -> bool
    decreases a.len(),
{
    if a.len() == 0 {
        true
    } else if b.len() == 0 {
        false
    } else if a[0] != b[0] {
        a[0] < b[0]
    } else {
        bytes_le(a.drop_first(), b.drop_first())
    }
}

/// Order of ids: byte-wise on their UTF-8 encoding, which is the order of
/// `String`'s `Ord`.
pub open spec fn id_le(a: Seq<char>, b: Seq<char>) -> bool {
    bytes_le(encode_utf8(a), encode_utf8(b))
}

/// Any two byte strings are comparable.
pub proof fn lemma_bytes_le_total(a: Seq<u8>, b: Seq<u8>)
    ensures
        bytes_le(a, b) || bytes_le(b, a),
    decreases a.len(),
{
    if a.len() > 0 && b.len() > 0 && a[0] == b[0] {
        lemma_bytes_le_total(a.drop_first(), b.drop_first());
    }
}

/// The byte order is transitive.
pub proof fn lemma_bytes_le_transitive(a: Seq<u8>, b: Seq<u8>, c: Seq<u8>)
    requires
        bytes_le(a, b),
        bytes_le(b, c),
    ensures
        bytes_le(a, c),
    decreases a.len(),
{
    if a.len() > 0 && b.len() > 0 && c.len() > 0 && a[0] == b[0] && b[0] == c[0] {
        lemma_bytes_le_transitive(a.drop_first(), b.drop_first(), c.drop_first());
    }
}

/// Any two ids are comparable.
pub proof fn lemma_id_le_total(a: Seq<char>, b: Seq<char>)
    ensures
        id_le(a, b) || id_le(b, a),
{
    lemma_bytes_le_total(encode_utf8(a), encode_utf8(b));
}

/// The id order is transitive.
pub proof fn lemma_id_le_transitive(a: Seq<char>, b: Seq<char>, c: Seq<char>)
    requires
        id_le(a, b),
        id_le(b, c),
    ensures
        id_le(a, c),
{
    lemma_bytes_le_transitive(encode_utf8(a), encode_utf8(b), encode_utf8(c));
}

/// Byte strings that each sort no later than the other are equal.
pub proof fn lemma_bytes_le_antisymmetric(a: Seq<u8>, b: Seq<u8>)
    requires
        bytes_le(a, b),
        bytes_le(b, a),
    ensures
        a == b,
    decreases a.len(),
{
    if a.len() > 0 && b.len() > 0 {
        lemma_bytes_le_antisymmetric(a.drop_first(), b.drop_first());
        assert(a =~= seq![a[0]] + a.drop_first());
        assert(b =~= seq![b[0]] + b.drop_first());
    }
}

/// Ids that each sort no later than the other are equal.
pub proof fn lemma_id_le_antisymmetric(a: Seq<char>, b: Seq<char>)
    requires
        id_le(a, b),
        id_le(b, a),
    ensures
        a == b,
{
    lemma_bytes_le_antisymmetric(encode_utf8(a), encode_utf8(b));
    encode_utf8_decode_utf8(a);
    encode_utf8_decode_utf8(b);
}

/// Whether id `a` sorts no later than id `b` (byte-wise, as `String` orders).
pub fn id_le_exec(a: &String, b: &String) -> (r: bool)
    ensures
        r == id_le(a@, b@),
{
    let x = a.as_str().as_bytes();
    let y = b.as_str().as_bytes();
    let mut i: usize = 0;
    assert(x@.skip(0) == x@);
    assert(y@.skip(0) == y@);
    while i < x.len() && i < y.len()
        invariant
            i <= x@.len(),
            i <= y@.len(),
            x@ == encode_utf8(a@),
            y@ == encode_utf8(b@),
            bytes_le(x@, y@) == bytes_le(x@.skip(i as int), y@.skip(i as int)),
        decreases x@.len() - i,
    {
        if x[i] != y[i] {
            return x[i] < y[i];
        }
        assert(x@.skip(i as int).drop_first() == x@.skip(i + 1));
        assert(y@.skip(i as int).drop_first() == y@.skip(i + 1));
        i = i + 1;
    }
    i == x.len()
}

/// The byte order in plain terms: `a` comes no later than `b` exactly when
/// `a` is a prefix of `b`, or at the first place where they differ `a` has
/// the smaller byte.
pub proof fn law_bytes_le_is_lexicographic(a: Seq<u8>, b: Seq<u8>)
    ensures
        bytes_le(a, b) <==> (a.len() <= b.len() && a =~= b.take(a.len() as int)) || exists|i: int|
            0 <= i < a.len() && i < b.len() && a.take(i) =~= b.take(i) && a[i] < b[i],
    decreases a.len(),
{
    if a.len() == 0 {
        assert(a =~= b.take(0));
    } else if b.len() == 0 {
    } else if a[0] != b[0] {
        if a[0] < b[0] {
            assert(a.take(0) =~= b.take(0));
        } else {
            assert forall|i: int| 0 <= i < a.len() && i < b.len() && a.take(i) =~= b.take(i) implies !(a[i] < b[i]) by {
                if i > 0 {
                    assert(a.take(i)[0] == b.take(i)[0]);
                }
            }
            if a.len() <= b.len() && a =~= b.take(a.len() as int) {
                assert(a[0] == b.take(a.len() as int)[0]);
            }
        }
    } else {
        let (a1, b1) = (a.drop_first(), b.drop_first());
        law_bytes_le_is_lexicographic(a1, b1);
        if a1.len() <= b1.len() && a1 =~= b1.take(a1.len() as int) {
            assert(a =~= b.take(a.len() as int)) by {
                assert forall|t: int| 0 <= t < a.len() implies a[t] == b.take(a.len() as int)[t] by {
                    if t > 0 {
                        assert(a[t] == a1[t - 1]);
                        assert(b1.take(a1.len() as int)[t - 1] == b[t]);
                    }
                }
            }
        }
        if a.len() <= b.len() && a =~= b.take(a.len() as int) {
            assert(a1 =~= b1.take(a1.len() as int)) by {
                assert forall|t: int| 0 <= t < a1.len() implies a1[t] == b1.take(a1.len() as int)[t] by {
                    assert(a[t + 1] == b.take(a.len() as int)[t + 1]);
                }
            }
        }
        if exists|i: int| 0 <= i < a1.len() && i < b1.len() && a1.take(i) =~= b1.take(i) && a1[i] < b1[i] {
            let i = choose|i: int| 0 <= i < a1.len() && i < b1.len() && a1.take(i) =~= b1.take(i) && a1[i] < b1[i];
            let (ta, tb) = (a.take(i + 1), b.take(i + 1));
            assert(ta =~= tb) by {
                assert forall|t: int| 0 <= t < i + 1 implies #[trigger] ta[t] == tb[t] by {
                    if t > 0 {
                        assert(a1.take(i)[t - 1] == b1.take(i)[t - 1]);
                    }
                }
            }
            assert(a[i + 1] < b[i + 1]);
        }
        if exists|i: int| 0 <= i < a.len() && i < b.len() && a.take(i) =~= b.take(i) && a[i] < b[i] {
            let i = choose|i: int| 0 <= i < a.len() && i < b.len() && a.take(i) =~= b.take(i) && a[i] < b[i];
            assert(i > 0);
            let (ua, ub) = (a1.take(i - 1), b1.take(i - 1));
            assert(ua =~= ub) by {
                assert forall|t: int| 0 <= t < i - 1 implies #[trigger] ua[t] == ub[t] by {
                    assert(a.take(i)[t + 1] == b.take(i)[t + 1]);
                }
            }
            assert(a1[i - 1] < b1[i - 1]);
        }
    }
}

} // verus!
