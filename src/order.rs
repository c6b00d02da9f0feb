//! A total, content-based order on names: bytewise lexicographic order of
//! their UTF-8 encoding.
use vstd::prelude::*;
use vstd::utf8::*;

verus! {

/// Lexicographic comparison of `a` and `b` from position `i` on.
pub open spec fn bytes_lt_from(a: Seq<u8>, b: Seq<u8>, i: int) -> bool
    decreases a.len() - i,
{
    if i < 0 || i >= a.len() {
        0 <= i < b.len()
    } else if i >= b.len() {
        false
    } else if a[i] < b[i] {
        true
    } else if a[i] > b[i] {
        false
    } else {
        bytes_lt_from(a, b, i + 1)
    }
}

pub open spec fn bytes_lt(a: Seq<u8>, b: Seq<u8>) -> bool {
    bytes_lt_from(a, b, 0)
}

/// The strict order on names.
pub open spec fn name_lt(a: Seq<char>, b: Seq<char>) -> bool {
    bytes_lt(encode_utf8(a), encode_utf8(b))
}

proof fn lemma_bytes_lt_from_irreflexive(a: Seq<u8>, i: int)
    requires
        0 <= i,
    ensures
        !bytes_lt_from(a, a, i),
    decreases a.len() - i,
{
    if i < a.len() {
        lemma_bytes_lt_from_irreflexive(a, i + 1);
    }
}

proof fn lemma_bytes_lt_from_transitive(a: Seq<u8>, b: Seq<u8>, c: Seq<u8>, i: int)
    requires
        0 <= i,
        bytes_lt_from(a, b, i),
        bytes_lt_from(b, c, i),
    ensures
        bytes_lt_from(a, c, i),
    decreases a.len() - i,
{
    if i < a.len() && i < b.len() && i < c.len() && a[i] == b[i] && b[i] == c[i] {
        lemma_bytes_lt_from_transitive(a, b, c, i + 1);
    }
}

proof fn lemma_bytes_lt_from_total(a: Seq<u8>, b: Seq<u8>, i: int)
    requires
        0 <= i <= a.len(),
        i <= b.len(),
        !bytes_lt_from(a, b, i),
        !bytes_lt_from(b, a, i),
    ensures
        a.len() == b.len(),
        forall|j: int| i <= j < a.len() ==> a[j] == b[j],
    decreases a.len() - i,
{
    if i < a.len() {
        lemma_bytes_lt_from_total(a, b, i + 1);
    }
}

/// Irreflexivity of the order on names.
pub proof fn lemma_name_lt_irreflexive(a: Seq<char>)
    ensures
        !name_lt(a, a),
{
    lemma_bytes_lt_from_irreflexive(encode_utf8(a), 0);
}

/// Transitivity of the order on names.
pub proof fn lemma_name_lt_transitive(a: Seq<char>, b: Seq<char>, c: Seq<char>)
    requires
        name_lt(a, b),
        name_lt(b, c),
    ensures
        name_lt(a, c),
{
    lemma_bytes_lt_from_transitive(encode_utf8(a), encode_utf8(b), encode_utf8(c), 0);
}

/// Any two distinct names are ordered one way or the other.
pub proof fn lemma_name_lt_total(a: Seq<char>, b: Seq<char>)
    ensures
        a == b || name_lt(a, b) || name_lt(b, a),
{
    let ea = encode_utf8(a);
    let eb = encode_utf8(b);
    if !name_lt(a, b) && !name_lt(b, a) {
        lemma_bytes_lt_from_total(ea, eb, 0);
        assert(ea =~= eb);
        encode_utf8_decode_utf8(a);
        encode_utf8_decode_utf8(b);
    }
}

/// Compares two names: negative when `a` comes first, zero when they are
/// equal, positive when `b` comes first.
pub fn compare_names(a: &str, b: &str) -> (r: i8)
    ensures
        (r < 0) == name_lt(a@, b@),
        (r == 0) == (a@ == b@),
        (r > 0) == name_lt(b@, a@),
{
    let x = a.as_bytes();
    let y = b.as_bytes();
    proof {
        lemma_name_lt_irreflexive(a@);
        lemma_name_lt_total(a@, b@);
    }
    let mut i: usize = 0;
    while i < x.len() && i < y.len()
        invariant
            x@ == encode_utf8(a@),
            y@ == encode_utf8(b@),
            i <= x@.len(),
            i <= y@.len(),
            forall|j: int| 0 <= j < i ==> x@[j] == y@[j],
            bytes_lt_from(x@, y@, 0) == bytes_lt_from(x@, y@, i as int),
            bytes_lt_from(y@, x@, 0) == bytes_lt_from(y@, x@, i as int),
        decreases x.len() - i,
    {
        if x[i] < y[i] {
            return -1;
        } else if x[i] > y[i] {
            return 1;
        }
        i = i + 1;
    }
    if x.len() < y.len() {
        -1
    } else if x.len() > y.len() {
        1
    } else {
        assert(x@ =~= y@);
        proof {
            encode_utf8_decode_utf8(a@);
            encode_utf8_decode_utf8(b@);
        }
        0
    }
}

} // verus!
