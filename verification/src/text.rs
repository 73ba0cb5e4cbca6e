//! Comparing text by its UTF-8 bytes.

use vstd::prelude::*;
use vstd::utf8::{encode_utf8, encode_utf8_decode_utf8};

verus! {

/// The views of a sequence of string slices.
pub open spec fn texts_of(v: Seq<&str>) -> Seq<Seq<char>> {
    Seq::new(v.len(), |i: int| v[i]@)
}

/// The views of a sequence of strings.
pub open spec fn names_of(v: Seq<String>) -> Seq<Seq<char>> {
    Seq::new(v.len(), |i: int| v[i]@)
}

/// `String::push` of std: the character is appended to the end of the
/// string.
pub assume_specification[ String::push ](s: &mut String, c: char)
    ensures
        final(s)@ == old(s)@.push(c),
;

/// `a` and `b` agree in their first `n` bytes.
pub open spec fn common_prefix(a: Seq<u8>, b: Seq<u8>, n: int) -> bool {
    &&& 0 <= n <= a.len()
    &&& n <= b.len()
    &&& forall|j: int| 0 <= j < n ==> a[j] == b[j]
}

/// `a` comes before `b` byte by byte: at the first place where they differ
/// `a` has the smaller byte, or `a` ends there and `b` goes on.
pub open spec fn bytes_lt(a: Seq<u8>, b: Seq<u8>) -> bool {
    exists|n: int|
        #[trigger] common_prefix(a, b, n) && n < b.len() && (n == a.len() || a[n] < b[n])
}

/// The order of tag names: that of their UTF-8 bytes.
pub open spec fn name_lt(a: Seq<char>, b: Seq<char>) -> bool {
    bytes_lt(encode_utf8(a), encode_utf8(b))
}

/// Every name comes before all that follow it.
pub open spec fn ascending(names: Seq<Seq<char>>) -> bool {
    forall|i: int, j: int|
        0 <= i < j < names.len() ==> name_lt(#[trigger] names[i], #[trigger] names[j])
}

/// Texts with the same UTF-8 bytes are the same text.
pub proof fn lemma_encoding_injective(a: Seq<char>, b: Seq<char>)
    requires
        encode_utf8(a) == encode_utf8(b),
    ensures
        a == b,
{
    encode_utf8_decode_utf8(a);
    encode_utf8_decode_utf8(b);
}

/// Whether two string slices hold the same text.
pub fn same_text(a: &str, b: &str) -> (r: bool)
    ensures
        r == (a@ == b@),
{
    let x = a.as_bytes();
    let y = b.as_bytes();
    if x.len() != y.len() {
        return false;
    }
    let mut i: usize = 0;
    while i < x.len()
        invariant
            x.len() == y.len(),
            i <= x.len(),
            x@ == encode_utf8(a@),
            y@ == encode_utf8(b@),
            forall|j: int| 0 <= j < i ==> x@[j] == y@[j],
        decreases x.len() - i,
    {
        if x[i] != y[i] {
            return false;
        }
        i += 1;
    }
    proof {
        assert(x@ =~= y@);
        lemma_encoding_injective(a@, b@);
    }
    true
}

/// How two texts stand to each other in the order of their bytes.
pub enum Order {
    Before,
    Same,
    After,
}

/// Compares two string slices byte by byte.
pub fn order_of(a: &str, b: &str) -> (r: Order)
    ensures
        match r {
            Order::Before => name_lt(a@, b@),
            Order::Same => a@ == b@,
            Order::After => name_lt(b@, a@),
        },
{
    let x = a.as_bytes();
    let y = b.as_bytes();
    let mut i: usize = 0;
    while i < x.len() && i < y.len()
        invariant
            i <= x.len(),
            i <= y.len(),
            x@ == encode_utf8(a@),
            y@ == encode_utf8(b@),
            common_prefix(x@, y@, i as int),
        decreases x.len() - i,
    {
        if x[i] < y[i] {
            return Order::Before;
        }
        if y[i] < x[i] {
            assert(common_prefix(y@, x@, i as int));
            return Order::After;
        }
        i += 1;
    }
    if i < y.len() {
        Order::Before
    } else if i < x.len() {
        assert(common_prefix(y@, x@, i as int));
        Order::After
    } else {
        proof {
            assert(x@ =~= y@);
            lemma_encoding_injective(a@, b@);
        }
        Order::Same
    }
}

/// The order of bytes is transitive.
pub proof fn lemma_bytes_lt_transitive(a: Seq<u8>, b: Seq<u8>, c: Seq<u8>)
    requires
        bytes_lt(a, b),
        bytes_lt(b, c),
    ensures
        bytes_lt(a, c),
{
    let n = choose|n: int|
        #[trigger] common_prefix(a, b, n) && n < b.len() && (n == a.len() || a[n] < b[n]);
    let m = choose|m: int|
        #[trigger] common_prefix(b, c, m) && m < c.len() && (m == b.len() || b[m] < c[m]);
    let k = if n <= m {
        n
    } else {
        m
    };
    assert(common_prefix(a, c, k));
}

/// Nothing comes before itself in the order of bytes.
pub proof fn lemma_bytes_lt_irreflexive(a: Seq<u8>)
    ensures
        !bytes_lt(a, a),
{
}

/// There is one way only to put names in ascending order: two ascending
/// sequences that hold the same names are the same sequence.
pub proof fn lemma_ascending_unique(a: Seq<Seq<char>>, b: Seq<Seq<char>>)
    requires
        ascending(a),
        ascending(b),
        a.to_multiset() == b.to_multiset(),
    ensures
        a == b,
    decreases a.len(),
{
    broadcast use vstd::seq_lib::group_to_multiset_ensures;

    vstd::seq_lib::to_multiset_len(a);
    vstd::seq_lib::to_multiset_len(b);
    if a.len() > 0 {
        assert(a.to_multiset().count(a[0]) > 0);
        let j = choose|j: int| 0 <= j < b.len() && b[j] == a[0];
        assert(b.to_multiset().count(b[0]) > 0);
        let i = choose|i: int| 0 <= i < a.len() && a[i] == b[0];
        if i > 0 && j > 0 {
            lemma_bytes_lt_transitive(encode_utf8(a[0]), encode_utf8(b[0]), encode_utf8(a[0]));
            lemma_bytes_lt_irreflexive(encode_utf8(a[0]));
        }
        let x = a.remove(0);
        let y = b.remove(0);
        lemma_ascending_unique(x, y);
        assert(b =~= seq![b[0]] + y);
    }
}

} // verus!
