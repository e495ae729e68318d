//! The order of names: strings compared by the bytes of their UTF-8 form,
//! which is the order `std` gives to `str` and `String`.

use vstd::prelude::*;
use vstd::string::StringSliceAdditionalSpecFns;

use vstd::utf8::{encode_utf8, encode_utf8_decode_utf8};

verus! {

/// Lexicographic "less than" on byte sequences.
pub open spec fn bytes_lt(a: Seq<u8>, b: Seq<u8>) -> bool
    decreases a.len(),
{
    if b.len() == 0 {
        false
    } else if a.len() == 0 {
        true
    } else if a[0] != b[0] {
        a[0] < b[0]
    } else {
        bytes_lt(a.skip(1), b.skip(1))
    }
}

/// "Less than" on names: the byte order of their UTF-8 forms.
pub open spec fn name_lt(a: Seq<char>, b: Seq<char>) -> bool {
    bytes_lt(encode_utf8(a), encode_utf8(b))
}

/// How two names compare.
#[derive(Clone, Copy, Debug, PartialEq, Eq, Structural)]
pub enum Order {
    Less,
    Equal,
    Greater,
}

pub proof fn lemma_bytes_lt_irreflexive(a: Seq<u8>)
    ensures
        !bytes_lt(a, a),
    decreases a.len(),
{
    if a.len() > 0 {
        lemma_bytes_lt_irreflexive(a.skip(1));
    }
}

pub proof fn lemma_bytes_lt_asymmetric(a: Seq<u8>, b: Seq<u8>)
    requires
        bytes_lt(a, b),
    ensures
        !bytes_lt(b, a),
    decreases a.len(),
{
    if a.len() > 0 && b.len() > 0 && a[0] == b[0] {
        lemma_bytes_lt_asymmetric(a.skip(1), b.skip(1));
    }
}

pub proof fn lemma_bytes_lt_transitive(a: Seq<u8>, b: Seq<u8>, c: Seq<u8>)
    requires
        bytes_lt(a, b),
        bytes_lt(b, c),
    ensures
        bytes_lt(a, c),
    decreases a.len(),
{
    if a.len() > 0 && b.len() > 0 && c.len() > 0 && a[0] == b[0] && b[0] == c[0] {
        lemma_bytes_lt_transitive(a.skip(1), b.skip(1), c.skip(1));
    }
}

pub proof fn lemma_bytes_lt_total(a: Seq<u8>, b: Seq<u8>)
    ensures
        bytes_lt(a, b) || bytes_lt(b, a) || a == b,
    decreases a.len(),
{
    if a.len() > 0 && b.len() > 0 && a[0] == b[0] {
        lemma_bytes_lt_total(a.skip(1), b.skip(1));
        if a.skip(1) == b.skip(1) {
            assert(a =~= seq![a[0]] + a.skip(1));
            assert(b =~= seq![b[0]] + b.skip(1));
        }
    } else if a.len() == 0 && b.len() == 0 {
        assert(a =~= b);
    }
}

/// Names are ordered strictly: never below themselves.
pub proof fn lemma_name_lt_irreflexive(a: Seq<char>)
    ensures
        !name_lt(a, a),
{
    lemma_bytes_lt_irreflexive(encode_utf8(a));
}

pub proof fn lemma_name_lt_asymmetric(a: Seq<char>, b: Seq<char>)
    requires
        name_lt(a, b),
    ensures
        !name_lt(b, a),
        a != b,
{
    lemma_bytes_lt_asymmetric(encode_utf8(a), encode_utf8(b));
    lemma_bytes_lt_irreflexive(encode_utf8(a));
}

pub proof fn lemma_name_lt_transitive(a: Seq<char>, b: Seq<char>, c: Seq<char>)
    requires
        name_lt(a, b),
        name_lt(b, c),
    ensures
        name_lt(a, c),
{
    lemma_bytes_lt_transitive(encode_utf8(a), encode_utf8(b), encode_utf8(c));
}

/// Any two names are equal or one is below the other.
pub proof fn lemma_name_lt_total(a: Seq<char>, b: Seq<char>)
    ensures
        name_lt(a, b) || name_lt(b, a) || a == b,
{
    lemma_bytes_lt_total(encode_utf8(a), encode_utf8(b));
    if encode_utf8(a) == encode_utf8(b) {
        encode_utf8_decode_utf8(a);
        encode_utf8_decode_utf8(b);
    }
}

/// Whether `name` is the first name, in the order of names, of which `holds` is true.
pub open spec fn is_first_name(holds: spec_fn(Seq<char>) -> bool, name: Seq<char>) -> bool {
    &&& holds(name)
    &&& forall|n: Seq<char>| name_lt(n, name) ==> !#[trigger] holds(n)
}

/// The first name, in the order of names, of which `holds` is true.
pub open spec fn first_name(holds: spec_fn(Seq<char>) -> bool) -> Seq<char> {
    choose|name: Seq<char>| is_first_name(holds, name)
}

/// There is one first name at most.
pub proof fn lemma_first_name(holds: spec_fn(Seq<char>) -> bool, name: Seq<char>)
    requires
        is_first_name(holds, name),
    ensures
        first_name(holds) == name,
{
    let other = first_name(holds);
    assert(is_first_name(holds, other));
    lemma_name_lt_total(name, other);
}

/// The order of two names, as a spec value.
pub open spec fn name_order(a: Seq<char>, b: Seq<char>) -> Order {
    if name_lt(a, b) {
        Order::Less
    } else if a == b {
        Order::Equal
    } else {
        Order::Greater
    }
}

proof fn lemma_bytes_lt_skip(a: Seq<u8>, b: Seq<u8>, i: int)
    requires
        0 <= i <= a.len(),
        i <= b.len(),
        a.take(i) == b.take(i),
    ensures
        bytes_lt(a, b) == bytes_lt(a.skip(i), b.skip(i)),
        (a == b) == (a.skip(i) == b.skip(i)),
    decreases i,
{
    if i == 0 {
        assert(a.skip(0) =~= a);
        assert(b.skip(0) =~= b);
    } else {
        assert(a[0] == a.take(i)[0]);
        assert(b[0] == b.take(i)[0]);
        assert(a.skip(1).take(i - 1) =~= a.take(i).skip(1));
        assert(b.skip(1).take(i - 1) =~= b.take(i).skip(1));
        lemma_bytes_lt_skip(a.skip(1), b.skip(1), i - 1);
        assert(a.skip(1).skip(i - 1) =~= a.skip(i));
        assert(b.skip(1).skip(i - 1) =~= b.skip(i));
        if a.skip(i) == b.skip(i) {
            assert(a =~= a.take(i) + a.skip(i));
            assert(b =~= b.take(i) + b.skip(i));
        }
    }
}

/// Compares two names.
pub fn compare_names(a: &str, b: &str) -> (r: Order)
    ensures
        r == name_order(a@, b@),
{
    let x = a.as_bytes();
    let y = b.as_bytes();
    let n = x.len();
    let m = y.len();
    let mut i: usize = 0;
    while i < n && i < m
        invariant
            i <= n,
            i <= m,
            n == x@.len(),
            m == y@.len(),
            x@ == a.spec_bytes(),
            y@ == b.spec_bytes(),
            x@.take(i as int) == y@.take(i as int),
        decreases n - i,
    {
        let p = x[i];
        let q = y[i];
        if p != q {
            proof {
                lemma_bytes_lt_skip(x@, y@, i as int);
                lemma_name_lt_total(a@, b@);
                if q < p {
                    lemma_bytes_lt_skip(y@, x@, i as int);
                    lemma_bytes_lt_asymmetric(y@, x@);
                    lemma_bytes_lt_irreflexive(x@);
                } else {
                    lemma_bytes_lt_irreflexive(x@);
                }
            }
            if p < q {
                return Order::Less;
            } else {
                return Order::Greater;
            }
        }
        proof {
            assert(x@.take(i as int + 1) =~= x@.take(i as int).push(x@[i as int]));
            assert(y@.take(i as int + 1) =~= y@.take(i as int).push(y@[i as int]));
        }
        i = i + 1;
    }
    proof {
        lemma_bytes_lt_skip(x@, y@, i as int);
        lemma_name_lt_total(a@, b@);
        lemma_bytes_lt_irreflexive(x@);
        if n == m {
            assert(x@.skip(i as int) =~= y@.skip(i as int));
            encode_utf8_decode_utf8(a@);
            encode_utf8_decode_utf8(b@);
        } else if m < n {
            lemma_bytes_lt_skip(y@, x@, i as int);
            lemma_bytes_lt_asymmetric(y@, x@);
        }
    }
    if n == m {
        Order::Equal
    } else if n < m {
        Order::Less
    } else {
        Order::Greater
    }
}

/// Whether two names are the same.
pub fn names_equal(a: &str, b: &str) -> (r: bool)
    ensures
        r == (a@ == b@),
{
    match compare_names(a, b) {
        Order::Equal => true,
        Order::Less => {
            proof {
                lemma_name_lt_irreflexive(a@);
            }
            false
        },
        Order::Greater => false,
    }
}

} // verus!
