//! The order on strings that every sorted collection of this crate is keyed by.
//!
//! Two strings compare as their UTF-8 encodings do, byte by byte: the first
//! byte that differs decides, and a proper prefix comes before any of its
//! extensions. This is the order that `str` has in the standard library.

use vstd::prelude::*;
use vstd::std_specs::iter::IteratorSpec;
use vstd::string::*;
use vstd::utf8::*;

verus! {

/// `a` comes strictly before `b`: they agree on their first `k` bytes, and
/// then either `a` ends while `b` goes on, or `a` holds the smaller byte.
pub open spec fn bytes_lt(a: Seq<u8>, b: Seq<u8>) -> bool {
    exists|k: int| differ_at(a, b, k)
}

/// `k` is the place where `a` and `b` first differ, and `a` is the lesser there.
pub open spec fn differ_at(a: Seq<u8>, b: Seq<u8>, k: int) -> bool {
    &&& 0 <= k <= a.len()
    &&& k < b.len()
    &&& forall|j: int| 0 <= j < k ==> a[j] == b[j]
    &&& (k < a.len() ==> a[k] < b[k])
}

/// The order on strings: that of their UTF-8 encodings.
pub open spec fn str_lt(a: Seq<char>, b: Seq<char>) -> bool {
    bytes_lt(encode_utf8(a), encode_utf8(b))
}

/// The order on optional strings: an absent one comes before every present one.
pub open spec fn opt_lt(a: Option<Seq<char>>, b: Option<Seq<char>>) -> bool {
    match (a, b) {
        (None, None) => false,
        (None, Some(_)) => true,
        (Some(_), None) => false,
        (Some(x), Some(y)) => str_lt(x, y),
    }
}

/// The view of an optional string.
pub open spec fn opt_view(s: Option<String>) -> Option<Seq<char>> {
    match s {
        Some(t) => Some(t@),
        None => None,
    }
}

/// No byte string comes before itself.
pub proof fn lemma_bytes_lt_irreflexive(a: Seq<u8>)
    ensures
        !bytes_lt(a, a),
{
}

/// The order on byte strings is transitive.
pub proof fn lemma_bytes_lt_transitive(a: Seq<u8>, b: Seq<u8>, c: Seq<u8>)
    requires
        bytes_lt(a, b),
        bytes_lt(b, c),
    ensures
        bytes_lt(a, c),
{
    let k1 = choose|k: int| differ_at(a, b, k);
    let k2 = choose|k: int| differ_at(b, c, k);
    if k1 <= k2 {
        assert(differ_at(a, c, k1));
    } else {
        assert(differ_at(a, c, k2));
    }
}

/// Two byte strings that agree on their first `i` bytes are equal or ordered
/// one way or the other.
proof fn lemma_bytes_lt_connected_from(a: Seq<u8>, b: Seq<u8>, i: int)
    requires
        0 <= i <= a.len(),
        i <= b.len(),
        forall|j: int| 0 <= j < i ==> a[j] == b[j],
    ensures
        a == b || bytes_lt(a, b) || bytes_lt(b, a),
    decreases a.len() - i,
{
    if i == a.len() {
        if i == b.len() {
            assert(a =~= b);
        } else {
            assert(differ_at(a, b, i));
        }
    } else if i == b.len() {
        assert(differ_at(b, a, i));
    } else if a[i] < b[i] {
        assert(differ_at(a, b, i));
    } else if b[i] < a[i] {
        assert(differ_at(b, a, i));
    } else {
        lemma_bytes_lt_connected_from(a, b, i + 1);
    }
}

/// Two different byte strings are ordered one way or the other.
pub proof fn lemma_bytes_lt_connected(a: Seq<u8>, b: Seq<u8>)
    ensures
        a == b || bytes_lt(a, b) || bytes_lt(b, a),
{
    lemma_bytes_lt_connected_from(a, b, 0);
}

/// No string comes before itself.
pub proof fn lemma_str_lt_irreflexive(a: Seq<char>)
    ensures
        !str_lt(a, a),
{
    lemma_bytes_lt_irreflexive(encode_utf8(a));
}

/// The order on strings is transitive.
pub proof fn lemma_str_lt_transitive(a: Seq<char>, b: Seq<char>, c: Seq<char>)
    requires
        str_lt(a, b),
        str_lt(b, c),
    ensures
        str_lt(a, c),
{
    lemma_bytes_lt_transitive(encode_utf8(a), encode_utf8(b), encode_utf8(c));
}

/// Two different strings are ordered one way or the other: no two strings
/// have the same encoding.
pub proof fn lemma_str_lt_connected(a: Seq<char>, b: Seq<char>)
    ensures
        a == b || str_lt(a, b) || str_lt(b, a),
{
    lemma_bytes_lt_connected(encode_utf8(a), encode_utf8(b));
    encode_utf8_decode_utf8(a);
    encode_utf8_decode_utf8(b);
}

/// No optional string comes before itself.
pub proof fn lemma_opt_lt_irreflexive(a: Option<Seq<char>>)
    ensures
        !opt_lt(a, a),
{
    if a is Some {
        lemma_str_lt_irreflexive(a->0);
    }
}

/// The order on optional strings is transitive.
pub proof fn lemma_opt_lt_transitive(
    a: Option<Seq<char>>,
    b: Option<Seq<char>>,
    c: Option<Seq<char>>,
)
    requires
        opt_lt(a, b),
        opt_lt(b, c),
    ensures
        opt_lt(a, c),
{
    if a is Some && b is Some && c is Some {
        lemma_str_lt_transitive(a->0, b->0, c->0);
    }
}

/// Two different optional strings are ordered one way or the other.
pub proof fn lemma_opt_lt_connected(a: Option<Seq<char>>, b: Option<Seq<char>>)
    ensures
        a == b || opt_lt(a, b) || opt_lt(b, a),
{
    if a is Some && b is Some {
        lemma_str_lt_connected(a->0, b->0);
    }
}

/// Whether `a` comes strictly before `b`.
pub fn str_less(a: &str, b: &str) -> (r: bool)
    ensures
        r == str_lt(a@, b@),
{
    let x = a.as_bytes();
    let y = b.as_bytes();
    let mut i: usize = 0;
    while i < x.len() && i < y.len()
        invariant
            i <= x@.len(),
            i <= y@.len(),
            x@ == encode_utf8(a@),
            y@ == encode_utf8(b@),
            forall|j: int| 0 <= j < i ==> x@[j] == y@[j],
        decreases x@.len() - i,
    {
        if x[i] != y[i] {
            proof {
                if x[i as int] < y[i as int] {
                    assert(differ_at(x@, y@, i as int));
                } else {
                    assert forall|k: int| !differ_at(x@, y@, k) by {
                        if differ_at(x@, y@, k) && k > i {
                            assert(x@[i as int] == y@[i as int]);
                        }
                    }
                }
            }
            return x[i] < y[i];
        }
        i += 1;
    }
    proof {
        if i < y@.len() {
            assert(differ_at(x@, y@, i as int));
        } else {
            assert forall|k: int| !differ_at(x@, y@, k) by {}
        }
    }
    i < y.len()
}

/// Whether two strings are the same.
pub fn str_same(a: &str, b: &str) -> (r: bool)
    ensures
        r == (a@ == b@),
{
    let x = a.as_bytes();
    let y = b.as_bytes();
    proof {
        encode_utf8_decode_utf8(a@);
        encode_utf8_decode_utf8(b@);
    }
    if x.len() != y.len() {
        return false;
    }
    let mut i: usize = 0;
    while i < x.len()
        invariant
            i <= x@.len(),
            x@.len() == y@.len(),
            x@ == encode_utf8(a@),
            y@ == encode_utf8(b@),
            forall|j: int| 0 <= j < i ==> x@[j] == y@[j],
        decreases x@.len() - i,
    {
        if x[i] != y[i] {
            return false;
        }
        i += 1;
    }
    assert(x@ =~= y@);
    true
}

/// `k` is the first place of `text` that holds `sep`.
pub open spec fn first_at(text: Seq<char>, sep: char, k: int) -> bool {
    &&& 0 <= k < text.len()
    &&& text[k] == sep
    &&& forall|j: int| 0 <= j < k ==> text[j] != sep
}

/// The two parts of `text` around the first `sep` in it, if it holds one.
pub open spec fn split_once_spec(text: Seq<char>, sep: char) -> Option<(Seq<char>, Seq<char>)> {
    if exists|k: int| first_at(text, sep, k) {
        let k = choose|k: int| first_at(text, sep, k);
        Some((text.take(k), text.skip(k + 1)))
    } else {
        None
    }
}

/// The part of `text` before the first `sep` in it, if it holds one.
pub open spec fn before_first(text: Seq<char>, sep: char) -> Option<Seq<char>> {
    match split_once_spec(text, sep) {
        Some((head, _)) => Some(head),
        None => None,
    }
}

/// The first place of `text` that holds `sep`, counted in characters.
pub fn find_first(text: &str, sep: char) -> (r: Option<usize>)
    ensures
        match r {
            Some(k) => first_at(text@, sep, k as int),
            None => forall|k: int| !first_at(text@, sep, k),
        },
{
    broadcast use vstd::string::group_string_axioms;

    let n = text.unicode_len();
    let mut rest = text.chars();
    let mut i: usize = 0;
    loop
        invariant
            n == text@.len(),
            i <= n,
            rest.remaining() == text@.skip(i as int),
            rest.obeys_prophetic_iter_laws(),
            forall|j: int| 0 <= j < i ==> text@[j] != sep,
        decreases n - i,
    {
        match rest.next() {
            Some(c) => {
                if c == sep {
                    return Some(i);
                }
                i += 1;
            },
            None => {
                return None;
            },
        }
    }
}

/// Whether optional string `a` comes strictly before `b`.
pub fn opt_less(a: &Option<String>, b: &Option<String>) -> (r: bool)
    ensures
        r == opt_lt(opt_view(*a), opt_view(*b)),
{
    match (a, b) {
        (None, None) => false,
        (None, Some(_)) => true,
        (Some(_), None) => false,
        (Some(x), Some(y)) => str_less(x.as_str(), y.as_str()),
    }
}

/// Whether two optional strings are the same.
pub fn opt_same(a: &Option<String>, b: &Option<String>) -> (r: bool)
    ensures
        r == (opt_view(*a) == opt_view(*b)),
{
    match (a, b) {
        (None, None) => true,
        (None, Some(_)) => false,
        (Some(_), None) => false,
        (Some(x), Some(y)) => *x == *y,
    }
}

/// An optional string as text that is lent out.
pub fn opt_str(a: &Option<String>) -> (r: Option<&str>)
    ensures
        match r {
            Some(s) => opt_view(*a) == Some(s@),
            None => opt_view(*a) is None,
        },
{
    match a {
        Some(s) => Some(s.as_str()),
        None => None,
    }
}

/// A copy of an optional string.
pub fn opt_clone(a: &Option<String>) -> (r: Option<String>)
    ensures
        opt_view(r) == opt_view(*a),
{
    match a {
        None => None,
        Some(x) => Some(x.clone()),
    }
}

/// No text has two first places for one separator.
pub proof fn lemma_first_at_unique(text: Seq<char>, sep: char, k: int)
    requires
        first_at(text, sep, k),
    ensures
        split_once_spec(text, sep) == Some((text.take(k), text.skip(k + 1))),
        before_first(text, sep) == Some(text.take(k)),
{
    let c = choose|c: int| first_at(text, sep, c);
    if c < k {
        assert(text[c] != sep);
    } else if k < c {
        assert(text[k] != sep);
    }
}

/// Splits `text` at the first `sep` in it. Neither part holds that `sep`.
pub fn split_once(text: &str, sep: char) -> (r: Option<(String, String)>)
    ensures
        match r {
            Some((head, tail)) => split_once_spec(text@, sep) == Some((head@, tail@)),
            None => split_once_spec(text@, sep) is None,
        },
{
    match find_first(text, sep) {
        Some(k) => {
            let n = text.unicode_len();
            let head = text.substring_char(0, k).to_owned();
            let tail = text.substring_char(k + 1, n).to_owned();
            proof {
                lemma_first_at_unique(text@, sep, k as int);
            }
            Some((head, tail))
        },
        None => None,
    }
}

/// The part of `text` before the first `sep` in it.
pub fn head_before(text: &str, sep: char) -> (r: Option<String>)
    ensures
        match r {
            Some(head) => before_first(text@, sep) == Some(head@),
            None => before_first(text@, sep) is None,
        },
{
    match find_first(text, sep) {
        Some(k) => {
            let head = text.substring_char(0, k).to_owned();
            proof {
                lemma_first_at_unique(text@, sep, k as int);
            }
            Some(head)
        },
        None => None,
    }
}

} // verus!
