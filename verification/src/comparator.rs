//! The orders of keys: byte strings, internal keys, and internal keys that
//! stand behind a length.

use crate::common::{extract_trailer, extract_user_key, trailer_of, user_key_of, TRAILER_LEN};
use crate::util::{get_var_uint32, parse_varint32};
use std::cmp::Ordering;
use vstd::prelude::*;

verus! {

/// `a` comes before `b` in the lexicographic order of byte strings.
pub open spec fn bytes_precede(a: Seq<u8>, b: Seq<u8>) -> bool
    decreases a.len(),
{
    if b.len() == 0 {
        false
    } else if a.len() == 0 {
        true
    } else if a[0] != b[0] {
        a[0] < b[0]
    } else {
        bytes_precede(a.skip(1), b.skip(1))
    }
}

/// `a` comes before `b` among internal keys: user keys ascend, and of one user
/// key the greater trailer, the newer write, comes first.
pub open spec fn internal_precedes(a: Seq<u8>, b: Seq<u8>) -> bool {
    ||| bytes_precede(user_key_of(a), user_key_of(b))
    ||| user_key_of(a) == user_key_of(b) && trailer_of(a) > trailer_of(b)
}

/// `s` starts with a length and holds at least that many bytes after it.
pub open spec fn has_prefixed_key(s: Seq<u8>) -> bool {
    parse_varint32(s) matches Some((len, n)) && n + len <= s.len()
}

/// The bytes that the length at the front of `s` speaks of.
pub open spec fn prefixed_key(s: Seq<u8>) -> Seq<u8> {
    match parse_varint32(s) {
        Some((len, n)) => s.subrange(n as int, n + len),
        None => Seq::empty(),
    }
}

/// Two byte strings never precede each other.
pub proof fn lemma_bytes_asymmetric(a: Seq<u8>, b: Seq<u8>)
    requires
        bytes_precede(a, b),
    ensures
        !bytes_precede(b, a),
        a != b,
    decreases a.len(),
{
    if a.len() > 0 && a[0] == b[0] {
        lemma_bytes_asymmetric(a.skip(1), b.skip(1));
    }
}

/// Of two byte strings that differ, one precedes the other.
pub proof fn lemma_bytes_total(a: Seq<u8>, b: Seq<u8>)
    requires
        a != b,
    ensures
        bytes_precede(a, b) || bytes_precede(b, a),
    decreases a.len(),
{
    if a.len() == 0 || b.len() == 0 {
        assert(a.len() == 0 && b.len() == 0 ==> a =~= b);
    } else if a[0] == b[0] {
        if a.skip(1) == b.skip(1) {
            assert(a =~= seq![a[0]] + a.skip(1));
            assert(b =~= seq![b[0]] + b.skip(1));
        } else {
            lemma_bytes_total(a.skip(1), b.skip(1));
        }
    }
}

/// Where `a` precedes `c`, any `b` is after `a` or before `c`.
pub proof fn lemma_bytes_cotransitive(a: Seq<u8>, b: Seq<u8>, c: Seq<u8>)
    requires
        bytes_precede(a, c),
    ensures
        bytes_precede(a, b) || bytes_precede(b, c),
    decreases a.len(),
{
    if a.len() > 0 && b.len() > 0 && a[0] == c[0] && a[0] == b[0] {
        lemma_bytes_cotransitive(a.skip(1), b.skip(1), c.skip(1));
    }
}

/// The length of the longest common prefix of two byte strings. The bytes that
/// stand there decide which of the two precedes.
fn common_prefix_len(a: &[u8], b: &[u8]) -> (n: usize)
    ensures
        n <= a@.len(),
        n <= b@.len(),
        a@.take(n as int) == b@.take(n as int),
        n < a@.len() && n < b@.len() ==> a@[n as int] != b@[n as int],
        bytes_precede(a@, b@) <==> n < b@.len() && (n == a@.len() || a@[n as int] < b@[n as int]),
        bytes_precede(b@, a@) <==> n < a@.len() && (n == b@.len() || b@[n as int] < a@[n as int]),
        a@ == b@ <==> n == a@.len() && n == b@.len(),
{
    let mut n: usize = 0;
    proof {
        assert(a@.skip(0) =~= a@);
        assert(b@.skip(0) =~= b@);
    }
    while n < a.len() && n < b.len() && a[n] == b[n]
        invariant
            n <= a@.len(),
            n <= b@.len(),
            a@.take(n as int) == b@.take(n as int),
            bytes_precede(a@, b@) == bytes_precede(a@.skip(n as int), b@.skip(n as int)),
            bytes_precede(b@, a@) == bytes_precede(b@.skip(n as int), a@.skip(n as int)),
        decreases a@.len() - n,
    {
        proof {
            assert(a@.skip(n as int).skip(1) =~= a@.skip(n + 1));
            assert(b@.skip(n as int).skip(1) =~= b@.skip(n + 1));
            assert(a@.take(n + 1) =~= a@.take(n as int).push(a@[n as int]));
            assert(b@.take(n + 1) =~= b@.take(n as int).push(b@[n as int]));
        }
        n = n + 1;
    }
    proof {
        if n == a@.len() && n == b@.len() {
            assert(a@ =~= a@.take(n as int));
            assert(b@ =~= b@.take(n as int));
        }
    }
    n
}

/// Compares two byte strings.
pub fn compare_bytes(a: &[u8], b: &[u8]) -> (r: Ordering)
    ensures
        r == Ordering::Less <==> bytes_precede(a@, b@),
        r == Ordering::Greater <==> bytes_precede(b@, a@),
        r == Ordering::Equal <==> a@ == b@,
{
    let n: usize = common_prefix_len(a, b);
    if n == a.len() {
        if n == b.len() {
            Ordering::Equal
        } else {
            Ordering::Less
        }
    } else if n == b.len() {
        Ordering::Greater
    } else if a[n] < b[n] {
        Ordering::Less
    } else {
        Ordering::Greater
    }
}

/// The key behind the length at the front of `k`.
pub fn decode_key(k: &[u8]) -> (r: &[u8])
    requires
        has_prefixed_key(k@),
    ensures
        r@ == prefixed_key(k@),
{
    let mut offset: usize = 0;
    assert(k@.skip(0) =~= k@);
    assert(k@.len() == k.len());
    let len: u32 = get_var_uint32(k, &mut offset).unwrap();
    &k[offset..offset + len as usize]
}

/// An order of keys that has a name.
pub trait KeyComparator {
    /// The name of the order.
    spec fn name_view(&self) -> Seq<char>;

    /// The keys that the order speaks of.
    spec fn valid_key(&self, key: Seq<u8>) -> bool;

    /// `a` comes before `b`.
    spec fn precedes(&self, a: Seq<u8>, b: Seq<u8>) -> bool;

    /// The name of the order.
    fn name(&self) -> (r: &str)
        ensures
            r@ == self.name_view(),
    ;

    /// Compares two keys.
    fn compare_key(&self, k1: &[u8], k2: &[u8]) -> (r: Ordering)
        requires
            self.valid_key(k1@),
            self.valid_key(k2@),
        ensures
            r == Ordering::Less <==> self.precedes(k1@, k2@),
            r == Ordering::Greater <==> self.precedes(k2@, k1@),
    ;
}

/// The order of the keys of a skip list, for keys at hand and for keys that
/// stand behind their length.
///
/// The order is a strict weak order: no two keys precede each other, and where
/// one key precedes another, every third key is after the one or before the
/// other.
pub trait Comparator: Sync {
    /// The keys that the order speaks of.
    spec fn valid_key(&self, key: Seq<u8>) -> bool;

    /// `a` comes before `b`.
    spec fn precedes(&self, a: Seq<u8>, b: Seq<u8>) -> bool;

    /// No two keys precede each other.
    proof fn law_asymmetric(&self, a: Seq<u8>, b: Seq<u8>)
        requires
            self.valid_key(a),
            self.valid_key(b),
            self.precedes(a, b),
        ensures
            !self.precedes(b, a),
    ;

    /// Where `a` precedes `c`, `b` is after `a` or before `c`.
    proof fn law_cotransitive(&self, a: Seq<u8>, b: Seq<u8>, c: Seq<u8>)
        requires
            self.valid_key(a),
            self.valid_key(b),
            self.valid_key(c),
            self.precedes(a, c),
        ensures
            self.precedes(a, b) || self.precedes(b, c),
    ;

    /// Compares two keys.
    fn compare(&self, k1: &[u8], k2: &[u8]) -> (r: Ordering)
        requires
            self.valid_key(k1@),
            self.valid_key(k2@),
        ensures
            r == Ordering::Less <==> self.precedes(k1@, k2@),
            r == Ordering::Greater <==> self.precedes(k2@, k1@),
    ;

    /// Compares two keys that stand behind their lengths.
    fn compare_raw_key(&self, k1: &[u8], k2: &[u8]) -> (r: Ordering)
        requires
            has_prefixed_key(k1@),
            has_prefixed_key(k2@),
            self.valid_key(prefixed_key(k1@)),
            self.valid_key(prefixed_key(k2@)),
        ensures
            r == Ordering::Less <==> self.precedes(prefixed_key(k1@), prefixed_key(k2@)),
            r == Ordering::Greater <==> self.precedes(prefixed_key(k2@), prefixed_key(k1@)),
    ;

    /// Compares a key that stands behind its length with a key at hand.
    fn compare_key(&self, k1: &[u8], k2: &[u8]) -> (r: Ordering)
        requires
            has_prefixed_key(k1@),
            self.valid_key(prefixed_key(k1@)),
            self.valid_key(k2@),
        ensures
            r == Ordering::Less <==> self.precedes(prefixed_key(k1@), k2@),
            r == Ordering::Greater <==> self.precedes(k2@, prefixed_key(k1@)),
    ;
}

/// The order of internal keys over user keys that order bytewise.
#[derive(Clone, Copy, Debug)]
pub struct InternalKeyComparator {}

impl Default for InternalKeyComparator {
    fn default() -> Self {
        InternalKeyComparator {  }
    }
}

impl KeyComparator for InternalKeyComparator {
    open spec fn name_view(&self) -> Seq<char> {
        "InternalKeyComparator"@
    }

    open spec fn valid_key(&self, key: Seq<u8>) -> bool {
        key.len() >= TRAILER_LEN
    }

    open spec fn precedes(&self, a: Seq<u8>, b: Seq<u8>) -> bool {
        internal_precedes(a, b)
    }

    fn name(&self) -> (r: &str) {
        "InternalKeyComparator"
    }

    fn compare_key(&self, k1: &[u8], k2: &[u8]) -> (r: Ordering) {
        let u1: &[u8] = extract_user_key(k1);
        let u2: &[u8] = extract_user_key(k2);
        proof {
            if bytes_precede(u1@, u2@) {
                lemma_bytes_asymmetric(u1@, u2@);
            }
            if bytes_precede(u2@, u1@) {
                lemma_bytes_asymmetric(u2@, u1@);
            }
        }
        match compare_bytes(u1, u2) {
            Ordering::Less => Ordering::Less,
            Ordering::Greater => Ordering::Greater,
            Ordering::Equal => {
                let t1: u64 = extract_trailer(k1);
                let t2: u64 = extract_trailer(k2);
                if t1 > t2 {
                    Ordering::Less
                } else if t1 < t2 {
                    Ordering::Greater
                } else {
                    Ordering::Equal
                }
            },
        }
    }
}

/// No two internal keys precede each other.
pub proof fn law_internal_asymmetric(a: Seq<u8>, b: Seq<u8>)
    requires
        internal_precedes(a, b),
    ensures
        !internal_precedes(b, a),
{
    if bytes_precede(user_key_of(a), user_key_of(b)) {
        lemma_bytes_asymmetric(user_key_of(a), user_key_of(b));
    }
    if bytes_precede(user_key_of(b), user_key_of(a)) {
        lemma_bytes_asymmetric(user_key_of(b), user_key_of(a));
    }
}

/// Where one internal key precedes another, every third one is after the one or
/// before the other.
pub proof fn law_internal_cotransitive(a: Seq<u8>, b: Seq<u8>, c: Seq<u8>)
    requires
        internal_precedes(a, c),
    ensures
        internal_precedes(a, b) || internal_precedes(b, c),
{
    let (ua, ub, uc) = (user_key_of(a), user_key_of(b), user_key_of(c));
    if bytes_precede(ua, uc) {
        lemma_bytes_cotransitive(ua, ub, uc);
    } else if ua != ub {
        lemma_bytes_total(ua, ub);
    }
}

/// The order of the keys of a memtable: internal keys.
#[derive(Clone, Copy, Debug)]
pub struct DefaultComparator {
    comparator: InternalKeyComparator,
}

impl DefaultComparator {
    /// The order of the keys.
    pub closed spec fn comparator(&self) -> InternalKeyComparator {
        self.comparator
    }

    /// Makes the order of a memtable from the order of its keys.
    pub fn new(comparator: InternalKeyComparator) -> (r: Self)
        ensures
            r.comparator() == comparator,
    {
        DefaultComparator { comparator }
    }
}

impl Comparator for DefaultComparator {
    open spec fn valid_key(&self, key: Seq<u8>) -> bool {
        key.len() >= TRAILER_LEN
    }

    open spec fn precedes(&self, a: Seq<u8>, b: Seq<u8>) -> bool {
        internal_precedes(a, b)
    }

    proof fn law_asymmetric(&self, a: Seq<u8>, b: Seq<u8>) {
        law_internal_asymmetric(a, b);
    }

    proof fn law_cotransitive(&self, a: Seq<u8>, b: Seq<u8>, c: Seq<u8>) {
        law_internal_cotransitive(a, b, c);
    }

    fn compare(&self, k1: &[u8], k2: &[u8]) -> (r: Ordering) {
        self.comparator.compare_key(k1, k2)
    }

    fn compare_raw_key(&self, k1: &[u8], k2: &[u8]) -> (r: Ordering) {
        self.comparator.compare_key(decode_key(k1), decode_key(k2))
    }

    fn compare_key(&self, k1: &[u8], k2: &[u8]) -> (r: Ordering) {
        self.comparator.compare_key(decode_key(k1), k2)
    }
}

} // verus!
