//! Strict total orders on the keys of the library's ordered collections.
use vstd::prelude::*;
use vstd::utf8::encode_utf8;

verus! {

/// The outcome of comparing two keys.
#[derive(Debug, Clone, Copy, PartialEq, Eq, Structural)]
pub enum KeyOrder {
    /// The left key comes first.
    Before,
    /// The two keys are the same key.
    Same,
    /// The right key comes first.
    After,
}

/// A type whose values are strictly and totally ordered by what they mean.
///
/// Two keys with the same [`OrderedKey::key`] are one and the same key.
pub trait OrderedKey: Sized {
    /// What a key means.
    type Key;

    /// The meaning of this key.
    spec fn key(&self) -> Self::Key;

    /// Whether `a` comes strictly before `b`.
    spec fn before(a: Self::Key, b: Self::Key) -> bool;

    /// No key comes before itself.
    proof fn before_irreflexive(a: Self::Key)
        ensures
            !Self::before(a, a),
    ;

    /// The order is transitive.
    proof fn before_transitive(a: Self::Key, b: Self::Key, c: Self::Key)
        requires
            Self::before(a, b),
            Self::before(b, c),
        ensures
            Self::before(a, c),
    ;

    /// Any two different keys are ordered.
    proof fn before_total(a: Self::Key, b: Self::Key)
        ensures
            Self::before(a, b) || a == b || Self::before(b, a),
    ;

    /// Compares two keys.
    fn compare(&self, other: &Self) -> (order: KeyOrder)
        ensures
            match order {
                KeyOrder::Before => Self::before(self.key(), other.key()),
                KeyOrder::Same => self.key() == other.key(),
                KeyOrder::After => Self::before(other.key(), self.key()),
            },
    ;
}

/// Lexicographic order on byte strings: at the first difference `a` either ends or
/// holds the smaller byte.
pub open spec fn bytes_before(a: Seq<u8>, b: Seq<u8>) -> bool {
    exists|i: int| differs_below(a, b, i)
}

/// `a` and `b` agree up to position `i`, where `a` ends or holds the smaller byte.
pub open spec fn differs_below(a: Seq<u8>, b: Seq<u8>, i: int) -> bool {
    &&& 0 <= i <= a.len()
    &&& i < b.len()
    &&& a.take(i) == b.take(i)
    &&& (i == a.len() || a[i] < b[i])
}

pub proof fn lemma_bytes_before_irreflexive(a: Seq<u8>)
    ensures
        !bytes_before(a, a),
{
}

pub proof fn lemma_bytes_before_transitive(a: Seq<u8>, b: Seq<u8>, c: Seq<u8>)
    requires
        bytes_before(a, b),
        bytes_before(b, c),
    ensures
        bytes_before(a, c),
{
    let i = choose|i: int| differs_below(a, b, i);
    let j = choose|j: int| differs_below(b, c, j);
    let k = if i <= j {
        i
    } else {
        j
    };
    assert(a.take(k) =~= c.take(k)) by {
        assert(a.take(k) =~= a.take(i).take(k));
        assert(b.take(k) =~= b.take(i).take(k));
        assert(b.take(k) =~= b.take(j).take(k));
        assert(c.take(k) =~= c.take(j).take(k));
    }
    if i < j {
        assert(b[i] == b.take(j)[i]);
        assert(c[i] == c.take(j)[i]);
    } else if j < i {
        assert(a[j] == a.take(i)[j]);
        assert(b[j] == b.take(i)[j]);
    }
    assert(differs_below(a, c, k));
}

/// Byte strings that agree up to `i` and then differ are ordered by that difference,
/// and in that direction only.
pub proof fn lemma_bytes_before_decided(a: Seq<u8>, b: Seq<u8>, i: int)
    requires
        differs_below(a, b, i),
    ensures
        bytes_before(a, b),
        !bytes_before(b, a),
        a != b,
{
    if bytes_before(b, a) {
        lemma_bytes_before_transitive(a, b, a);
        lemma_bytes_before_irreflexive(a);
    }
    if a == b {
        lemma_bytes_before_irreflexive(a);
    }
}

pub proof fn lemma_bytes_before_total(a: Seq<u8>, b: Seq<u8>)
    ensures
        bytes_before(a, b) || a == b || bytes_before(b, a),
    decreases a.len(),
{
    if a.len() == 0 {
        if b.len() == 0 {
            assert(a =~= b);
        } else {
            assert(a.take(0) =~= b.take(0));
            assert(differs_below(a, b, 0));
        }
    } else if b.len() == 0 {
        assert(a.take(0) =~= b.take(0));
        assert(differs_below(b, a, 0));
    } else if a[0] < b[0] {
        assert(a.take(0) =~= b.take(0));
        assert(differs_below(a, b, 0));
    } else if b[0] < a[0] {
        assert(a.take(0) =~= b.take(0));
        assert(differs_below(b, a, 0));
    } else {
        let a1 = a.drop_first();
        let b1 = b.drop_first();
        lemma_bytes_before_total(a1, b1);
        if bytes_before(a1, b1) {
            let i = choose|i: int| differs_below(a1, b1, i);
            lemma_prepend_equal(a, b, i);
            assert(differs_below(a, b, i + 1));
        } else if a1 == b1 {
            assert(a =~= seq![a[0]] + a1);
            assert(b =~= seq![b[0]] + b1);
        } else {
            let i = choose|i: int| differs_below(b1, a1, i);
            lemma_prepend_equal(b, a, i);
            assert(differs_below(b, a, i + 1));
        }
    }
}

proof fn lemma_prepend_equal(a: Seq<u8>, b: Seq<u8>, i: int)
    requires
        a.len() > 0,
        b.len() > 0,
        a[0] == b[0],
        0 <= i <= a.drop_first().len(),
        i <= b.drop_first().len(),
        a.drop_first().take(i) == b.drop_first().take(i),
    ensures
        a.take(i + 1) == b.take(i + 1),
{
    assert(a.take(i + 1) =~= seq![a[0]] + a.drop_first().take(i));
    assert(b.take(i + 1) =~= seq![b[0]] + b.drop_first().take(i));
}

/// Compares two byte strings lexicographically.
pub fn compare_bytes(a: &[u8], b: &[u8]) -> (order: KeyOrder)
    ensures
        match order {
            KeyOrder::Before => bytes_before(a@, b@) && !bytes_before(b@, a@) && a@ != b@,
            KeyOrder::Same => a@ == b@ && !bytes_before(a@, b@),
            KeyOrder::After => bytes_before(b@, a@) && !bytes_before(a@, b@) && a@ != b@,
        },
{
    let mut i: usize = 0;
    while i < a.len() && i < b.len() && a[i] == b[i]
        invariant
            i <= a@.len(),
            i <= b@.len(),
            a@.take(i as int) == b@.take(i as int),
        decreases a@.len() - i,
    {
        proof {
            assert(a@.take(i + 1) =~= a@.take(i as int).push(a@[i as int]));
            assert(b@.take(i + 1) =~= b@.take(i as int).push(b@[i as int]));
        }
        i = i + 1;
    }
    if i == a.len() && i == b.len() {
        proof {
            assert(a@ =~= a@.take(i as int));
            assert(b@ =~= b@.take(i as int));
            lemma_bytes_before_irreflexive(a@);
        }
        KeyOrder::Same
    } else if i == a.len() || (i < b.len() && a[i] < b[i]) {
        proof {
            lemma_bytes_before_decided(a@, b@, i as int);
        }
        KeyOrder::Before
    } else {
        proof {
            lemma_bytes_before_decided(b@, a@, i as int);
        }
        KeyOrder::After
    }
}

/// The order of strings: that of their UTF-8 bytes.
pub open spec fn text_before(a: Seq<char>, b: Seq<char>) -> bool {
    bytes_before(encode_utf8(a), encode_utf8(b))
}

/// Strings with the same UTF-8 bytes are the same string.
pub proof fn lemma_text_from_bytes(a: Seq<char>, b: Seq<char>)
    requires
        encode_utf8(a) == encode_utf8(b),
    ensures
        a == b,
{
    vstd::utf8::encode_utf8_decode_utf8(a);
    vstd::utf8::encode_utf8_decode_utf8(b);
}

pub proof fn lemma_text_before_total(a: Seq<char>, b: Seq<char>)
    ensures
        text_before(a, b) || a == b || text_before(b, a),
{
    lemma_bytes_before_total(encode_utf8(a), encode_utf8(b));
    if encode_utf8(a) == encode_utf8(b) {
        lemma_text_from_bytes(a, b);
    }
}

/// Compares two strings by their UTF-8 bytes.
pub fn compare_text(a: &str, b: &str) -> (order: KeyOrder)
    ensures
        match order {
            KeyOrder::Before => text_before(a@, b@) && !text_before(b@, a@) && a@ != b@,
            KeyOrder::Same => a@ == b@ && !text_before(a@, b@),
            KeyOrder::After => text_before(b@, a@) && !text_before(a@, b@) && a@ != b@,
        },
{
    let order = compare_bytes(a.as_bytes(), b.as_bytes());
    proof {
        if order == KeyOrder::Same {
            lemma_text_from_bytes(a@, b@);
        }
    }
    order
}

/// Of two different byte strings the one comes first that ends where they differ first or has
/// the lower byte there.
pub proof fn law_first_difference_decides(a: Seq<u8>, b: Seq<u8>, i: int)
    requires
        0 <= i <= a.len(),
        i <= b.len(),
        i < a.len() || i < b.len(),
        forall|j: int| 0 <= j < i ==> a[j] == #[trigger] b[j],
        i < a.len() && i < b.len() ==> a[i] != b[i],
    ensures
        bytes_before(a, b) <==> i < b.len() && (i == a.len() || a[i] < b[i]),
        bytes_before(b, a) <==> i < a.len() && (i == b.len() || b[i] < a[i]),
{
    assert(a.take(i) =~= b.take(i));
    if i < b.len() && (i == a.len() || a[i] < b[i]) {
        lemma_bytes_before_decided(a, b, i);
    } else {
        lemma_bytes_before_decided(b, a, i);
    }
}

/// Strings are ordered as their UTF-8 bytes are.
pub proof fn law_text_is_ordered_by_its_bytes(a: Seq<char>, b: Seq<char>)
    ensures
        text_before(a, b) <==> bytes_before(encode_utf8(a), encode_utf8(b)),
{
}

} // verus!
