//! Core value types shared by the loader: steps, wall times, tags, data
//! classes, and byte-string ordering.

use vstd::prelude::*;

verus! {

/// Step index attached to every record. Steps carry no uniqueness or
/// monotonicity requirement across records.
#[derive(Clone, Copy, Debug, PartialEq, Eq, Structural)]
pub struct Step(pub i64);

/// A finite, non-negative timestamp, totally ordered. Callers encode their
/// clock readings as a `u64` whose numeric order matches time order (for
/// seconds-since-epoch counts, or for the bit patterns of finite non-negative
/// binary floating-point readings, the natural encodings do).
#[derive(Clone, Copy, Debug, PartialEq, Eq, Structural)]
pub struct WallTime(pub u64);

/// Name of one time series within a run: an opaque byte string (UTF-8 in
/// practice, but the loader never inspects it beyond equality).
#[derive(Debug)]
pub struct Tag(pub Vec<u8>);

impl View for Tag {
    type V = Seq<u8>;

    open spec fn view(&self) -> Seq<u8> {
        self.0@
    }
}

/// High-level category of a time series; decides storage routing and
/// reservoir capacity.
#[derive(Clone, Copy, Debug, PartialEq, Eq, Structural)]
pub enum DataClass {
    Unknown,
    Scalar,
    Tensor,
    BlobSequence,
}

/// The wire encoding of a data class, as carried in summary metadata.
pub open spec fn data_class_of(code: i32) -> DataClass {
    if code == 1 {
        DataClass::Scalar
    } else if code == 2 {
        DataClass::Tensor
    } else if code == 3 {
        DataClass::BlobSequence
    } else {
        DataClass::Unknown
    }
}

impl DataClass {
    /// Decodes a data-class code; unrecognised codes mean `Unknown`.
    pub fn from_code(code: i32) -> (c: DataClass)
        ensures
            c == data_class_of(code),
    {
        if code == 1 {
            DataClass::Scalar
        } else if code == 2 {
            DataClass::Tensor
        } else if code == 3 {
            DataClass::BlobSequence
        } else {
            DataClass::Unknown
        }
    }
}

/// Byte-for-byte equality of two byte strings.
pub fn bytes_eq(a: &Vec<u8>, b: &Vec<u8>) -> (r: bool)
    ensures
        r <==> a@ == b@,
{
    if a.len() != b.len() {
        return false;
    }
    let mut i: usize = 0;
    while i < a.len()
        invariant
            i <= a.len(),
            a.len() == b.len(),
            forall|j: int| 0 <= j < i ==> a@[j] == b@[j],
        decreases a.len() - i,
    {
        if a[i] != b[i] {
            proof {
                assert(a@[i as int] != b@[i as int]);
            }
            return false;
        }
        i += 1;
    }
    proof {
        assert(a@ =~= b@);
    }
    true
}

/// Strict lexicographic order on byte strings: a proper prefix comes first,
/// otherwise the first differing byte decides.
pub open spec fn lex_less(a: Seq<u8>, b: Seq<u8>) -> bool
    decreases a.len(),
{
    if b.len() == 0 {
        false
    } else if a.len() == 0 {
        true
    } else if a[0] < b[0] {
        true
    } else if a[0] > b[0] {
        false
    } else {
        lex_less(a.skip(1), b.skip(1))
    }
}

/// Exactly one of `lex_less(a, b)`, `lex_less(b, a)`, `a == b` holds.
pub proof fn lemma_lex_trichotomy(a: Seq<u8>, b: Seq<u8>)
    ensures
        lex_less(a, b) || lex_less(b, a) || a == b,
        lex_less(a, b) ==> !lex_less(b, a) && a != b,
        lex_less(b, a) ==> !lex_less(a, b) && a != b,
        a == b ==> !lex_less(a, b) && !lex_less(b, a),
    decreases a.len(),
{
    if a.len() == 0 && b.len() == 0 {
        assert(a =~= b);
    } else if a.len() == 0 || b.len() == 0 {
    } else if a[0] != b[0] {
        assert(a != b);
    } else {
        lemma_lex_trichotomy(a.skip(1), b.skip(1));
        if a.skip(1) == b.skip(1) {
            assert forall|i: int| 0 <= i < a.len() implies a[i] == b[i] by {
                if i >= 1 {
                    assert(a[i] == a.skip(1)[i - 1]);
                    assert(b[i] == b.skip(1)[i - 1]);
                }
            }
            assert(a =~= b);
        }
        if a == b {
            assert(a.skip(1) =~= b.skip(1));
        }
    }
}

/// Lexicographic order is transitive.
pub proof fn lemma_lex_transitive(a: Seq<u8>, b: Seq<u8>, c: Seq<u8>)
    requires
        lex_less(a, b),
        lex_less(b, c),
    ensures
        lex_less(a, c),
    decreases a.len(),
{
    if a.len() == 0 {
    } else {
        if a[0] == b[0] && b[0] == c[0] {
            lemma_lex_transitive(a.skip(1), b.skip(1), c.skip(1));
        }
    }
}

/// The first index of `key` in an association list keyed by byte strings,
/// or a negative answer when the key is absent.
pub open spec fn assoc_find<V>(s: Seq<(Seq<u8>, V)>, key: Seq<u8>) -> int
    decreases s.len(),
{
    if s.len() == 0 {
        -1
    } else if s[0].0 == key {
        0
    } else {
        let r = assoc_find(s.skip(1), key);
        if r < 0 {
            -1
        } else {
            r + 1
        }
    }
}

/// No two entries share a key.
pub open spec fn distinct_keys<V>(s: Seq<(Seq<u8>, V)>) -> bool {
    forall|i: int, j: int| 0 <= i < j < s.len() ==> s[i].0 != s[j].0
}

/// What `assoc_find` answers: the first index holding the key, or that no
/// entry holds it.
pub proof fn lemma_assoc_find<V>(s: Seq<(Seq<u8>, V)>, key: Seq<u8>)
    ensures
        assoc_find(s, key) >= 0 ==> assoc_find(s, key) < s.len() && s[assoc_find(s, key)].0 == key
            && (forall|j: int| 0 <= j < assoc_find(s, key) ==> s[j].0 != key),
        assoc_find(s, key) < 0 ==> (forall|j: int| 0 <= j < s.len() ==> s[j].0 != key),
    decreases s.len(),
{
    if s.len() == 0 {
    } else if s[0].0 == key {
    } else {
        lemma_assoc_find(s.skip(1), key);
        let r = assoc_find(s.skip(1), key);
        if r >= 0 {
            assert(s[r + 1] == s.skip(1)[r]);
            assert forall|j: int| 0 <= j < r + 1 implies s[j].0 != key by {
                if j >= 1 {
                    assert(s.skip(1)[j - 1].0 != key);
                    assert(s[j] == s.skip(1)[j - 1]);
                }
            }
        } else {
            assert forall|j: int| 0 <= j < s.len() implies s[j].0 != key by {
                if j >= 1 {
                    assert(s.skip(1)[j - 1].0 != key);
                    assert(s[j] == s.skip(1)[j - 1]);
                }
            }
        }
    }
}

/// `assoc_find` answers the index of the first entry holding the key.
pub proof fn lemma_assoc_find_first<V>(s: Seq<(Seq<u8>, V)>, key: Seq<u8>, j: int)
    requires
        0 <= j < s.len(),
        s[j].0 == key,
        forall|t: int| 0 <= t < j ==> s[t].0 != key,
    ensures
        assoc_find(s, key) == j,
    decreases s.len(),
{
    if j == 0 {
    } else {
        assert(s.skip(1)[j - 1] == s[j]);
        assert forall|t: int| 0 <= t < j - 1 implies s.skip(1)[t].0 != key by {
            assert(s.skip(1)[t] == s[t + 1]);
        }
        lemma_assoc_find_first(s.skip(1), key, j - 1);
    }
}

/// Appending an entry leaves every earlier lookup alone; a key found
/// nowhere before is found at the end exactly when the new entry carries
/// it.
pub proof fn lemma_assoc_find_push<V>(s: Seq<(Seq<u8>, V)>, x: (Seq<u8>, V), q: Seq<u8>)
    ensures
        assoc_find(s, q) >= 0 ==> assoc_find(s.push(x), q) == assoc_find(s, q) && s.push(x)[
            assoc_find(s, q)
        ] == s[assoc_find(s, q)],
        assoc_find(s, q) < 0 && x.0 == q ==> assoc_find(s.push(x), q) == s.len(),
        assoc_find(s, q) < 0 && x.0 != q ==> assoc_find(s.push(x), q) < 0,
    decreases s.len(),
{
    lemma_assoc_find(s, q);
    if s.len() == 0 {
        assert(s.push(x)[0] == x);
        assert(s.push(x).skip(1) =~= Seq::<(Seq<u8>, V)>::empty());
        if x.0 != q {
            assert(assoc_find(s.push(x).skip(1), q) < 0);
            assert(assoc_find(s.push(x), q) < 0);
        }
    } else {
        assert(s.push(x)[0] == s[0]);
        assert(s.push(x).skip(1) =~= s.skip(1).push(x));
        lemma_assoc_find_push(s.skip(1), x, q);
        lemma_assoc_find(s.skip(1), q);
        if s[0].0 != q {
            if assoc_find(s, q) >= 0 {
                assert(assoc_find(s.skip(1), q) == assoc_find(s, q) - 1);
                assert(s[assoc_find(s, q)] == s.skip(1)[assoc_find(s, q) - 1]);
                assert(s.skip(1).push(x)[assoc_find(s, q) - 1] == s.skip(1)[assoc_find(s, q) - 1]);
                assert(s.push(x)[assoc_find(s, q)] == s.skip(1).push(x)[assoc_find(s, q) - 1]);
                assert(assoc_find(s.push(x), q) == 1 + assoc_find(s.skip(1).push(x), q));
            } else {
                assert(assoc_find(s.skip(1), q) < 0);
                if x.0 == q {
                    assert(assoc_find(s.skip(1).push(x), q) == s.skip(1).len());
                    assert(assoc_find(s.push(x), q) == 1 + assoc_find(s.skip(1).push(x), q));
                } else {
                    assert(assoc_find(s.skip(1).push(x), q) < 0);
                    assert(assoc_find(s.push(x), q) < 0);
                }
            }
        }
    }
}

/// Decides `lex_less` on byte vectors.
pub fn bytes_lt(a: &Vec<u8>, b: &Vec<u8>) -> (r: bool)
    ensures
        r == lex_less(a@, b@),
{
    let mut i: usize = 0;
    proof {
        assert(a@.skip(0) =~= a@);
        assert(b@.skip(0) =~= b@);
    }
    loop
        invariant
            i <= a.len(),
            i <= b.len(),
            forall|j: int| 0 <= j < i ==> a@[j] == b@[j],
            lex_less(a@, b@) == lex_less(a@.skip(i as int), b@.skip(i as int)),
        decreases a.len() - i,
    {
        if i == b.len() {
            proof {
                assert(b@.skip(i as int).len() == 0);
            }
            return false;
        }
        if i == a.len() {
            proof {
                assert(a@.skip(i as int).len() == 0);
                assert(b@.skip(i as int).len() > 0);
            }
            return true;
        }
        let x = a[i];
        let y = b[i];
        proof {
            assert(a@.skip(i as int)[0] == a@[i as int]);
            assert(b@.skip(i as int)[0] == b@[i as int]);
        }
        if x < y {
            return true;
        }
        if x > y {
            return false;
        }
        proof {
            assert(a@.skip(i as int).skip(1) =~= a@.skip(i as int + 1));
            assert(b@.skip(i as int).skip(1) =~= b@.skip(i as int + 1));
        }
        i += 1;
    }
}

} // verus!
