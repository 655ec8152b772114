//! Total order on key types.
//!
//! The reconciliation engine keeps its entries sorted by key.  A key type
//! supplies a total order on its abstract view together with an executable
//! three-way comparison that decides that order.

use vstd::prelude::*;
use vstd::string::StringSliceAdditionalSpecFns;
use vstd::utf8::encode_utf8;
use vstd::utf8::encode_utf8_decode_utf8;

verus! {

/// Lexicographic order on byte sequences: the empty sequence comes first,
/// then order by the first differing byte, a proper prefix before its
/// extensions.
pub open spec fn lex_le(a: Seq<u8>, b: Seq<u8>) -> bool
    decreases a.len(),
{
    if a.len() == 0 {
        true
    } else if b.len() == 0 {
        false
    } else if a[0] < b[0] {
        true
    } else if a[0] > b[0] {
        false
    } else {
        lex_le(a.drop_first(), b.drop_first())
    }
}

pub proof fn lemma_lex_le_refl(a: Seq<u8>)
    ensures
        lex_le(a, a),
    decreases a.len(),
{
    if a.len() > 0 {
        lemma_lex_le_refl(a.drop_first());
    }
}

pub proof fn lemma_lex_le_trans(a: Seq<u8>, b: Seq<u8>, c: Seq<u8>)
    requires
        lex_le(a, b),
        lex_le(b, c),
    ensures
        lex_le(a, c),
    decreases a.len(),
{
    if a.len() > 0 && b.len() > 0 && c.len() > 0 && a[0] == b[0] && b[0] == c[0] {
        lemma_lex_le_trans(a.drop_first(), b.drop_first(), c.drop_first());
    }
}

pub proof fn lemma_lex_le_antisym(a: Seq<u8>, b: Seq<u8>)
    requires
        lex_le(a, b),
        lex_le(b, a),
    ensures
        a == b,
    decreases a.len(),
{
    if a.len() == 0 {
        assert(b.len() == 0);
        assert(a =~= b);
    } else {
        assert(a[0] == b[0]);
        lemma_lex_le_antisym(a.drop_first(), b.drop_first());
        assert(a.len() == b.len());
        assert forall|i: int| 0 <= i < a.len() implies a[i] == b[i] by {
            if i >= 1 {
                assert(a[i] == a.drop_first()[i - 1]);
                assert(b[i] == b.drop_first()[i - 1]);
            }
        }
        assert(a =~= b);
    }
}

pub proof fn lemma_lex_le_total(a: Seq<u8>, b: Seq<u8>)
    ensures
        lex_le(a, b) || lex_le(b, a),
    decreases a.len(),
{
    if a.len() > 0 && b.len() > 0 && a[0] == b[0] {
        lemma_lex_le_total(a.drop_first(), b.drop_first());
    }
}

/// Relates the lexicographic order to a scan that has found the bytes equal
/// up to position `i`: the order is then decided at `i`.
proof fn lemma_lex_at(a: Seq<u8>, b: Seq<u8>, i: int)
    requires
        0 <= i <= a.len(),
        i <= b.len(),
        forall|j: int| 0 <= j < i ==> a[j] == b[j],
    ensures
        (i < a.len() && i < b.len() && a[i] < b[i]) ==> (lex_le(a, b) && !lex_le(b, a)),
        (i == a.len() && i < b.len()) ==> (lex_le(a, b) && !lex_le(b, a)),
        (i == a.len() && i == b.len()) ==> a == b,
    decreases i,
{
    if i == 0 {
        if i == a.len() && i == b.len() {
            assert(a =~= b);
        }
    } else {
        assert(a[0] == b[0]);
        assert(forall|j: int|
            0 <= j < i - 1 ==> a.drop_first()[j] == a[j + 1] && b.drop_first()[j] == b[j + 1]);
        lemma_lex_at(a.drop_first(), b.drop_first(), i - 1);
        if i == a.len() && i == b.len() {
            assert(a =~= b) by {
                assert(forall|j: int|
                    1 <= j < a.len() ==> a[j] == a.drop_first()[j - 1] && b[j]
                        == b.drop_first()[j - 1]);
            }
        }
        if i < a.len() && i < b.len() && a[i] < b[i] {
            assert(a.drop_first()[i - 1] < b.drop_first()[i - 1]);
        }
    }
}

/// Outcome of a three-way key comparison.
pub enum KeyCmp {
    Lt,
    Eq,
    Gt,
}

/// A key type usable by the keyed map and the reconciliation engine.
///
/// `key_le` is a total order on the view type `Self::V`; the four lemmas
/// state the order laws, and `key_cmp` decides the order at run time.
/// `key_dup` produces a value with the same view, so that keys can be
/// recorded in several places (items, pending events) at once.
pub trait DiffKey: View + Sized {
    /// Total order on key views.
    spec fn key_le(a: Self::V, b: Self::V) -> bool;

    proof fn lemma_le_refl(a: Self::V)
        ensures
            Self::key_le(a, a),
    ;

    proof fn lemma_le_trans(a: Self::V, b: Self::V, c: Self::V)
        requires
            Self::key_le(a, b),
            Self::key_le(b, c),
        ensures
            Self::key_le(a, c),
    ;

    proof fn lemma_le_antisym(a: Self::V, b: Self::V)
        requires
            Self::key_le(a, b),
            Self::key_le(b, a),
        ensures
            a == b,
    ;

    proof fn lemma_le_total(a: Self::V, b: Self::V)
        ensures
            Self::key_le(a, b) || Self::key_le(b, a),
    ;

    /// Decide the order of two keys.
    fn key_cmp(&self, other: &Self) -> (c: KeyCmp)
        ensures
            match c {
                KeyCmp::Lt => Self::key_le(self@, other@) && self@ != other@,
                KeyCmp::Eq => self@ == other@,
                KeyCmp::Gt => Self::key_le(other@, self@) && self@ != other@,
            },
    ;

    /// Produce a key with the same view.
    fn key_dup(&self) -> (r: Self)
        ensures
            r@ == self@,
    ;
}

impl DiffKey for u64 {
    open spec fn key_le(a: u64, b: u64) -> bool {
        a <= b
    }

    proof fn lemma_le_refl(a: u64) {
    }

    proof fn lemma_le_trans(a: u64, b: u64, c: u64) {
    }

    proof fn lemma_le_antisym(a: u64, b: u64) {
    }

    proof fn lemma_le_total(a: u64, b: u64) {
    }

    fn key_cmp(&self, other: &Self) -> (c: KeyCmp) {
        if *self < *other {
            KeyCmp::Lt
        } else if *self == *other {
            KeyCmp::Eq
        } else {
            KeyCmp::Gt
        }
    }

    fn key_dup(&self) -> (r: Self) {
        *self
    }
}

impl DiffKey for String {
    /// Strings are ordered lexicographically by their encoded bytes.
    open spec fn key_le(a: Seq<char>, b: Seq<char>) -> bool {
        lex_le(encode_utf8(a), encode_utf8(b))
    }

    proof fn lemma_le_refl(a: Seq<char>) {
        lemma_lex_le_refl(encode_utf8(a));
    }

    proof fn lemma_le_trans(a: Seq<char>, b: Seq<char>, c: Seq<char>) {
        lemma_lex_le_trans(encode_utf8(a), encode_utf8(b), encode_utf8(c));
    }

    proof fn lemma_le_antisym(a: Seq<char>, b: Seq<char>) {
        lemma_lex_le_antisym(encode_utf8(a), encode_utf8(b));
        encode_utf8_decode_utf8(a);
        encode_utf8_decode_utf8(b);
    }

    proof fn lemma_le_total(a: Seq<char>, b: Seq<char>) {
        lemma_lex_le_total(encode_utf8(a), encode_utf8(b));
    }

    fn key_cmp(&self, other: &Self) -> (c: KeyCmp) {
        let a = self.as_str().as_bytes();
        let b = other.as_str().as_bytes();
        let ghost av = encode_utf8(self@);
        let ghost bv = encode_utf8(other@);
        let na = a.len();
        let nb = b.len();
        let n = if na < nb {
            na
        } else {
            nb
        };
        let mut i: usize = 0;
        while i < n
            invariant
                av == encode_utf8(self@),
                bv == encode_utf8(other@),
                a@ == av,
                b@ == bv,
                na == av.len(),
                nb == bv.len(),
                n == if na < nb {
                    na
                } else {
                    nb
                },
                i <= n,
                forall|j: int| 0 <= j < i ==> av[j] == bv[j],
            decreases n - i,
        {
            let x = a[i];
            let y = b[i];
            if x < y {
                proof {
                    lemma_lex_at(av, bv, i as int);
                    if self@ == other@ {
                        lemma_lex_le_refl(av);
                    }
                }
                return KeyCmp::Lt;
            }
            if y < x {
                proof {
                    lemma_lex_at(bv, av, i as int);
                    if self@ == other@ {
                        lemma_lex_le_refl(av);
                    }
                }
                return KeyCmp::Gt;
            }
            i = i + 1;
        }
        if na < nb {
            proof {
                lemma_lex_at(av, bv, na as int);
                if self@ == other@ {
                    lemma_lex_le_refl(av);
                }
            }
            KeyCmp::Lt
        } else if nb < na {
            proof {
                lemma_lex_at(bv, av, nb as int);
                if self@ == other@ {
                    lemma_lex_le_refl(av);
                }
            }
            KeyCmp::Gt
        } else {
            proof {
                lemma_lex_at(av, bv, na as int);
                // equal encodings decode back to equal character sequences
                encode_utf8_decode_utf8(self@);
                encode_utf8_decode_utf8(other@);
            }
            KeyCmp::Eq
        }
    }

    fn key_dup(&self) -> (r: Self) {
        self.clone()
    }
}

} // verus!
