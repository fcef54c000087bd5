//! Lexicographic orders on sequences, the base of every ordering the store
//! relies on.

use vstd::prelude::*;

verus! {

/// The outcome of a three-way comparison.
#[derive(Clone, Copy, Debug, PartialEq, Eq, Structural)]
pub enum Rank {
    Below,
    Same,
    Above,
}

/// `a` and `b` agree on their first `k` items and `a` falls below `b` at
/// position `k`: either `a` ends there while `b` goes on, or `a`'s item is
/// the smaller one.
pub open spec fn lex_lt_at<T>(a: Seq<T>, b: Seq<T>, lt: spec_fn(T, T) -> bool, k: int) -> bool {
    &&& 0 <= k <= a.len()
    &&& k < b.len()
    &&& forall|j: int| 0 <= j < k ==> a[j] == b[j]
    &&& (k < a.len() ==> lt(a[k], b[k]))
}

/// Strict lexicographic order on sequences over the item order `lt`; a
/// proper prefix sorts before its extensions.
pub open spec fn lex_lt<T>(a: Seq<T>, b: Seq<T>, lt: spec_fn(T, T) -> bool) -> bool {
    exists|k: int| lex_lt_at(a, b, lt, k)
}

pub open spec fn irreflexive<T>(lt: spec_fn(T, T) -> bool) -> bool {
    forall|x: T| !#[trigger] lt(x, x)
}

pub open spec fn transitive<T>(lt: spec_fn(T, T) -> bool) -> bool {
    forall|x: T, y: T, z: T| #[trigger] lt(x, y) && #[trigger] lt(y, z) ==> lt(x, z)
}

pub open spec fn total<T>(lt: spec_fn(T, T) -> bool) -> bool {
    forall|x: T, y: T| #[trigger] lt(x, y) || x == y || lt(y, x)
}

/// No sequence sorts before itself.
pub proof fn lemma_lex_irreflexive<T>(a: Seq<T>, lt: spec_fn(T, T) -> bool)
    requires
        irreflexive(lt),
    ensures
        !lex_lt(a, a, lt),
{
    if lex_lt(a, a, lt) {
        let k = choose|k: int| lex_lt_at(a, a, lt, k);
        assert(k < a.len());
        assert(lt(a[k], a[k]));
    }
}

/// The lexicographic order is transitive when the item order is.
pub proof fn lemma_lex_transitive<T>(a: Seq<T>, b: Seq<T>, c: Seq<T>, lt: spec_fn(T, T) -> bool)
    requires
        irreflexive(lt),
        transitive(lt),
        lex_lt(a, b, lt),
        lex_lt(b, c, lt),
    ensures
        lex_lt(a, c, lt),
{
    let k1 = choose|k: int| lex_lt_at(a, b, lt, k);
    let k2 = choose|k: int| lex_lt_at(b, c, lt, k);
    if k1 < k2 {
        assert(lex_lt_at(a, c, lt, k1));
    } else if k1 == k2 {
        assert(k2 < b.len());
        assert(lex_lt_at(a, c, lt, k1));
    } else {
        assert(k2 < b.len());
        assert(a[k2] == b[k2]);
        assert(lex_lt_at(a, c, lt, k2));
    }
}

/// Two sequences that agree on their first `k` items, where `k` is the
/// shorter length or the first position at which they differ, are ordered
/// by what stands at `k`.
pub proof fn lemma_lex_decided_at<T>(a: Seq<T>, b: Seq<T>, lt: spec_fn(T, T) -> bool, k: int)
    requires
        irreflexive(lt),
        0 <= k <= a.len(),
        k <= b.len(),
        forall|j: int| 0 <= j < k ==> a[j] == b[j],
        k < a.len() && k < b.len() ==> a[k] != b[k],
    ensures
        lex_lt(a, b, lt) <==> (k < b.len() && (k < a.len() ==> lt(a[k], b[k]))),
        (k == a.len() && k == b.len()) <==> a == b,
{
    if k < b.len() && (k < a.len() ==> lt(a[k], b[k])) {
        assert(lex_lt_at(a, b, lt, k));
    }
    if lex_lt(a, b, lt) {
        let m = choose|m: int| lex_lt_at(a, b, lt, m);
        if m < k {
            assert(a[m] == b[m]);
            assert(m < a.len());
            assert(lt(a[m], b[m]));
        } else if m > k {
            assert(a[k] == b[k]);
        }
    }
    if k == a.len() && k == b.len() {
        assert(a =~= b);
    }
}

/// Any two sequences are equal or ordered one way, when that holds of
/// their items.
pub proof fn lemma_lex_total<T>(a: Seq<T>, b: Seq<T>, lt: spec_fn(T, T) -> bool)
    requires
        total(lt),
    ensures
        lex_lt(a, b, lt) || a == b || lex_lt(b, a, lt),
{
    lemma_lex_total_from(a, b, lt, 0);
}

proof fn lemma_lex_total_from<T>(a: Seq<T>, b: Seq<T>, lt: spec_fn(T, T) -> bool, k: int)
    requires
        total(lt),
        0 <= k <= a.len(),
        k <= b.len(),
        forall|j: int| 0 <= j < k ==> a[j] == b[j],
    ensures
        lex_lt(a, b, lt) || a == b || lex_lt(b, a, lt),
    decreases a.len() - k,
{
    if k == a.len() {
        if k == b.len() {
            assert(a =~= b);
        } else {
            assert(lex_lt_at(a, b, lt, k));
        }
    } else if k == b.len() {
        assert(lex_lt_at(b, a, lt, k));
    } else if a[k] == b[k] {
        lemma_lex_total_from(a, b, lt, k + 1);
    } else {
        assert(lt(a[k], b[k]) || lt(b[k], a[k]));
        if lt(a[k], b[k]) {
            assert(lex_lt_at(a, b, lt, k));
        } else {
            assert(lex_lt_at(b, a, lt, k));
        }
    }
}

/// Strict order on bytes.
pub open spec fn byte_lt() -> spec_fn(u8, u8) -> bool {
    |x: u8, y: u8| x < y
}

/// Byte strings ordered as unsigned left-justified octet strings: the
/// absence of a byte sorts before any byte.
pub open spec fn bytes_lt(a: Seq<u8>, b: Seq<u8>) -> bool {
    lex_lt(a, b, byte_lt())
}

/// The rank that a strict order `below`/`above` and equality give.
pub open spec fn rank_of(below: bool, same: bool) -> Rank {
    if below {
        Rank::Below
    } else if same {
        Rank::Same
    } else {
        Rank::Above
    }
}

/// Compares two byte strings.
pub fn compare_bytes(a: &Vec<u8>, b: &Vec<u8>) -> (r: Rank)
    ensures
        r == rank_of(bytes_lt(a@, b@), a@ == b@),
        r == Rank::Above <==> bytes_lt(b@, a@),
{
    let mut i: usize = 0;
    while i < a.len() && i < b.len()
        invariant
            i <= a.len(),
            i <= b.len(),
            forall|j: int| 0 <= j < i ==> a@[j] == b@[j],
        decreases a.len() - i,
    {
        if a[i] != b[i] {
            proof {
                lemma_lex_decided_at(a@, b@, byte_lt(), i as int);
                lemma_lex_decided_at(b@, a@, byte_lt(), i as int);
            }
            if a[i] < b[i] {
                return Rank::Below;
            } else {
                return Rank::Above;
            }
        }
        i += 1;
    }
    proof {
        lemma_lex_decided_at(a@, b@, byte_lt(), i as int);
        lemma_lex_decided_at(b@, a@, byte_lt(), i as int);
    }
    if i < b.len() {
        Rank::Below
    } else if i < a.len() {
        Rank::Above
    } else {
        Rank::Same
    }
}

} // verus!
