//! Domain names: fully qualified, case-insensitive sequences of labels, with
//! the root as the name without labels.

use vstd::prelude::*;
use vstd::std_specs::cmp::PartialEqSpecImpl;
use crate::order::{
    byte_lt, bytes_lt, compare_bytes, irreflexive, lemma_lex_decided_at, lemma_lex_irreflexive,
    lemma_lex_total, lemma_lex_transitive, lex_lt, rank_of, total, transitive, Rank,
};

verus! {

/// The largest number of bytes in one label.
pub const MAX_LABEL_LEN: usize = 63;

/// The largest number of bytes that a name takes in its wire form.
pub const MAX_NAME_LEN: usize = 255;

/// A byte with an upper-case ASCII letter folded to lower case.
pub open spec fn lower(b: u8) -> u8 {
    if 65 <= b && b <= 90 {
        (b + 32) as u8
    } else {
        b
    }
}

/// A label with its ASCII letters folded to lower case.
pub open spec fn lowercase(label: Seq<u8>) -> Seq<u8> {
    Seq::new(label.len(), |i: int| lower(label[i]))
}

/// A label sequence with every label folded to lower case.
pub open spec fn normalized(labels: Seq<Seq<u8>>) -> Seq<Seq<u8>> {
    Seq::new(labels.len(), |i: int| lowercase(labels[i]))
}

/// Whether no label holds an upper-case ASCII letter.
pub open spec fn is_normal(labels: Seq<Seq<u8>>) -> bool {
    forall|i: int, j: int|
        0 <= i < labels.len() && 0 <= j < labels[i].len() ==> !(65 <= #[trigger] labels[i][j]
            <= 90)
}

/// The number of bytes in the wire form of a name: a length byte before each
/// label and one for the root at the end.
pub open spec fn wire_len(labels: Seq<Seq<u8>>) -> nat
    decreases labels.len(),
{
    if labels.len() == 0 {
        1
    } else {
        wire_len(labels.drop_last()) + labels.last().len() + 1
    }
}

/// Whether a label sequence can be a domain name: no label is empty or
/// longer than `MAX_LABEL_LEN`, and the wire form fits in `MAX_NAME_LEN`.
pub open spec fn acceptable(labels: Seq<Seq<u8>>) -> bool {
    &&& forall|i: int| 0 <= i < labels.len() ==> 1 <= #[trigger] labels[i].len() <= MAX_LABEL_LEN
    &&& wire_len(labels) <= MAX_NAME_LEN
}

/// Whether `zone` is `name` or one of its ancestors: the labels of `zone`
/// are the last labels of `name`. The root is a zone of every name.
pub open spec fn is_zone_of(zone: Seq<Seq<u8>>, name: Seq<Seq<u8>>) -> bool {
    zone.is_suffix_of(name)
}

/// The order between labels.
pub open spec fn label_lt() -> spec_fn(Seq<u8>, Seq<u8>) -> bool {
    |x: Seq<u8>, y: Seq<u8>| bytes_lt(x, y)
}

/// Canonical order of names: labels are compared from the root downwards,
/// each as a byte string, and a name sorts before its descendants.
pub open spec fn name_lt(a: Seq<Seq<u8>>, b: Seq<Seq<u8>>) -> bool {
    lex_lt(a.reverse(), b.reverse(), label_lt())
}

pub proof fn lemma_label_order()
    ensures
        irreflexive(label_lt()),
        transitive(label_lt()),
        total(label_lt()),
{
    assert forall|x: Seq<u8>, y: Seq<u8>| #[trigger] label_lt()(x, y) || x == y || label_lt()(
        y,
        x,
    ) by {
        lemma_lex_total(x, y, byte_lt());
    }
    assert forall|x: Seq<u8>| !#[trigger] label_lt()(x, x) by {
        lemma_lex_irreflexive(x, byte_lt());
    }
    assert forall|x: Seq<u8>, y: Seq<u8>, z: Seq<u8>| #[trigger]
        label_lt()(x, y) && #[trigger] label_lt()(y, z) implies label_lt()(x, z) by {
        lemma_lex_transitive(x, y, z, byte_lt());
    }
}

/// No name sorts before itself.
pub proof fn lemma_name_lt_irreflexive(a: Seq<Seq<u8>>)
    ensures
        !name_lt(a, a),
{
    lemma_label_order();
    lemma_lex_irreflexive(a.reverse(), label_lt());
}

/// The order of names is transitive.
pub proof fn lemma_name_lt_transitive(a: Seq<Seq<u8>>, b: Seq<Seq<u8>>, c: Seq<Seq<u8>>)
    requires
        name_lt(a, b),
        name_lt(b, c),
    ensures
        name_lt(a, c),
{
    lemma_label_order();
    lemma_lex_transitive(a.reverse(), b.reverse(), c.reverse(), label_lt());
}

/// Any two names are equal or ordered one way.
pub proof fn lemma_name_lt_total(a: Seq<Seq<u8>>, b: Seq<Seq<u8>>)
    ensures
        name_lt(a, b) || a == b || name_lt(b, a),
{
    lemma_label_order();
    lemma_lex_total(a.reverse(), b.reverse(), label_lt());
    if a.reverse() == b.reverse() {
        lemma_reverse_injective(a, b);
    }
}

/// Names that read the same from the root are the same.
pub proof fn lemma_reverse_injective<T>(a: Seq<T>, b: Seq<T>)
    requires
        a.reverse() == b.reverse(),
    ensures
        a == b,
{
    assert(a.reverse().len() == a.len());
    assert(b.reverse().len() == b.len());
    assert forall|i: int| 0 <= i < a.len() implies a[i] == b[i] by {
        assert(a.reverse()[a.len() - 1 - i] == a[i]);
        assert(b.reverse()[b.len() - 1 - i] == b[i]);
    }
    assert(a =~= b);
}

/// The wire length depends on the labels' lengths alone.
pub proof fn lemma_wire_len_by_shape(a: Seq<Seq<u8>>, b: Seq<Seq<u8>>)
    requires
        a.len() == b.len(),
        forall|i: int| 0 <= i < a.len() ==> a[i].len() == b[i].len(),
    ensures
        wire_len(a) == wire_len(b),
    decreases a.len(),
{
    if a.len() > 0 {
        lemma_wire_len_by_shape(a.drop_last(), b.drop_last());
    }
}

/// A prefix of a label sequence has no longer a wire form than the whole.
pub proof fn lemma_wire_len_prefix(a: Seq<Seq<u8>>, n: int)
    requires
        0 <= n <= a.len(),
    ensures
        wire_len(a.take(n)) <= wire_len(a),
    decreases a.len(),
{
    if n < a.len() {
        lemma_wire_len_prefix(a.drop_last(), n);
        assert(a.drop_last().take(n) =~= a.take(n));
    } else {
        assert(a.take(n) =~= a);
    }
}

/// The label sequence that a vector of byte vectors holds.
pub open spec fn label_seqs(labels: Vec<Vec<u8>>) -> Seq<Seq<u8>> {
    Seq::new(labels@.len(), |i: int| labels@[i]@)
}

/// A domain name. It holds its labels as written, the leftmost first, with
/// ASCII letters in lower case, so that two names are equal exactly when
/// their label sequences are.
#[derive(Debug)]
pub struct Name {
    labels: Vec<Vec<u8>>,
}

impl View for Name {
    type V = Seq<Seq<u8>>;

    closed spec fn view(&self) -> Seq<Seq<u8>> {
        label_seqs(self.labels)
    }
}

fn lower_byte(b: u8) -> (r: u8)
    ensures
        r == lower(b),
{
    if b >= 65 && b <= 90 {
        b + 32
    } else {
        b
    }
}

fn same_bytes(a: &Vec<u8>, b: &Vec<u8>) -> (r: bool)
    ensures
        r == (a@ == b@),
{
    if a.len() != b.len() {
        return false;
    }
    let mut i: usize = 0;
    while i < a.len()
        invariant
            i <= a.len(),
            a.len() == b.len(),
            forall|j: int| 0 <= j < i ==> a@[j] == b@[j],
        decreases a.len() - i,
    {
        if a[i] != b[i] {
            return false;
        }
        i += 1;
    }
    assert(a@ =~= b@);
    true
}

fn copy_bytes(a: &Vec<u8>) -> (r: Vec<u8>)
    ensures
        r@ == a@,
{
    let mut out: Vec<u8> = Vec::new();
    let mut i: usize = 0;
    while i < a.len()
        invariant
            i <= a.len(),
            out@ == a@.take(i as int),
        decreases a.len() - i,
    {
        out.push(a[i]);
        assert(a@.take(i as int).push(a@[i as int]) =~= a@.take(i + 1));
        i += 1;
    }
    assert(a@.take(a.len() as int) =~= a@);
    out
}

impl Name {
    #[verifier::type_invariant]
    spec fn inv(self) -> bool {
        acceptable(self@) && is_normal(self@)
    }

    /// The root: the name without labels.
    pub fn root() -> (r: Name)
        ensures
            r@ == Seq::<Seq<u8>>::empty(),
    {
        let labels: Vec<Vec<u8>> = Vec::new();
        assert(label_seqs(labels) =~= Seq::<Seq<u8>>::empty());
        Name { labels }
    }

    /// Makes a name of labels, the leftmost first, folding ASCII letters to
    /// lower case; `None` when the labels cannot be a domain name.
    pub fn from_labels(labels: Vec<Vec<u8>>) -> (r: Option<Name>)
        ensures
            r is Some <==> acceptable(label_seqs(labels)),
            r matches Some(n) ==> n@ == normalized(label_seqs(labels)),
    {
        let ghost src = label_seqs(labels);
        let mut out: Vec<Vec<u8>> = Vec::new();
        let mut total: usize = 1;
        let mut i: usize = 0;
        while i < labels.len()
            invariant
                i <= labels.len(),
                src == label_seqs(labels),
                out@.len() == i,
                label_seqs(out) == normalized(src.take(i as int)),
                total == wire_len(src.take(i as int)),
                total <= MAX_NAME_LEN,
                forall|k: int| 0 <= k < i ==> 1 <= #[trigger] src[k].len() <= MAX_LABEL_LEN,
            decreases labels.len() - i,
        {
            let label = &labels[i];
            assert(src[i as int] == label@);
            assert(src.take(i + 1).drop_last() =~= src.take(i as int));
            if label.len() == 0 || label.len() > MAX_LABEL_LEN {
                return None;
            }
            if total + label.len() + 1 > MAX_NAME_LEN {
                proof {
                    lemma_wire_len_prefix(src, i + 1);
                }
                return None;
            }
            let mut folded: Vec<u8> = Vec::new();
            let mut j: usize = 0;
            while j < label.len()
                invariant
                    j <= label.len(),
                    folded@ == lowercase(label@).take(j as int),
                decreases label.len() - j,
            {
                folded.push(lower_byte(label[j]));
                assert(lowercase(label@).take(j as int).push(lower(label@[j as int]))
                    =~= lowercase(label@).take(j + 1));
                j += 1;
            }
            assert(folded@ =~= lowercase(label@));
            let ghost before = label_seqs(out);
            out.push(folded);
            total = total + label.len() + 1;
            assert forall|k: int| 0 <= k < i + 1 implies label_seqs(out)[k] == lowercase(
                src[k],
            ) by {
                if k < i {
                    assert(label_seqs(out)[k] == before[k]);
                    assert(before[k] == lowercase(src.take(i as int)[k]));
                }
            }
            assert(label_seqs(out) =~= normalized(src.take(i + 1)));
            i += 1;
        }
        assert(src.take(i as int) =~= src);
        proof {
            lemma_wire_len_by_shape(normalized(src), src);
        }
        Some(Name { labels: out })
    }

    /// The labels, the leftmost first. They are always an acceptable label
    /// sequence in lower case.
    pub fn labels(&self) -> (r: &Vec<Vec<u8>>)
        ensures
            label_seqs(*r) == self@,
            acceptable(self@),
            is_normal(self@),
    {
        proof {
            use_type_invariant(self);
        }
        &self.labels
    }

    /// The number of labels; the root has none.
    pub fn num_labels(&self) -> (n: usize)
        ensures
            n == self@.len(),
    {
        self.labels.len()
    }

    /// Whether this is the root.
    pub fn is_root(&self) -> (r: bool)
        ensures
            r == (self@.len() == 0),
    {
        self.labels.len() == 0
    }

    /// Whether the two names are the same.
    pub fn same(&self, other: &Name) -> (r: bool)
        ensures
            r == (self@ == other@),
    {
        assert(self@.len() == self.labels.len() && other@.len() == other.labels.len());
        if self.labels.len() != other.labels.len() {
            return false;
        }
        let mut i: usize = 0;
        while i < self.labels.len()
            invariant
                i <= self.labels.len(),
                self.labels.len() == other.labels.len(),
                forall|j: int| 0 <= j < i ==> self@[j] == other@[j],
            decreases self.labels.len() - i,
        {
            if !same_bytes(&self.labels[i], &other.labels[i]) {
                assert(self@[i as int] != other@[i as int]);
                return false;
            }
            i += 1;
        }
        assert(self@ =~= other@);
        true
    }

    /// Whether this name is `name` or an ancestor of it.
    pub fn zone_of(&self, name: &Name) -> (r: bool)
        ensures
            r == is_zone_of(self@, name@),
    {
        let n = self.labels.len();
        let m = name.labels.len();
        if n > m {
            return false;
        }
        let ghost tail = name@.subrange(m - n, m as int);
        let mut i: usize = 0;
        while i < n
            invariant
                i <= n,
                n <= m,
                n == self.labels.len(),
                m == name.labels.len(),
                tail == name@.subrange(m - n, m as int),
                forall|j: int| 0 <= j < i ==> self@[j] == tail[j],
            decreases n - i,
        {
            if !same_bytes(&self.labels[i], &name.labels[m - n + i]) {
                assert(self@[i as int] != tail[i as int]);
                return false;
            }
            i += 1;
        }
        assert(self@ =~= tail);
        true
    }

    /// Compares two names in the canonical order.
    pub fn compare(&self, other: &Name) -> (r: Rank)
        ensures
            r == rank_of(name_lt(self@, other@), self@ == other@),
            r == Rank::Above <==> name_lt(other@, self@),
    {
        let n = self.labels.len();
        let m = other.labels.len();
        let ghost a = self@.reverse();
        let ghost b = other@.reverse();
        proof {
            lemma_label_order();
            if self@ == other@ {
                lemma_name_lt_irreflexive(self@);
            }
            if a == b {
                lemma_reverse_injective(self@, other@);
            }
        }
        let mut i: usize = 0;
        while i < n && i < m
            invariant
                i <= n,
                i <= m,
                n == self.labels.len(),
                m == other.labels.len(),
                a == self@.reverse(),
                b == other@.reverse(),
                a.len() == n,
                b.len() == m,
                irreflexive(label_lt()),
                forall|j: int| 0 <= j < i ==> a[j] == b[j],
            decreases n - i,
        {
            let c = compare_bytes(&self.labels[n - 1 - i], &other.labels[m - 1 - i]);
            assert(a[i as int] == self.labels[n - 1 - i]@);
            assert(b[i as int] == other.labels[m - 1 - i]@);
            match c {
                Rank::Below => {
                    proof {
                        lemma_lex_irreflexive(a[i as int], byte_lt());
                        lemma_lex_decided_at(a, b, label_lt(), i as int);
                        lemma_lex_decided_at(b, a, label_lt(), i as int);
                        if name_lt(other@, self@) {
                            lemma_lex_transitive(a[i as int], b[i as int], a[i as int], byte_lt());
                        }
                    }
                    return Rank::Below;
                },
                Rank::Above => {
                    proof {
                        lemma_lex_irreflexive(a[i as int], byte_lt());
                        lemma_lex_decided_at(a, b, label_lt(), i as int);
                        lemma_lex_decided_at(b, a, label_lt(), i as int);
                        if name_lt(self@, other@) {
                            lemma_lex_transitive(a[i as int], b[i as int], a[i as int], byte_lt());
                        }
                    }
                    return Rank::Above;
                },
                Rank::Same => {},
            }
            i += 1;
        }
        proof {
            lemma_lex_decided_at(a, b, label_lt(), i as int);
            lemma_lex_decided_at(b, a, label_lt(), i as int);
        }
        if i < m {
            Rank::Below
        } else if i < n {
            Rank::Above
        } else {
            Rank::Same
        }
    }
}

impl Clone for Name {
    fn clone(&self) -> (r: Name)
        ensures
            r@ == self@,
    {
        proof {
            use_type_invariant(self);
        }
        let mut out: Vec<Vec<u8>> = Vec::new();
        let mut i: usize = 0;
        while i < self.labels.len()
            invariant
                i <= self.labels.len(),
                out@.len() == i,
                self@.len() == self.labels.len(),
                label_seqs(out) == self@.take(i as int),
            decreases self.labels.len() - i,
        {
            let ghost before = label_seqs(out);
            out.push(copy_bytes(&self.labels[i]));
            assert forall|k: int| 0 <= k < i + 1 implies label_seqs(out)[k] == self@[k] by {
                if k < i {
                    assert(label_seqs(out)[k] == before[k]);
                }
            }
            assert(label_seqs(out) =~= self@.take(i + 1));
            i += 1;
        }
        assert(self@.take(i as int) =~= self@);
        Name { labels: out }
    }
}

impl PartialEq for Name {
    fn eq(&self, other: &Name) -> (r: bool) {
        self.same(other)
    }
}

impl PartialEqSpecImpl for Name {
    open spec fn obeys_eq_spec() -> bool {
        true
    }

    open spec fn eq_spec(&self, other: &Name) -> bool {
        self@ == other@
    }
}

impl Eq for Name {

}

} // verus!
