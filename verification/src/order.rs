//! Ordering and grouping by keys: a stable sort of positions by key, and
//! the grouping of positions by equal keys in ascending key order (what a
//! `BTreeMap` from key to the list of positions holds).
use vstd::prelude::*;

use crate::text::{
    lemma_seq_lt_asymmetric, lemma_seq_lt_irreflexive, lemma_seq_lt_total,
    lemma_seq_lt_transitive, seq_lt, copy_str, str_eq, str_lt,
};

verus! {

/// A key that values can be ordered and grouped by.  `Model` is the
/// mathematical value of a key; `model_lt` is a strict total order on it.
pub trait OrderKey: Sized {
    type Model;

    spec fn model(&self) -> Self::Model;

    spec fn model_lt(a: Self::Model, b: Self::Model) -> bool;

    proof fn lemma_model_order(a: Self::Model, b: Self::Model, c: Self::Model)
        ensures
            !Self::model_lt(a, a),
            Self::model_lt(a, b) && Self::model_lt(b, c) ==> Self::model_lt(a, c),
            a == b || Self::model_lt(a, b) || Self::model_lt(b, a),
    ;

    fn key_lt(&self, other: &Self) -> (r: bool)
        ensures
            r == Self::model_lt(self.model(), other.model()),
    ;

    fn key_eq(&self, other: &Self) -> (r: bool)
        ensures
            r == (self.model() == other.model()),
    ;

    fn duplicate(&self) -> (r: Self)
        ensures
            r.model() == self.model(),
    ;
}

impl OrderKey for u16 {
    type Model = u16;

    open spec fn model(&self) -> u16 {
        *self
    }

    open spec fn model_lt(a: u16, b: u16) -> bool {
        a < b
    }

    proof fn lemma_model_order(a: u16, b: u16, c: u16) {
    }

    fn key_lt(&self, other: &Self) -> (r: bool) {
        *self < *other
    }

    fn key_eq(&self, other: &Self) -> (r: bool) {
        *self == *other
    }

    fn duplicate(&self) -> (r: Self) {
        *self
    }
}

impl OrderKey for u64 {
    type Model = u64;

    open spec fn model(&self) -> u64 {
        *self
    }

    open spec fn model_lt(a: u64, b: u64) -> bool {
        a < b
    }

    proof fn lemma_model_order(a: u64, b: u64, c: u64) {
    }

    fn key_lt(&self, other: &Self) -> (r: bool) {
        *self < *other
    }

    fn key_eq(&self, other: &Self) -> (r: bool) {
        *self == *other
    }

    fn duplicate(&self) -> (r: Self) {
        *self
    }
}

impl OrderKey for usize {
    type Model = usize;

    open spec fn model(&self) -> usize {
        *self
    }

    open spec fn model_lt(a: usize, b: usize) -> bool {
        a < b
    }

    proof fn lemma_model_order(a: usize, b: usize, c: usize) {
    }

    fn key_lt(&self, other: &Self) -> (r: bool) {
        *self < *other
    }

    fn key_eq(&self, other: &Self) -> (r: bool) {
        *self == *other
    }

    fn duplicate(&self) -> (r: Self) {
        *self
    }
}

impl OrderKey for i128 {
    type Model = i128;

    open spec fn model(&self) -> i128 {
        *self
    }

    open spec fn model_lt(a: i128, b: i128) -> bool {
        a < b
    }

    proof fn lemma_model_order(a: i128, b: i128, c: i128) {
    }

    fn key_lt(&self, other: &Self) -> (r: bool) {
        *self < *other
    }

    fn key_eq(&self, other: &Self) -> (r: bool) {
        *self == *other
    }

    fn duplicate(&self) -> (r: Self) {
        *self
    }
}

impl OrderKey for u128 {
    type Model = u128;

    open spec fn model(&self) -> u128 {
        *self
    }

    open spec fn model_lt(a: u128, b: u128) -> bool {
        a < b
    }

    proof fn lemma_model_order(a: u128, b: u128, c: u128) {
    }

    fn key_lt(&self, other: &Self) -> (r: bool) {
        *self < *other
    }

    fn key_eq(&self, other: &Self) -> (r: bool) {
        *self == *other
    }

    fn duplicate(&self) -> (r: Self) {
        *self
    }
}

impl OrderKey for String {
    type Model = Seq<char>;

    open spec fn model(&self) -> Seq<char> {
        self@
    }

    open spec fn model_lt(a: Seq<char>, b: Seq<char>) -> bool {
        seq_lt(a, b)
    }

    proof fn lemma_model_order(a: Seq<char>, b: Seq<char>, c: Seq<char>) {
        lemma_seq_lt_irreflexive(a);
        if seq_lt(a, b) && seq_lt(b, c) {
            lemma_seq_lt_transitive(a, b, c);
        }
        lemma_seq_lt_total(a, b);
    }

    fn key_lt(&self, other: &Self) -> (r: bool) {
        str_lt(self.as_str(), other.as_str())
    }

    fn key_eq(&self, other: &Self) -> (r: bool) {
        str_eq(self.as_str(), other.as_str())
    }

    fn duplicate(&self) -> (r: Self) {
        copy_str(self.as_str())
    }
}

/// A pair of strings, ordered as Rust orders the tuple `(String, String)`:
/// by the first component, then by the second.
#[derive(Debug, Clone)]
pub struct StringPair {
    /// The component compared first.
    pub first: String,
    /// The component compared when the first ones are equal.
    pub second: String,
}

/// The tuple order on pairs of character sequences.
pub open spec fn pair_lt(a: (Seq<char>, Seq<char>), b: (Seq<char>, Seq<char>)) -> bool {
    seq_lt(a.0, b.0) || (a.0 == b.0 && seq_lt(a.1, b.1))
}

impl OrderKey for StringPair {
    type Model = (Seq<char>, Seq<char>);

    open spec fn model(&self) -> (Seq<char>, Seq<char>) {
        (self.first@, self.second@)
    }

    open spec fn model_lt(a: (Seq<char>, Seq<char>), b: (Seq<char>, Seq<char>)) -> bool {
        pair_lt(a, b)
    }

    proof fn lemma_model_order(
        a: (Seq<char>, Seq<char>),
        b: (Seq<char>, Seq<char>),
        c: (Seq<char>, Seq<char>),
    ) {
        lemma_seq_lt_irreflexive(a.0);
        lemma_seq_lt_irreflexive(a.1);
        lemma_seq_lt_total(a.0, b.0);
        lemma_seq_lt_total(a.1, b.1);
        lemma_seq_lt_asymmetric(a.0, b.0);
        if seq_lt(a.0, b.0) && seq_lt(b.0, c.0) {
            lemma_seq_lt_transitive(a.0, b.0, c.0);
        }
        if seq_lt(a.1, b.1) && seq_lt(b.1, c.1) {
            lemma_seq_lt_transitive(a.1, b.1, c.1);
        }
    }

    fn key_lt(&self, other: &Self) -> (r: bool) {
        str_lt(self.first.as_str(), other.first.as_str()) || (str_eq(
            self.first.as_str(),
            other.first.as_str(),
        ) && str_lt(self.second.as_str(), other.second.as_str()))
    }

    fn key_eq(&self, other: &Self) -> (r: bool) {
        str_eq(self.first.as_str(), other.first.as_str()) && str_eq(
            self.second.as_str(),
            other.second.as_str(),
        )
    }

    fn duplicate(&self) -> (r: Self) {
        StringPair { first: copy_str(self.first.as_str()), second: copy_str(self.second.as_str()) }
    }
}

// ---------------------------------------------------------------------------
// Stable sorting of positions
// ---------------------------------------------------------------------------

/// The models of a sequence of keys.
pub open spec fn models<K: OrderKey>(keys: Seq<K>) -> Seq<K::Model> {
    keys.map_values(|k: K| k.model())
}

/// Position `x` comes before position `y` when sorting `ms` stably,
/// ascending (`descending == false`) or descending: by key, and by
/// position among equal keys.
pub open spec fn comes_before<M>(
    lt: spec_fn(M, M) -> bool,
    ms: Seq<M>,
    descending: bool,
    x: int,
    y: int,
) -> bool {
    if descending {
        lt(ms[y], ms[x]) || (ms[x] == ms[y] && x < y)
    } else {
        lt(ms[x], ms[y]) || (ms[x] == ms[y] && x < y)
    }
}

/// `order` lists every position of `ms` exactly once, in the stable
/// sorted order.
pub open spec fn is_stable_order<M>(
    lt: spec_fn(M, M) -> bool,
    ms: Seq<M>,
    descending: bool,
    order: Seq<usize>,
) -> bool {
    &&& order.len() == ms.len()
    &&& order.no_duplicates()
    &&& forall|i: int| 0 <= i < order.len() ==> #[trigger] order[i] < ms.len()
    &&& forall|i: int, j: int|
        0 <= i < j < order.len() ==> comes_before(lt, ms, descending, order[i] as int, order[j] as int)
}

proof fn lemma_comes_before<K: OrderKey>(ms: Seq<K::Model>, descending: bool, x: int, y: int, z: int)
    requires
        0 <= x < ms.len(),
        0 <= y < ms.len(),
        0 <= z < ms.len(),
    ensures
        x != y ==> (comes_before(|a, b| K::model_lt(a, b), ms, descending, x, y) || comes_before(
            |a, b| K::model_lt(a, b),
            ms,
            descending,
            y,
            x,
        )),
        !comes_before(|a, b| K::model_lt(a, b), ms, descending, x, x),
        comes_before(|a, b| K::model_lt(a, b), ms, descending, x, y) && comes_before(
            |a, b| K::model_lt(a, b),
            ms,
            descending,
            y,
            z,
        ) ==> comes_before(|a, b| K::model_lt(a, b), ms, descending, x, z),
        comes_before(|a, b| K::model_lt(a, b), ms, descending, x, y) ==> !comes_before(
            |a, b| K::model_lt(a, b),
            ms,
            descending,
            y,
            x,
        ),
{
    K::lemma_model_order(ms[x], ms[y], ms[z]);
    K::lemma_model_order(ms[y], ms[x], ms[z]);
    K::lemma_model_order(ms[z], ms[y], ms[x]);
    K::lemma_model_order(ms[x], ms[z], ms[y]);
    K::lemma_model_order(ms[y], ms[z], ms[x]);
    K::lemma_model_order(ms[z], ms[x], ms[y]);
    K::lemma_model_order(ms[x], ms[y], ms[x]);
    K::lemma_model_order(ms[y], ms[x], ms[y]);
}

/// Whether position `m` comes before the earlier position `q`.
fn later_goes_first<K: OrderKey>(keys: &Vec<K>, descending: bool, m: usize, q: usize) -> (r: bool)
    requires
        q < m < keys@.len(),
    ensures
        r == comes_before(|a, b| K::model_lt(a, b), models(keys@), descending, m as int, q as int),
{
    if descending {
        keys[q].key_lt(&keys[m])
    } else {
        keys[m].key_lt(&keys[q])
    }
}

/// The positions of `keys`, stably sorted by key (ascending, or
/// descending when `descending`).
pub fn stable_order<K: OrderKey>(keys: &Vec<K>, descending: bool) -> (order: Vec<usize>)
    ensures
        is_stable_order(|a, b| K::model_lt(a, b), models(keys@), descending, order@),
{
    let ghost ms = models(keys@);
    let ghost lt = |a, b| K::model_lt(a, b);
    let mut order: Vec<usize> = Vec::new();
    let mut m: usize = 0;
    while m < keys.len()
        invariant
            m <= keys@.len(),
            ms == models(keys@),
            lt == (|a, b| K::model_lt(a, b)),
            order@.len() == m,
            order@.no_duplicates(),
            forall|i: int| 0 <= i < order@.len() ==> #[trigger] order@[i] < m,
            forall|i: int, j: int|
                0 <= i < j < order@.len() ==> comes_before(lt, ms, descending, order@[i] as int, order@[j] as int),
        decreases keys@.len() - m,
    {
        // Find where position `m` goes: after every position that comes
        // before it.
        let mut p: usize = order.len();
        while p > 0 && later_goes_first(keys, descending, m, order[p - 1])
            invariant
                p <= order@.len(),
                m < keys@.len(),
                ms == models(keys@),
                lt == (|a, b| K::model_lt(a, b)),
                order@.len() == m,
                forall|i: int| 0 <= i < order@.len() ==> #[trigger] order@[i] < m,
                forall|i: int| p <= i < order@.len() ==> comes_before(lt, ms, descending, m as int, #[trigger] order@[i] as int),
            decreases p,
        {
            p -= 1;
        }
        proof {
            assert forall|i: int| 0 <= i < p implies comes_before(lt, ms, descending, #[trigger] order@[i] as int, m as int) by {
                let q = order@[p - 1] as int;
                lemma_comes_before::<K>(ms, descending, q, m as int, m as int);
                lemma_comes_before::<K>(ms, descending, order@[i] as int, q, m as int);
                if i < p - 1 {
                    assert(comes_before(lt, ms, descending, order@[i] as int, q));
                }
            }
        }
        let ghost old_order = order@;
        order.insert(p, m);
        proof {
            assert forall|i: int| 0 <= i < order@.len() implies #[trigger] order@[i] < m + 1 by {
                if i < p {
                    assert(order@[i] == old_order[i]);
                } else if i > p {
                    assert(order@[i] == old_order[i - 1]);
                }
            }
            assert forall|i: int, j: int|
                0 <= i < j < order@.len() implies comes_before(lt, ms, descending, order@[i] as int, order@[j] as int) by {
                if j < p {
                    assert(order@[i] == old_order[i] && order@[j] == old_order[j]);
                } else if i > p {
                    assert(order@[i] == old_order[i - 1] && order@[j] == old_order[j - 1]);
                } else if i == p {
                    assert(order@[j] == old_order[j - 1]);
                } else if j == p {
                    assert(order@[i] == old_order[i]);
                } else {
                    assert(order@[i] == old_order[i] && order@[j] == old_order[j - 1]);
                }
            }
            assert forall|i: int, j: int|
                0 <= i < order@.len() && 0 <= j < order@.len() && i != j implies order@[i] != order@[j] by {
                if i != p && j != p {
                    let oi = if i < p { i } else { i - 1 };
                    let oj = if j < p { j } else { j - 1 };
                    assert(order@[i] == old_order[oi] && order@[j] == old_order[oj]);
                } else if i == p {
                    let oj = if j < p { j } else { j - 1 };
                    assert(order@[j] == old_order[oj]);
                } else {
                    let oi = if i < p { i } else { i - 1 };
                    assert(order@[i] == old_order[oi]);
                }
            }
        }
        m += 1;
    }
    order
}

/// `ord` lists each of the positions `0..n` exactly once.
pub open spec fn is_rearrangement(ord: Seq<usize>, n: nat) -> bool {
    &&& ord.len() == n
    &&& ord.no_duplicates()
    &&& forall|i: int| 0 <= i < ord.len() ==> #[trigger] ord[i] < n
}

/// Every position below `n` sits somewhere in a rearrangement of `0..n`;
/// the result is where.
pub proof fn lemma_position_in(ord: Seq<usize>, x: int) -> (p: int)
    requires
        is_rearrangement(ord, ord.len()),
        0 <= x < ord.len(),
    ensures
        0 <= p < ord.len(),
        ord[p] == x,
{
    let n = ord.len() as int;
    let ints = ord.map_values(|v: usize| v as int);
    assert(ints.no_duplicates()) by {
        assert forall|i: int, j: int| 0 <= i < ints.len() && 0 <= j < ints.len() && i != j implies ints[i] != ints[j] by {
            assert(ord[i] != ord[j]);
        }
    }
    ints.unique_seq_to_set();
    vstd::seq_lib::seq_to_set_is_finite(ints);
    vstd::set_lib::lemma_int_range(0, n);
    assert(ints.to_set().subset_of(vstd::set_lib::set_int_range(0, n))) by {
        assert forall|v: int| ints.to_set().contains(v) implies vstd::set_lib::set_int_range(0, n).contains(v) by {
            let i = choose|i: int| 0 <= i < ints.len() && ints[i] == v;
            assert(ord[i] < n);
        }
    }
    vstd::set_lib::lemma_subset_equality(ints.to_set(), vstd::set_lib::set_int_range(0, n));
    assert(vstd::set_lib::set_int_range(0, n).contains(x));
    assert(ints.to_set().contains(x));
    let p = choose|i: int| 0 <= i < ints.len() && ints[i] == x;
    p
}

/// The elements of `s` taken in the order `ord`.
pub open spec fn rearranged<A>(s: Seq<A>, ord: Seq<usize>) -> Seq<A> {
    ord.map_values(|k: usize| s[k as int])
}

/// Without its last position, a rearrangement of `0..n` renumbers to a
/// rearrangement of `0..n-1`, and it then picks the same elements out of
/// the sequence with that position removed.
pub proof fn lemma_rearrangement_without_last<A>(s: Seq<A>, ord: Seq<usize>) -> (rest: Seq<usize>)
    requires
        is_rearrangement(ord, s.len()),
        s.len() > 0,
    ensures
        is_rearrangement(rest, (s.len() - 1) as nat),
        rearranged(s, ord).drop_last() == rearranged(s.remove(ord.last() as int), rest),
        rearranged(s, ord).last() == s[ord.last() as int],
{
    let j = ord.last();
    let n = s.len();
    let rest = ord.drop_last().map_values(|k: usize| if k < j { k } else { (k - 1) as usize });
    assert forall|i: int| 0 <= i < rest.len() implies #[trigger] rest[i] < n - 1 && ord[i] != j by {
        assert(ord[i] != ord[n - 1]);
    }
    assert(rest.no_duplicates()) by {
        assert forall|a: int, b: int| 0 <= a < rest.len() && 0 <= b < rest.len() && a != b implies rest[a] != rest[b] by {
            assert(ord[a] != ord[b]);
            assert(ord[a] != j && ord[b] != j);
        }
    }
    let t = s.remove(j as int);
    assert(rearranged(s, ord).drop_last() =~= rearranged(t, rest)) by {
        assert forall|i: int| 0 <= i < rest.len() implies rearranged(s, ord)[i] == #[trigger] rearranged(t, rest)[i] by {
            assert(ord[i] != j);
        }
    }
    rest
}

/// Two strictly ascending sequences agree on their first `i + 1` places
/// when each holds the other's values.
proof fn lemma_ascending_agree<K: OrderKey>(a: Seq<K::Model>, b: Seq<K::Model>, i: int)
    requires
        forall|x: int, y: int| 0 <= x < y < a.len() ==> K::model_lt(a[x], a[y]),
        forall|x: int, y: int| 0 <= x < y < b.len() ==> K::model_lt(b[x], b[y]),
        forall|x: int| 0 <= x < a.len() ==> b.contains(#[trigger] a[x]),
        forall|x: int| 0 <= x < b.len() ==> a.contains(#[trigger] b[x]),
        0 <= i < a.len(),
        i < b.len(),
    ensures
        forall|k: int| 0 <= k <= i ==> a[k] == b[k],
    decreases i,
{
    if i > 0 {
        lemma_ascending_agree::<K>(a, b, i - 1);
    }
    let x = a[i];
    let y = b[i];
    assert(b.contains(x));
    assert(a.contains(y));
    let q = choose|q: int| 0 <= q < b.len() && b[q] == x;
    let p = choose|p: int| 0 <= p < a.len() && a[p] == y;
    K::lemma_model_order(x, y, x);
    K::lemma_model_order(y, x, y);
    if q < i {
        assert(a[q] == b[q]);
        assert(K::model_lt(a[q], a[i]));
    }
    if p < i {
        assert(b[p] == a[p]);
        assert(K::model_lt(b[p], b[i]));
    }
    if x != y {
        assert(q != i && p != i);
        assert(K::model_lt(y, x));
        assert(K::model_lt(x, y));
    }
}

/// Two strictly ascending sequences that hold the same values are equal.
pub proof fn lemma_ascending_unique<K: OrderKey>(a: Seq<K::Model>, b: Seq<K::Model>)
    requires
        forall|x: int, y: int| 0 <= x < y < a.len() ==> K::model_lt(a[x], a[y]),
        forall|x: int, y: int| 0 <= x < y < b.len() ==> K::model_lt(b[x], b[y]),
        forall|x: int| 0 <= x < a.len() ==> b.contains(#[trigger] a[x]),
        forall|x: int| 0 <= x < b.len() ==> a.contains(#[trigger] b[x]),
    ensures
        a == b,
{
    let n = if a.len() < b.len() { a.len() as int } else { b.len() as int };
    if n > 0 {
        lemma_ascending_agree::<K>(a, b, n - 1);
    }
    if a.len() > n {
        assert(b.contains(a[n]));
        let q = choose|q: int| 0 <= q < b.len() && b[q] == a[n];
        assert(a[q] == b[q]);
        K::lemma_model_order(a[q], a[q], a[q]);
        assert(K::model_lt(a[q], a[n]));
    }
    if b.len() > n {
        assert(a.contains(b[n]));
        let p = choose|p: int| 0 <= p < a.len() && a[p] == b[n];
        assert(b[p] == a[p]);
        K::lemma_model_order(b[p], b[p], b[p]);
        assert(K::model_lt(b[p], b[n]));
    }
    assert(a =~= b);
}

// ---------------------------------------------------------------------------
// Grouping positions by key
// ---------------------------------------------------------------------------

/// The positions sharing one key.
pub struct Group<K> {
    /// The shared key.
    pub key: K,
    /// The positions holding that key, ascending.
    pub members: Vec<usize>,
}

/// The positions of `ms` whose value is `m`, ascending.
pub open spec fn positions_of<M>(ms: Seq<M>, m: M) -> Seq<usize>
    decreases ms.len(),
{
    if ms.len() == 0 {
        Seq::empty()
    } else if ms.last() == m {
        positions_of(ms.drop_last(), m).push((ms.len() - 1) as usize)
    } else {
        positions_of(ms.drop_last(), m)
    }
}

/// `groups` holds one group per distinct key of `ms`, in ascending key
/// order, each with exactly the positions of its key: what a `BTreeMap`
/// from key to the positions pushed in order holds.
pub open spec fn is_grouping<K: OrderKey>(groups: Seq<Group<K>>, ms: Seq<K::Model>) -> bool {
    &&& forall|i: int, j: int|
        0 <= i < j < groups.len() ==> K::model_lt(groups[i].key.model(), groups[j].key.model())
    &&& forall|i: int|
        0 <= i < groups.len() ==> (#[trigger] groups[i]).members@ == positions_of(
            ms,
            groups[i].key.model(),
        )
    &&& forall|i: int| 0 <= i < groups.len() ==> (#[trigger] groups[i]).members@.len() > 0
    &&& forall|k: int|
        #![trigger ms[k]]
        0 <= k < ms.len() ==> exists|i: int|
            #![trigger groups[i]]
            0 <= i < groups.len() && groups[i].key.model() == ms[k]
}

/// The group holding the key at position `k`.
pub proof fn lemma_group_of<K: OrderKey>(groups: Seq<Group<K>>, ms: Seq<K::Model>, k: int) -> (i: int)
    requires
        is_grouping(groups, ms),
        0 <= k < ms.len(),
    ensures
        0 <= i < groups.len(),
        groups[i].key.model() == ms[k],
{
    choose|i: int| #![trigger groups[i]] 0 <= i < groups.len() && groups[i].key.model() == ms[k]
}

/// Appending a value extends only its own positions.
pub proof fn lemma_positions_of_push<M>(ms: Seq<M>, x: M, m: M)
    ensures
        positions_of(ms.push(x), m) == (if x == m {
            positions_of(ms, m).push(ms.len() as usize)
        } else {
            positions_of(ms, m)
        }),
{
    assert(ms.push(x).drop_last() =~= ms);
}

/// A value that does not occur has no positions.
pub proof fn lemma_positions_of_absent<M>(ms: Seq<M>, m: M)
    requires
        forall|k: int| 0 <= k < ms.len() ==> ms[k] != m,
    ensures
        positions_of(ms, m) == Seq::<usize>::empty(),
    decreases ms.len(),
{
    if ms.len() > 0 {
        lemma_positions_of_absent(ms.drop_last(), m);
    }
}

/// Removing one value removes one position exactly when it is `m`.
pub proof fn lemma_positions_of_remove<M>(ms: Seq<M>, j: int, m: M)
    requires
        0 <= j < ms.len(),
    ensures
        positions_of(ms, m).len() == positions_of(ms.remove(j), m).len() + (if ms[j] == m { 1int } else { 0 }),
    decreases ms.len(),
{
    if j == ms.len() - 1 {
        assert(ms.remove(j) =~= ms.drop_last());
    } else {
        let rest = ms.drop_last();
        lemma_positions_of_remove(rest, j, m);
        assert(ms.remove(j).drop_last() =~= rest.remove(j));
        assert(ms.remove(j).last() == ms.last());
    }
}

/// A rearrangement holds each value as often as the original.
pub proof fn lemma_positions_of_rearranged<M>(ms: Seq<M>, ord: Seq<usize>, m: M)
    requires
        is_rearrangement(ord, ms.len()),
    ensures
        positions_of(rearranged(ms, ord), m).len() == positions_of(ms, m).len(),
    decreases ms.len(),
{
    if ms.len() > 0 {
        let j = ord.last() as int;
        let rest = lemma_rearrangement_without_last(ms, ord);
        lemma_positions_of_rearranged(ms.remove(j), rest, m);
        lemma_positions_of_remove(ms, j, m);
    }
}

/// A value has no more positions than there are values.
pub proof fn lemma_positions_of_len<M>(ms: Seq<M>, m: M)
    ensures
        positions_of(ms, m).len() <= ms.len(),
    decreases ms.len(),
{
    if ms.len() > 0 {
        lemma_positions_of_len(ms.drop_last(), m);
    }
}

/// A value that fills the first `p` places has at least `p` positions.
pub proof fn lemma_positions_of_prefix<M>(ms: Seq<M>, m: M, p: int)
    requires
        0 <= p <= ms.len(),
        forall|j: int| 0 <= j < p ==> ms[j] == m,
    ensures
        positions_of(ms, m).len() >= p,
    decreases ms.len(),
{
    if p > 0 {
        let rest = ms.drop_last();
        if p == ms.len() {
            lemma_positions_of_prefix(rest, m, p - 1);
        } else {
            lemma_positions_of_prefix(rest, m, p);
        }
    }
}

/// A value absent from every place from `p` on has at most `p` positions.
pub proof fn lemma_positions_of_suffix<M>(ms: Seq<M>, m: M, p: int)
    requires
        0 <= p <= ms.len(),
        forall|j: int| p <= j < ms.len() ==> ms[j] != m,
    ensures
        positions_of(ms, m).len() <= p,
    decreases ms.len(),
{
    if p == ms.len() {
        lemma_positions_of_len(ms, m);
    } else {
        lemma_positions_of_suffix(ms.drop_last(), m, p);
    }
}

/// A value with a position occurs in the sequence.
pub proof fn lemma_positions_of_occurs<M>(ms: Seq<M>, m: M) -> (j: int)
    requires
        positions_of(ms, m).len() > 0,
    ensures
        0 <= j < ms.len(),
        ms[j] == m,
{
    if !(exists|j: int| 0 <= j < ms.len() && ms[j] == m) {
        lemma_positions_of_absent(ms, m);
    }
    choose|j: int| 0 <= j < ms.len() && ms[j] == m
}

/// Every position listed for `m` holds `m`, and they ascend.
pub proof fn lemma_positions_of_sound<M>(ms: Seq<M>, m: M)
    requires
        ms.len() <= usize::MAX,
    ensures
        forall|i: int|
            0 <= i < positions_of(ms, m).len() ==> {
                &&& (#[trigger] positions_of(ms, m)[i]) < ms.len()
                &&& ms[positions_of(ms, m)[i] as int] == m
            },
        forall|i: int, j: int|
            0 <= i < j < positions_of(ms, m).len() ==> positions_of(ms, m)[i] < positions_of(ms, m)[j],
    decreases ms.len(),
{
    if ms.len() > 0 {
        let rest = ms.drop_last();
        lemma_positions_of_sound(rest, m);
        let ps = positions_of(rest, m);
        assert forall|i: int| 0 <= i < ps.len() implies ps[i] < rest.len() && ms[ps[i] as int] == m by {
            assert(ps[i] < rest.len());
            assert(rest[ps[i] as int] == m);
            assert(ms[ps[i] as int] == rest[ps[i] as int]);
        }
        if ms.last() == m {
            let qs = ps.push((ms.len() - 1) as usize);
            assert forall|i: int| 0 <= i < qs.len() implies {
                &&& (#[trigger] qs[i]) < ms.len()
                &&& ms[qs[i] as int] == m
            } by {
                if i < ps.len() {
                    assert(qs[i] == ps[i]);
                    assert(ps[i] < rest.len());
                }
            }
            assert forall|i: int, j: int| 0 <= i < j < qs.len() implies qs[i] < qs[j] by {
                if j < ps.len() {
                    assert(qs[i] == ps[i] && qs[j] == ps[j]);
                    assert(ps[i] < ps[j]);
                } else {
                    assert(qs[i] == ps[i]);
                    assert(ps[i] < rest.len());
                }
            }
        }
    }
}

/// Grouping a prefix one position longer.
proof fn lemma_grouping_step_found<K: OrderKey>(
    old_groups: Seq<Group<K>>,
    groups: Seq<Group<K>>,
    ms: Seq<K::Model>,
    n: int,
    p: int,
)
    requires
        0 <= n < ms.len(),
        0 <= p < old_groups.len(),
        is_grouping(old_groups, ms.take(n)),
        old_groups[p].key.model() == ms[n],
        groups.len() == old_groups.len(),
        groups[p].key.model() == ms[n],
        groups[p].members@ == old_groups[p].members@.push(n as usize),
        forall|i: int| 0 <= i < groups.len() && i != p ==> groups[i] == old_groups[i],
    ensures
        is_grouping(groups, ms.take(n + 1)),
{
    let prev = ms.take(n);
    assert(ms.take(n + 1) =~= prev.push(ms[n]));
    assert forall|i: int, j: int| 0 <= i < j < groups.len() implies K::model_lt(
        groups[i].key.model(),
        groups[j].key.model(),
    ) by {
        assert(K::model_lt(old_groups[i].key.model(), old_groups[j].key.model()));
    }
    assert forall|i: int| 0 <= i < groups.len() implies (#[trigger] groups[i]).members@ == positions_of(
        ms.take(n + 1),
        groups[i].key.model(),
    ) by {
        lemma_positions_of_push(prev, ms[n], groups[i].key.model());
        if i != p {
            assert(old_groups[i].members@ == positions_of(prev, old_groups[i].key.model()));
            K::lemma_model_order(old_groups[i].key.model(), ms[n], ms[n]);
            if i < p {
                assert(K::model_lt(old_groups[i].key.model(), old_groups[p].key.model()));
            } else {
                assert(K::model_lt(old_groups[p].key.model(), old_groups[i].key.model()));
                K::lemma_model_order(ms[n], ms[n], ms[n]);
            }
        } else {
            assert(old_groups[p].members@ == positions_of(prev, old_groups[p].key.model()));
        }
    }
    assert forall|i: int| 0 <= i < groups.len() implies (#[trigger] groups[i]).members@.len() > 0 by {
        if i != p {
            assert(old_groups[i].members@.len() > 0);
        }
    }
    assert forall|k: int| 0 <= k < n + 1 implies exists|i: int|
        0 <= i < groups.len() && groups[i].key.model() == #[trigger] ms.take(n + 1)[k] by {
        if k < n {
            assert(prev[k] == ms.take(n + 1)[k]);
            let i = choose|i: int| 0 <= i < old_groups.len() && old_groups[i].key.model() == #[trigger] prev[k];
            if i == p {
                assert(groups[p].key.model() == ms.take(n + 1)[k]);
            } else {
                assert(groups[i] == old_groups[i]);
            }
        } else {
            assert(groups[p].key.model() == ms.take(n + 1)[k]);
        }
    }
}

proof fn lemma_grouping_step_new<K: OrderKey>(
    old_groups: Seq<Group<K>>,
    groups: Seq<Group<K>>,
    ms: Seq<K::Model>,
    n: int,
    p: int,
    g: Group<K>,
)
    requires
        0 <= n < ms.len(),
        0 <= p <= old_groups.len(),
        is_grouping(old_groups, ms.take(n)),
        forall|q: int| 0 <= q < p ==> K::model_lt(#[trigger] old_groups[q].key.model(), ms[n]),
        p < old_groups.len() ==> K::model_lt(ms[n], old_groups[p].key.model()),
        g.key.model() == ms[n],
        g.members@ == seq![n as usize],
        groups == old_groups.insert(p, g),
    ensures
        is_grouping(groups, ms.take(n + 1)),
{
    let prev = ms.take(n);
    let x = ms[n];
    assert(ms.take(n + 1) =~= prev.push(x));
    // Every group after the insertion point has a larger key.
    assert forall|q: int| p <= q < old_groups.len() implies K::model_lt(x, #[trigger] old_groups[q].key.model()) by {
        if q > p {
            assert(K::model_lt(old_groups[p].key.model(), old_groups[q].key.model()));
            K::lemma_model_order(x, old_groups[p].key.model(), old_groups[q].key.model());
        }
    }
    // So the new key occurs nowhere earlier.
    assert forall|k: int| 0 <= k < prev.len() implies prev[k] != x by {
        let i = choose|i: int| 0 <= i < old_groups.len() && old_groups[i].key.model() == #[trigger] prev[k];
        K::lemma_model_order(x, x, x);
        if i < p {
            assert(K::model_lt(old_groups[i].key.model(), x));
        } else {
            assert(K::model_lt(x, old_groups[i].key.model()));
        }
    }
    lemma_positions_of_absent(prev, x);
    lemma_positions_of_push(prev, x, x);
    assert(positions_of(ms.take(n + 1), x) =~= seq![n as usize]);
    assert forall|i: int, j: int| 0 <= i < j < groups.len() implies K::model_lt(
        groups[i].key.model(),
        groups[j].key.model(),
    ) by {
        if j < p {
            assert(K::model_lt(old_groups[i].key.model(), old_groups[j].key.model()));
        } else if i > p {
            assert(K::model_lt(old_groups[i - 1].key.model(), old_groups[j - 1].key.model()));
        } else if i == p {
            assert(K::model_lt(x, old_groups[j - 1].key.model()));
        } else if j == p {
            assert(K::model_lt(old_groups[i].key.model(), x));
        } else {
            assert(K::model_lt(old_groups[i].key.model(), x));
            assert(K::model_lt(x, old_groups[j - 1].key.model()));
            K::lemma_model_order(old_groups[i].key.model(), x, old_groups[j - 1].key.model());
        }
    }
    assert forall|i: int| 0 <= i < groups.len() implies (#[trigger] groups[i]).members@ == positions_of(
        ms.take(n + 1),
        groups[i].key.model(),
    ) by {
        if i != p {
            let oi = if i < p { i } else { i - 1 };
            assert(groups[i] == old_groups[oi]);
            assert(old_groups[oi].members@ == positions_of(prev, old_groups[oi].key.model()));
            lemma_positions_of_push(prev, x, old_groups[oi].key.model());
            K::lemma_model_order(x, x, x);
            if oi < p {
                assert(K::model_lt(old_groups[oi].key.model(), x));
            } else {
                assert(K::model_lt(x, old_groups[oi].key.model()));
            }
        }
    }
    assert forall|i: int| 0 <= i < groups.len() implies (#[trigger] groups[i]).members@.len() > 0 by {
        if i != p {
            let oi = if i < p { i } else { i - 1 };
            assert(groups[i] == old_groups[oi]);
        }
    }
    assert forall|k: int| 0 <= k < n + 1 implies exists|i: int|
        0 <= i < groups.len() && groups[i].key.model() == #[trigger] ms.take(n + 1)[k] by {
        if k < n {
            assert(prev[k] == ms.take(n + 1)[k]);
            let i = choose|i: int| 0 <= i < old_groups.len() && old_groups[i].key.model() == #[trigger] prev[k];
            if i < p {
                assert(groups[i] == old_groups[i]);
            } else {
                assert(groups[i + 1] == old_groups[i]);
            }
        } else {
            assert(groups[p] == g);
        }
    }
}

/// Group the positions of `keys` by equal key, in ascending key order.
pub fn group_positions<K: OrderKey>(keys: &Vec<K>) -> (groups: Vec<Group<K>>)
    ensures
        is_grouping(groups@, models(keys@)),
{
    let ghost ms = models(keys@);
    let mut groups: Vec<Group<K>> = Vec::new();
    let mut n: usize = 0;
    while n < keys.len()
        invariant
            n <= keys@.len(),
            ms == models(keys@),
            is_grouping(groups@, ms.take(n as int)),
        decreases keys@.len() - n,
    {
        let mut p: usize = 0;
        while p < groups.len() && groups[p].key.key_lt(&keys[n])
            invariant
                p <= groups@.len(),
                n < keys@.len(),
                ms == models(keys@),
                forall|q: int| 0 <= q < p ==> K::model_lt(#[trigger] groups@[q].key.model(), ms[n as int]),
            decreases groups@.len() - p,
        {
            p += 1;
        }
        let ghost old_groups = groups@;
        if p < groups.len() && groups[p].key.key_eq(&keys[n]) {
            let mut g = groups.remove(p);
            g.members.push(n);
            groups.insert(p, g);
            proof {
                assert forall|i: int| 0 <= i < groups@.len() && i != p implies groups@[i] == old_groups[i] by {
                    if i < p {
                    } else {
                    }
                }
                lemma_grouping_step_found(old_groups, groups@, ms, n as int, p as int);
            }
        } else {
            proof {
                if p < old_groups.len() {
                    K::lemma_model_order(old_groups[p as int].key.model(), ms[n as int], ms[n as int]);
                }
            }
            let mut members: Vec<usize> = Vec::new();
            members.push(n);
            let g = Group { key: keys[n].duplicate(), members };
            groups.insert(p, g);
            proof {
                lemma_grouping_step_new(old_groups, groups@, ms, n as int, p as int, g);
            }
        }
        n += 1;
    }
    assert(ms.take(keys@.len() as int) =~= ms);
    groups
}

/// The elements of `s` at the positions `ps`, in the order of `ps`.
pub open spec fn select<T>(s: Seq<T>, ps: Seq<usize>) -> Seq<T> {
    ps.map_values(|k: usize| s[k as int])
}

/// Selecting a prefix of the positions selects a prefix.
pub proof fn lemma_select_take<T>(s: Seq<T>, ps: Seq<usize>, q: int)
    requires
        0 <= q <= ps.len(),
    ensures
        select(s, ps.take(q)) == select(s, ps).take(q),
{
    assert(select(s, ps.take(q)) =~= select(s, ps).take(q));
}

/// Selecting one more position appends its element.
pub proof fn lemma_select_push<T>(s: Seq<T>, ps: Seq<usize>, q: int)
    requires
        0 <= q < ps.len(),
    ensures
        select(s, ps.take(q + 1)) == select(s, ps.take(q)).push(s[ps[q] as int]),
{
    assert(select(s, ps.take(q + 1)) =~= select(s, ps.take(q)).push(s[ps[q] as int]));
}

} // verus!
