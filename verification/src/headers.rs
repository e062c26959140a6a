//! The header mapping of a request: byte-string keys to byte-string values,
//! kept as a list of entries in ascending key order.

use crate::text::same_bytes;
use itertools::Itertools;
use vstd::prelude::*;
use vstd::slice::slice_to_vec;

verus! {

/// What a list of stored entries holds, entry by entry.
pub open spec fn pairs(v: Seq<(Vec<u8>, Vec<u8>)>) -> Seq<(Seq<u8>, Seq<u8>)> {
    Seq::new(v.len(), |i: int| (v[i].0@, v[i].1@))
}

/// Lexicographic order on byte strings: `a` is a prefix of `b`, or holds the
/// smaller byte where the two first differ.
pub open spec fn lex_le(a: Seq<u8>, b: Seq<u8>) -> bool
    decreases a.len(),
{
    a.len() == 0 || (b.len() > 0 && (a[0] < b[0] || (a[0] == b[0] && lex_le(
        a.drop_first(),
        b.drop_first(),
    ))))
}

/// Lexicographic order on entries: by key, and by value under equal keys.
pub open spec fn pair_le(a: (Seq<u8>, Seq<u8>), b: (Seq<u8>, Seq<u8>)) -> bool {
    (a.0 != b.0 && lex_le(a.0, b.0)) || (a.0 == b.0 && lex_le(a.1, b.1))
}

/// Whether no entry comes before a smaller one.
pub open spec fn ascending(e: Seq<(Seq<u8>, Seq<u8>)>) -> bool {
    forall|i: int, j: int| 0 <= i < j < e.len() ==> pair_le(#[trigger] e[i], #[trigger] e[j])
}

/// Whether no two entries share a key.
pub open spec fn distinct_keys(e: Seq<(Seq<u8>, Seq<u8>)>) -> bool {
    forall|i: int, j: int| 0 <= i < j < e.len() ==> (#[trigger] e[i]).0 != (#[trigger] e[j]).0
}

/// Whether the keys strictly ascend in lexicographic order.
pub open spec fn strictly_ascending(e: Seq<(Seq<u8>, Seq<u8>)>) -> bool {
    forall|i: int, j: int|
        0 <= i < j < e.len() ==> (#[trigger] e[i]).0 != (#[trigger] e[j]).0 && lex_le(
            e[i].0,
            e[j].0,
        )
}

/// The mapping that a list of entries builds when they are inserted in
/// order: a later entry replaces an earlier one with the same key.
pub open spec fn to_map(e: Seq<(Seq<u8>, Seq<u8>)>) -> Map<Seq<u8>, Seq<u8>>
    decreases e.len(),
{
    if e.len() == 0 {
        Map::empty()
    } else {
        to_map(e.drop_last()).insert(e.last().0, e.last().1)
    }
}

/// The keys of the mapping are the keys of the entries.
pub proof fn lemma_to_map_keys(e: Seq<(Seq<u8>, Seq<u8>)>)
    ensures
        to_map(e).dom().finite(),
        forall|k: Seq<u8>|
            to_map(e).dom().contains(k) <==> exists|i: int| 0 <= i < e.len() && (#[trigger] e[i]).0 == k,
    decreases e.len(),
{
    if e.len() > 0 {
        let front = e.drop_last();
        lemma_to_map_keys(front);
        assert forall|k: Seq<u8>| to_map(e).dom().contains(k) implies exists|i: int|
            0 <= i < e.len() && (#[trigger] e[i]).0 == k by {
            if k == e.last().0 {
                assert(e[e.len() - 1].0 == k);
            } else {
                let i = choose|i: int| 0 <= i < front.len() && (#[trigger] front[i]).0 == k;
                assert(e[i].0 == k);
            }
        }
        assert forall|k: Seq<u8>|
            (exists|i: int| 0 <= i < e.len() && (#[trigger] e[i]).0 == k) implies to_map(
            e,
        ).dom().contains(k) by {
            let i = choose|i: int| 0 <= i < e.len() && (#[trigger] e[i]).0 == k;
            if i < e.len() - 1 {
                assert(front[i].0 == k);
            }
        }
    }
}

/// Under distinct keys every entry is in the mapping as it stands in the list.
pub proof fn lemma_to_map_entry(e: Seq<(Seq<u8>, Seq<u8>)>, i: int)
    requires
        distinct_keys(e),
        0 <= i < e.len(),
    ensures
        to_map(e).contains_pair(e[i].0, e[i].1),
    decreases e.len(),
{
    if i < e.len() - 1 {
        let front = e.drop_last();
        assert(distinct_keys(front)) by {
            assert forall|a: int, b: int| 0 <= a < b < front.len() implies (#[trigger] front[a]).0
                != (#[trigger] front[b]).0 by {
                assert(e[a].0 != e[b].0);
            }
        }
        lemma_to_map_entry(front, i);
        assert(e[i].0 != e[e.len() - 1].0);
        assert(front[i] == e[i]);
    }
}

/// Under distinct keys the mapping has as many keys as the list has entries.
pub proof fn lemma_to_map_len(e: Seq<(Seq<u8>, Seq<u8>)>)
    requires
        distinct_keys(e),
    ensures
        to_map(e).dom().finite(),
        to_map(e).dom().len() == e.len(),
    decreases e.len(),
{
    lemma_to_map_keys(e);
    if e.len() > 0 {
        let front = e.drop_last();
        assert(distinct_keys(front)) by {
            assert forall|a: int, b: int| 0 <= a < b < front.len() implies (#[trigger] front[a]).0
                != (#[trigger] front[b]).0 by {
                assert(e[a].0 != e[b].0);
            }
        }
        lemma_to_map_len(front);
        lemma_to_map_keys(front);
        if to_map(front).dom().contains(e.last().0) {
            let i = choose|i: int| 0 <= i < front.len() && (#[trigger] front[i]).0 == e.last().0;
            assert(e[i].0 != e[e.len() - 1].0);
        }
    }
}

/// Replacing the value of one entry is an insertion under that entry's key.
proof fn lemma_replace(e: Seq<(Seq<u8>, Seq<u8>)>, i: int, value: Seq<u8>)
    requires
        distinct_keys(e),
        0 <= i < e.len(),
    ensures
        distinct_keys(e.update(i, (e[i].0, value))),
        to_map(e.update(i, (e[i].0, value))) == to_map(e).insert(e[i].0, value),
    decreases e.len(),
{
    let key = e[i].0;
    let changed = e.update(i, (key, value));
    assert(distinct_keys(changed)) by {
        assert forall|a: int, b: int| 0 <= a < b < changed.len() implies (#[trigger] changed[a]).0
            != (#[trigger] changed[b]).0 by {
            assert(e[a].0 != e[b].0);
        }
    }
    let front = e.drop_last();
    if i == e.len() - 1 {
        assert(changed.drop_last() =~= front);
        assert(to_map(changed) =~= to_map(e).insert(key, value));
    } else {
        assert(distinct_keys(front)) by {
            assert forall|a: int, b: int| 0 <= a < b < front.len() implies (#[trigger] front[a]).0
                != (#[trigger] front[b]).0 by {
                assert(e[a].0 != e[b].0);
            }
        }
        lemma_replace(front, i, value);
        assert(front[i] == e[i]);
        assert(changed.drop_last() =~= front.update(i, (key, value)));
        assert(e[i].0 != e[e.len() - 1].0);
        assert(changed.last() == e.last());
        assert(to_map(changed) =~= to_map(e).insert(key, value));
    }
}

/// Reordering entries with distinct keys changes neither that nor the mapping.
pub proof fn lemma_reordered(e: Seq<(Seq<u8>, Seq<u8>)>, r: Seq<(Seq<u8>, Seq<u8>)>)
    requires
        distinct_keys(e),
        e.to_multiset() == r.to_multiset(),
    ensures
        distinct_keys(r),
        to_map(r) == to_map(e),
{
    broadcast use vstd::seq_lib::group_to_multiset_ensures;

    assert(e.no_duplicates()) by {
        assert forall|a: int, b: int| 0 <= a < e.len() && 0 <= b < e.len() && a != b implies e[a]
            != e[b] by {
            if a < b {
                assert(e[a].0 != e[b].0);
            } else {
                assert(e[b].0 != e[a].0);
            }
        }
    }
    e.lemma_multiset_has_no_duplicates();
    r.lemma_multiset_has_no_duplicates_conv();
    assert forall|x: (Seq<u8>, Seq<u8>)| r.contains(x) <==> e.contains(x) by {
        assert(r.contains(x) <==> r.to_multiset().count(x) > 0);
        assert(e.contains(x) <==> e.to_multiset().count(x) > 0);
    }
    assert(distinct_keys(r)) by {
        assert forall|a: int, b: int| 0 <= a < b < r.len() implies (#[trigger] r[a]).0 != (
        #[trigger] r[b]).0 by {
            assert(r.contains(r[a]));
            assert(r.contains(r[b]));
            let x = choose|x: int| 0 <= x < e.len() && e[x] == r[a];
            let y = choose|y: int| 0 <= y < e.len() && e[y] == r[b];
            assert(r[a] != r[b]);
            if x < y {
                assert(e[x].0 != e[y].0);
            } else if y < x {
                assert(e[y].0 != e[x].0);
            }
        }
    }
    lemma_to_map_keys(e);
    lemma_to_map_keys(r);
    assert forall|k: Seq<u8>| #[trigger] to_map(r).dom().contains(k) implies to_map(e).dom().contains(k)
        && to_map(e)[k] == to_map(r)[k] by {
        let i = choose|i: int| 0 <= i < r.len() && (#[trigger] r[i]).0 == k;
        assert(r.contains(r[i]));
        assert(e.contains(r[i]));
        let x = choose|x: int| 0 <= x < e.len() && e[x] == r[i];
        lemma_to_map_entry(e, x);
        lemma_to_map_entry(r, i);
    }
    assert forall|k: Seq<u8>| #[trigger] to_map(e).dom().contains(k) implies to_map(r).dom().contains(k) by {
        let i = choose|i: int| 0 <= i < e.len() && (#[trigger] e[i]).0 == k;
        assert(e.contains(e[i]));
        assert(r.contains(e[i]));
        let x = choose|x: int| 0 <= x < r.len() && r[x] == e[i];
        lemma_to_map_entry(r, x);
    }
    assert(to_map(r).dom() =~= to_map(e).dom());
    assert(to_map(r) =~= to_map(e));
}

/// Two byte strings that each come before the other are the same.
pub proof fn lemma_lex_le_antisymmetric(a: Seq<u8>, b: Seq<u8>)
    requires
        lex_le(a, b),
        lex_le(b, a),
    ensures
        a == b,
    decreases a.len(),
{
    if a.len() > 0 {
        lemma_lex_le_antisymmetric(a.drop_first(), b.drop_first());
        assert(a =~= seq![a[0]] + a.drop_first());
        assert(b =~= seq![b[0]] + b.drop_first());
    } else {
        assert(a =~= b);
    }
}

/// Without its first entry, a list with distinct keys builds the mapping
/// without the first key.
proof fn lemma_to_map_drop_first(e: Seq<(Seq<u8>, Seq<u8>)>)
    requires
        distinct_keys(e),
        e.len() > 0,
    ensures
        distinct_keys(e.drop_first()),
        to_map(e.drop_first()) == to_map(e).remove(e[0].0),
{
    let t = e.drop_first();
    assert(distinct_keys(t)) by {
        assert forall|a: int, b: int| 0 <= a < b < t.len() implies (#[trigger] t[a]).0 != (
        #[trigger] t[b]).0 by {
            assert(e[a + 1].0 != e[b + 1].0);
        }
    }
    lemma_to_map_keys(e);
    lemma_to_map_keys(t);
    let whole = to_map(e).remove(e[0].0);
    assert forall|k: Seq<u8>| #[trigger] to_map(t).dom().contains(k) implies whole.dom().contains(k)
        && whole[k] == to_map(t)[k] by {
        let i = choose|i: int| 0 <= i < t.len() && (#[trigger] t[i]).0 == k;
        assert(t[i] == e[i + 1]);
        assert(e[0].0 != e[i + 1].0);
        lemma_to_map_entry(t, i);
        lemma_to_map_entry(e, i + 1);
    }
    assert forall|k: Seq<u8>| #[trigger] whole.dom().contains(k) implies to_map(t).dom().contains(
        k,
    ) by {
        let i = choose|i: int| 0 <= i < e.len() && (#[trigger] e[i]).0 == k;
        assert(i > 0);
        assert(t[i - 1] == e[i]);
    }
    assert(to_map(t).dom() =~= whole.dom());
    assert(to_map(t) =~= whole);
}

/// A mapping has one list of entries in strictly ascending key order: two
/// such lists that build the same mapping are the same list.
pub proof fn lemma_ascending_entries_unique(
    a: Seq<(Seq<u8>, Seq<u8>)>,
    b: Seq<(Seq<u8>, Seq<u8>)>,
)
    requires
        strictly_ascending(a),
        strictly_ascending(b),
        to_map(a) == to_map(b),
    ensures
        a == b,
    decreases a.len(),
{
    assert(distinct_keys(a));
    assert(distinct_keys(b));
    lemma_to_map_len(a);
    lemma_to_map_len(b);
    if a.len() == 0 {
        assert(a =~= b);
    } else {
        lemma_to_map_keys(a);
        lemma_to_map_keys(b);
        lemma_to_map_entry(a, 0);
        lemma_to_map_entry(b, 0);
        assert(to_map(b).dom().contains(a[0].0));
        assert(to_map(a).dom().contains(b[0].0));
        let j = choose|j: int| 0 <= j < b.len() && (#[trigger] b[j]).0 == a[0].0;
        let i = choose|i: int| 0 <= i < a.len() && (#[trigger] a[i]).0 == b[0].0;
        if i > 0 && j > 0 {
            assert(lex_le(a[0].0, a[i].0));
            assert(lex_le(b[0].0, b[j].0));
            lemma_lex_le_antisymmetric(a[0].0, b[0].0);
        }
        assert(a[0].0 == b[0].0);
        assert(a[0] == b[0]);
        lemma_to_map_drop_first(a);
        lemma_to_map_drop_first(b);
        let ta = a.drop_first();
        let tb = b.drop_first();
        assert(strictly_ascending(ta)) by {
            assert forall|x: int, y: int| 0 <= x < y < ta.len() implies (#[trigger] ta[x]).0 != (
            #[trigger] ta[y]).0 && lex_le(ta[x].0, ta[y].0) by {
                assert(a[x + 1].0 != a[y + 1].0 && lex_le(a[x + 1].0, a[y + 1].0));
            }
        }
        assert(strictly_ascending(tb)) by {
            assert forall|x: int, y: int| 0 <= x < y < tb.len() implies (#[trigger] tb[x]).0 != (
            #[trigger] tb[y]).0 && lex_le(tb[x].0, tb[y].0) by {
                assert(b[x + 1].0 != b[y + 1].0 && lex_le(b[x + 1].0, b[y + 1].0));
            }
        }
        lemma_ascending_entries_unique(ta, tb);
        assert(a =~= seq![a[0]] + ta);
        assert(b =~= seq![b[0]] + tb);
    }
}

/// An index at which `entries` holds `key`, if there is one.
pub(crate) fn position(entries: &Vec<(Vec<u8>, Vec<u8>)>, key: &[u8]) -> (r: Option<usize>)
    ensures
        match r {
            Some(i) => i < entries@.len() && pairs(entries@)[i as int].0 == key@,
            None => forall|i: int|
                0 <= i < entries@.len() ==> (#[trigger] pairs(entries@)[i]).0 != key@,
        },
{
    let mut i: usize = 0;
    while i < entries.len()
        invariant
            i <= entries@.len(),
            forall|k: int| 0 <= k < i ==> (#[trigger] pairs(entries@)[k]).0 != key@,
        decreases entries@.len() - i,
    {
        if same_bytes(entries[i].0.as_slice(), key) {
            return Some(i);
        }
        i += 1;
    }
    None
}

/// Gives `key` the value `value` in `entries`: the entry that holds `key`
/// is replaced where it stands, and a new key is added at the end.
pub(crate) fn upsert(entries: &mut Vec<(Vec<u8>, Vec<u8>)>, key: Vec<u8>, value: Vec<u8>)
    requires
        distinct_keys(pairs(old(entries)@)),
    ensures
        distinct_keys(pairs(final(entries)@)),
        to_map(pairs(final(entries)@)) == to_map(pairs(old(entries)@)).insert(key@, value@),
{
    let ghost before = pairs(entries@);
    match position(entries, key.as_slice()) {
        Some(i) => {
            entries[i] = (key, value);
            proof {
                lemma_replace(before, i as int, value@);
                assert(pairs(entries@) =~= before.update(i as int, (key@, value@)));
            }
        },
        None => {
            entries.push((key, value));
            proof {
                let after = pairs(entries@);
                assert(after.drop_last() =~= before);
                assert(after.last() == (key@, value@));
                assert forall|a: int, b: int| 0 <= a < b < after.len() implies (#[trigger] after[a]).0
                    != (#[trigger] after[b]).0 by {
                    assert(after[a] == before[a]);
                    if b < before.len() {
                        assert(after[b] == before[b]);
                    }
                }
            }
        },
    }
}

/// `Itertools::sorted` on a list of entries: the same entries, each as often
/// as before, in ascending lexicographic order of key and value (the order
/// of tuples and of byte vectors in the standard library).
#[verifier::external_body]
fn sorted_entries(entries: Vec<(Vec<u8>, Vec<u8>)>) -> (r: Vec<(Vec<u8>, Vec<u8>)>)
    ensures
        pairs(r@).to_multiset() == pairs(entries@).to_multiset(),
        ascending(pairs(r@)),
{
    entries.into_iter().sorted().collect()
}

/// A mapping from header names to header values.
///
/// Names are kept as received: two names that differ in letter case are two
/// keys.
#[derive(Debug, PartialEq, Eq)]
pub struct Headers {
    entries: Vec<(Vec<u8>, Vec<u8>)>,
}

impl View for Headers {
    type V = Map<Seq<u8>, Seq<u8>>;

    closed spec fn view(&self) -> Map<Seq<u8>, Seq<u8>> {
        to_map(pairs(self.entries@))
    }
}

impl Headers {
    #[verifier::type_invariant]
    spec fn ordered(self) -> bool {
        strictly_ascending(pairs(self.entries@))
    }

    /// The mapping without any key.
    pub fn new() -> (r: Headers)
        ensures
            r@ == Map::<Seq<u8>, Seq<u8>>::empty(),
    {
        let entries: Vec<(Vec<u8>, Vec<u8>)> = Vec::new();
        assert(pairs(entries@) =~= Seq::empty());
        Headers { entries }
    }

    /// The mapping that `list` builds when its entries are inserted in
    /// order, a later entry replacing an earlier one with the same key.
    pub fn from_entries(list: &Vec<(Vec<u8>, Vec<u8>)>) -> (r: Headers)
        ensures
            r@ == to_map(pairs(list@)),
    {
        let mut entries: Vec<(Vec<u8>, Vec<u8>)> = Vec::new();
        let mut i: usize = 0;
        assert(pairs(list@).subrange(0, 0) =~= Seq::empty());
        assert(pairs(entries@) =~= Seq::empty());
        while i < list.len()
            invariant
                i <= list@.len(),
                distinct_keys(pairs(entries@)),
                to_map(pairs(entries@)) == to_map(pairs(list@).subrange(0, i as int)),
            decreases list@.len() - i,
        {
            let key = slice_to_vec(list[i].0.as_slice());
            let value = slice_to_vec(list[i].1.as_slice());
            proof {
                let next = pairs(list@).subrange(0, i + 1);
                assert(next.drop_last() =~= pairs(list@).subrange(0, i as int));
                assert(next.last() == (key@, value@));
            }
            upsert(&mut entries, key, value);
            i += 1;
        }
        assert(pairs(list@).subrange(0, i as int) =~= pairs(list@));
        Headers::ordered_from(entries)
    }

    /// Puts entries with distinct keys into ascending key order.
    pub(crate) fn ordered_from(entries: Vec<(Vec<u8>, Vec<u8>)>) -> (r: Headers)
        requires
            distinct_keys(pairs(entries@)),
        ensures
            r@ == to_map(pairs(entries@)),
    {
        let ghost before = pairs(entries@);
        let sorted = sorted_entries(entries);
        proof {
            let after = pairs(sorted@);
            lemma_reordered(before, after);
            assert forall|i: int, j: int| 0 <= i < j < after.len() implies (#[trigger] after[i]).0
                != (#[trigger] after[j]).0 && lex_le(after[i].0, after[j].0) by {
                assert(pair_le(after[i], after[j]));
            }
        }
        Headers { entries: sorted }
    }

    /// The value under `key`, if the mapping has that key.
    pub fn get(&self, key: &[u8]) -> (r: Option<&Vec<u8>>)
        ensures
            match r {
                Some(value) => self@.contains_key(key@) && self@[key@] == value@,
                None => !self@.contains_key(key@),
            },
    {
        proof {
            use_type_invariant(self);
            lemma_to_map_keys(pairs(self.entries@));
        }
        match position(&self.entries, key) {
            Some(i) => {
                proof {
                    lemma_to_map_entry(pairs(self.entries@), i as int);
                }
                Some(&self.entries[i].1)
            },
            None => None,
        }
    }

    /// Whether the mapping has `key`.
    pub fn contains_key(&self, key: &[u8]) -> (r: bool)
        ensures
            r == self@.contains_key(key@),
    {
        self.get(key).is_some()
    }

    /// The number of keys.
    pub fn len(&self) -> (r: usize)
        ensures
            self@.dom().finite(),
            r == self@.dom().len(),
    {
        proof {
            use_type_invariant(self);
            lemma_to_map_len(pairs(self.entries@));
        }
        self.entries.len()
    }

    /// The entries of the mapping, one for each key, in strictly ascending
    /// lexicographic order of the keys.
    pub fn entries(&self) -> (r: &Vec<(Vec<u8>, Vec<u8>)>)
        ensures
            strictly_ascending(pairs(r@)),
            to_map(pairs(r@)) == self@,
    {
        proof {
            use_type_invariant(self);
        }
        &self.entries
    }
}

} // verus!
