//! The pedal configuration: an ordered table from pedal number to the text
//! of the pedal's command, held in an `IndexMap`.
use vstd::prelude::*;
use indexmap::IndexMap;

verus! {

// ---------------------------------------------------------------------------
// The model: a sequence of (pedal, text) entries
// ---------------------------------------------------------------------------

/// The entries of a vector of pedal configuration pairs, texts by view.
pub open spec fn entries_view(v: Seq<(u8, String)>) -> Seq<(u8, Seq<char>)> {
    v.map_values(|e: (u8, String)| (e.0, e.1@))
}

/// No pedal number occurs twice.
pub open spec fn keys_unique(es: Seq<(u8, Seq<char>)>) -> bool {
    forall|i: int, j: int| 0 <= i < j < es.len() ==> es[i].0 != es[j].0
}

/// The pedal numbers strictly increase.
pub open spec fn keys_sorted(es: Seq<(u8, Seq<char>)>) -> bool {
    forall|i: int, j: int| 0 <= i < j < es.len() ==> es[i].0 < es[j].0
}

/// The two sequences hold the same entries.
pub open spec fn same_entries(a: Seq<(u8, Seq<char>)>, b: Seq<(u8, Seq<char>)>) -> bool {
    forall|e: (u8, Seq<char>)| a.contains(e) <==> b.contains(e)
}

/// `sorted` holds the entries of `es` ordered by pedal number.
pub open spec fn sorted_version(sorted: Seq<(u8, Seq<char>)>, es: Seq<(u8, Seq<char>)>) -> bool {
    &&& keys_sorted(sorted)
    &&& sorted.len() == es.len()
    &&& same_entries(sorted, es)
}

/// Whether pedal `k` has an entry.
pub open spec fn has_key(es: Seq<(u8, Seq<char>)>, k: u8) -> bool {
    exists|i: int| 0 <= i < es.len() && es[i].0 == k
}

/// The position of pedal `k`'s entry.
pub open spec fn key_position(es: Seq<(u8, Seq<char>)>, k: u8) -> int {
    choose|i: int| 0 <= i < es.len() && es[i].0 == k
}

/// The text of pedal `k`, if it has an entry.
pub open spec fn entry_text(es: Seq<(u8, Seq<char>)>, k: u8) -> Option<Seq<char>> {
    if has_key(es, k) {
        Some(es[key_position(es, k)].1)
    } else {
        None
    }
}

/// Inserting into an insertion-ordered map: an existing pedal keeps its
/// place and takes the new text, a new pedal goes last.
pub open spec fn entries_insert(es: Seq<(u8, Seq<char>)>, k: u8, v: Seq<char>) -> Seq<
    (u8, Seq<char>),
> {
    if has_key(es, k) {
        es.update(key_position(es, k), (k, v))
    } else {
        es.push((k, v))
    }
}

/// The entries after inserting each of `list` in order.
pub open spec fn insert_all(es: Seq<(u8, Seq<char>)>, list: Seq<(u8, Seq<char>)>) -> Seq<
    (u8, Seq<char>),
>
    decreases list.len(),
{
    if list.len() == 0 {
        es
    } else {
        let prev = insert_all(es, list.drop_last());
        entries_insert(prev, list.last().0, list.last().1)
    }
}

/// Two orderings by pedal number of the same entries are the same: the
/// order of a configuration is determined by its entries.
pub proof fn lemma_sorted_unique(a: Seq<(u8, Seq<char>)>, b: Seq<(u8, Seq<char>)>)
    requires
        keys_sorted(a),
        keys_sorted(b),
        a.len() == b.len(),
        same_entries(a, b),
    ensures
        a == b,
    decreases a.len(),
{
    if a.len() > 0 {
        assert(a.contains(a[0]));
        assert(b.contains(a[0]));
        assert(b.contains(b[0]));
        assert(a.contains(b[0]));
        let j = choose|j: int| 0 <= j < b.len() && b[j] == a[0];
        let i = choose|i: int| 0 <= i < a.len() && a[i] == b[0];
        if i > 0 {
            assert(a[0].0 < a[i].0);
        }
        if j > 0 {
            assert(b[0].0 < b[j].0);
        }
        assert(a[0] == b[0]);
        let ta = a.drop_first();
        let tb = b.drop_first();
        assert forall|e: (u8, Seq<char>)| ta.contains(e) <==> tb.contains(e) by {
            if ta.contains(e) {
                let k = choose|k: int| 0 <= k < ta.len() && ta[k] == e;
                assert(a[k + 1] == e);
                assert(b.contains(e));
                let m = choose|m: int| 0 <= m < b.len() && b[m] == e;
                if m == 0 {
                    assert(a[0].0 < a[k + 1].0);
                }
                assert(tb[m - 1] == e);
            }
            if tb.contains(e) {
                let k = choose|k: int| 0 <= k < tb.len() && tb[k] == e;
                assert(b[k + 1] == e);
                assert(a.contains(e));
                let m = choose|m: int| 0 <= m < a.len() && a[m] == e;
                if m == 0 {
                    assert(b[0].0 < b[k + 1].0);
                }
                assert(ta[m - 1] == e);
            }
        }
        lemma_sorted_unique(ta, tb);
        assert(a =~= seq![a[0]] + ta);
        assert(b =~= seq![b[0]] + tb);
    }
}

/// Ordering a configuration twice gives what ordering it once gives, and
/// an ordered configuration is left as it is.
pub proof fn lemma_sort_idempotent(es: Seq<(u8, Seq<char>)>, once: Seq<(u8, Seq<char>)>, twice: Seq<(u8, Seq<char>)>)
    requires
        sorted_version(once, es),
        sorted_version(twice, once),
    ensures
        twice == once,
        keys_sorted(es) ==> once == es,
{
    lemma_sorted_unique(twice, once);
    if keys_sorted(es) {
        lemma_sorted_unique(once, es);
    }
}

// ---------------------------------------------------------------------------
// `IndexMap` behind trusted items
// ---------------------------------------------------------------------------

#[verifier::external_type_specification]
#[verifier::external_body]
#[verifier::reject_recursive_types(K)]
#[verifier::reject_recursive_types(V)]
#[verifier::reject_recursive_types(S)]
pub struct ExIndexMap<K, V, S>(IndexMap<K, V, S>);

/// The entries of a pedal configuration map, in the map's order, texts by
/// view.
pub uninterp spec fn column_entries(m: IndexMap<u8, String>) -> Seq<(u8, Seq<char>)>;

/// `IndexMap::new`: a map without entries.
#[verifier::external_body]
pub(crate) fn columns_new() -> (m: IndexMap<u8, String>)
    ensures
        column_entries(m) == Seq::<(u8, Seq<char>)>::empty(),
{
    IndexMap::new()
}

/// `IndexMap::insert`. As its documentation says: an existing key keeps
/// its place and gets the new value, the old value being returned; a new
/// key goes last and `None` is returned.
#[verifier::external_body]
pub(crate) fn columns_insert(m: &mut IndexMap<u8, String>, k: u8, v: String) -> (prev: Option<
    String,
>)
    ensures
        column_entries(*final(m)) == entries_insert(column_entries(*old(m)), k, v@),
        prev is Some <==> has_key(column_entries(*old(m)), k),
        prev matches Some(p) ==> p@ == entry_text(column_entries(*old(m)), k).unwrap(),
{
    m.insert(k, v)
}

/// `IndexMap::iter`, each entry copied out in the map's order. A map holds
/// each key once.
#[verifier::external_body]
pub(crate) fn columns_entries(m: &IndexMap<u8, String>) -> (v: Vec<(u8, String)>)
    ensures
        entries_view(v@) == column_entries(*m),
        keys_unique(entries_view(v@)),
{
    m.iter().map(|(k, s)| (*k, s.clone())).collect()
}

/// The map holding `list`'s entries, inserted in order.
pub fn columns_from(list: &Vec<(u8, String)>) -> (m: IndexMap<u8, String>)
    ensures
        column_entries(m) == insert_all(Seq::empty(), entries_view(list@)),
{
    let mut m = columns_new();
    let mut i: usize = 0;
    while i < list.len()
        invariant
            i <= list.len(),
            column_entries(m) == insert_all(
                Seq::empty(),
                entries_view(list@).subrange(0, i as int),
            ),
        decreases list.len() - i,
    {
        let ghost pre = entries_view(list@).subrange(0, i as int);
        let ghost next = entries_view(list@).subrange(0, i + 1);
        assert(next.drop_last() =~= pre);
        assert(next.last() == (list@[i as int].0, list@[i as int].1@));
        let k = list[i].0;
        let v = list[i].1.clone();
        columns_insert(&mut m, k, v);
        i = i + 1;
    }
    assert(entries_view(list@).subrange(0, i as int) =~= entries_view(list@));
    m
}

// ---------------------------------------------------------------------------
// Ordering entries by pedal number
// ---------------------------------------------------------------------------

/// The entries of `v`, ordered by pedal number.
pub fn sort_entries(v: Vec<(u8, String)>) -> (r: Vec<(u8, String)>)
    requires
        keys_unique(entries_view(v@)),
    ensures
        sorted_version(entries_view(r@), entries_view(v@)),
{
    let ghost orig = entries_view(v@);
    let mut rest = v;
    let mut r: Vec<(u8, String)> = Vec::new();
    while rest.len() > 0
        invariant
            keys_unique(entries_view(rest@)),
            keys_sorted(entries_view(r@)),
            forall|i: int, j: int|
                0 <= i < r@.len() && 0 <= j < rest@.len() ==> r@[i].0 != rest@[j].0,
            r@.len() + rest@.len() == orig.len(),
            forall|e: (u8, Seq<char>)|
                orig.contains(e) <==> (entries_view(r@).contains(e) || entries_view(
                    rest@,
                ).contains(e)),
        decreases rest@.len(),
    {
        let ghost rest_before = rest@;
        let ghost r_before = r@;
        let e = rest.pop().unwrap();
        let ghost ev = (e.0, e.1@);
        assert(entries_view(rest_before) =~= entries_view(rest@).push(ev));
        // Find the place of `e` among the sorted entries.
        let mut j: usize = 0;
        while j < r.len() && r[j].0 < e.0
            invariant
                j <= r@.len(),
                forall|t: int| 0 <= t < j ==> r@[t].0 < e.0,
            decreases r@.len() - j,
        {
            j = j + 1;
        }
        proof {
            assert(rest_before[(rest_before.len() - 1) as int] == e);
            assert forall|t: int| 0 <= t < r@.len() implies r@[t].0 != e.0 by {
                assert(r_before[t].0 != rest_before[rest_before.len() - 1].0);
            }
            assert forall|t: int| j <= t < r@.len() implies r@[t].0 > e.0 by {
                assert(entries_view(r@)[t].0 == r@[t].0);
                assert(entries_view(r@)[j as int].0 == r@[j as int].0);
                assert(r@[j as int].0 >= e.0);
                assert(r@[t].0 != e.0);
            }
        }
        r.insert(j, e);
        proof {
            let rv = entries_view(r@);
            let rbv = entries_view(r_before);
            assert(rv =~= rbv.insert(j as int, ev));
            assert forall|a: int, b: int| 0 <= a < b < rv.len() implies rv[a].0 < rv[b].0 by {
                if b < j {
                    assert(rv[a] == rbv[a] && rv[b] == rbv[b]);
                } else if b == j {
                    assert(rv[a] == rbv[a]);
                } else if a < j {
                    assert(rv[a] == rbv[a] && rv[b] == rbv[b - 1]);
                } else if a == j {
                    assert(rv[b] == rbv[b - 1]);
                } else {
                    assert(rv[a] == rbv[a - 1] && rv[b] == rbv[b - 1]);
                }
            }
            assert forall|x: (u8, Seq<char>)| rv.contains(x) <==> (rbv.contains(x) || x == ev) by {
                if rv.contains(x) {
                    let t = choose|t: int| 0 <= t < rv.len() && rv[t] == x;
                    if t < j {
                        assert(rbv[t] == x);
                    } else if t > j {
                        assert(rbv[t - 1] == x);
                    }
                }
                if rbv.contains(x) {
                    let t = choose|t: int| 0 <= t < rbv.len() && rbv[t] == x;
                    if t < j {
                        assert(rv[t] == x);
                    } else {
                        assert(rv[t + 1] == x);
                    }
                }
                if x == ev {
                    assert(rv[j as int] == x);
                }
            }
            let restv = entries_view(rest@);
            assert forall|x: (u8, Seq<char>)|
                entries_view(rest_before).contains(x) <==> (restv.contains(x) || x == ev) by {
                if entries_view(rest_before).contains(x) {
                    let t = choose|t: int|
                        0 <= t < entries_view(rest_before).len() && entries_view(rest_before)[t]
                            == x;
                    if t < restv.len() {
                        assert(restv[t] == x);
                    }
                }
                if restv.contains(x) {
                    let t = choose|t: int| 0 <= t < restv.len() && restv[t] == x;
                    assert(entries_view(rest_before)[t] == x);
                }
                if x == ev {
                    assert(entries_view(rest_before)[restv.len() as int] == x);
                }
            }
            assert forall|a: int, b: int|
                0 <= a < r@.len() && 0 <= b < rest@.len() implies r@[a].0 != rest@[b].0 by {
                assert(rest@[b] == rest_before[b]);
                if a < j {
                    assert(r@[a] == r_before[a]);
                } else if a > j {
                    assert(r@[a] == r_before[a - 1]);
                } else {
                    assert(r@[a] == e);
                    let rbv2 = entries_view(rest_before);
                    assert(rbv2[b].0 == rest_before[b].0);
                    assert(rbv2[rest_before.len() - 1].0 == rest_before[rest_before.len() - 1].0);
                    assert(rbv2[b].0 != rbv2[rest_before.len() - 1].0);
                }
            }
            assert forall|x: (u8, Seq<char>)|
                orig.contains(x) <==> (entries_view(r@).contains(x) || restv.contains(x)) by {
                assert(orig.contains(x) <==> (rbv.contains(x) || entries_view(rest_before).contains(
                    x,
                )));
                assert(rv.contains(x) <==> (rbv.contains(x) || x == ev));
                assert(entries_view(rest_before).contains(x) <==> (restv.contains(x) || x == ev));
            }
            assert forall|a: int, b: int| 0 <= a < b < restv.len() implies restv[a].0
                != restv[b].0 by {
                assert(restv[a] == entries_view(rest_before)[a]);
                assert(restv[b] == entries_view(rest_before)[b]);
            }
        }
    }
    proof {
        assert(entries_view(rest@) =~= Seq::<(u8, Seq<char>)>::empty());
    }
    r
}

} // verus!
