//! Lists of entries kept in the order of their keys, each key once.

use crate::text::{
    compare_text, lemma_text_lt_transitive, lemma_text_order_equal, lemma_text_order_flip, text_lt,
    text_order, TextOrder,
};
use vstd::prelude::*;

verus! {

/// What an entry list holds: for each entry the characters of its key and
/// the view of its value, in the order of the list.
pub open spec fn entries_view<V: View>(s: Seq<(String, V)>) -> Seq<(Seq<char>, V::V)> {
    Seq::new(s.len(), |i: int| (s[i].0@, s[i].1@))
}

/// True when the keys of `s` strictly increase, so that no key occurs twice.
pub open spec fn sorted_by_key<W>(s: Seq<(Seq<char>, W)>) -> bool {
    forall|i: int, j: int| 0 <= i < j < s.len() ==> text_lt((#[trigger] s[i]).0, (#[trigger] s[j]).0)
}

/// The list `s` after `k` has been set to `w`: the entry stands before the
/// first entry whose key does not come before `k`, and takes that entry's
/// place when it has the key `k` itself.
pub open spec fn upsert<W>(s: Seq<(Seq<char>, W)>, k: Seq<char>, w: W) -> Seq<(Seq<char>, W)>
    decreases s.len(),
{
    if s.len() == 0 {
        seq![(k, w)]
    } else {
        match text_order(k, s[0].0) {
            TextOrder::Less => seq![(k, w)] + s,
            TextOrder::Equal => seq![(k, w)] + s.drop_first(),
            TextOrder::Greater => seq![s[0]] + upsert(s.drop_first(), k, w),
        }
    }
}

/// Every entry of the list after `k` was set is the new entry or an entry
/// of the list before, and the new entry is among them.
pub proof fn lemma_upsert_entries<W>(s: Seq<(Seq<char>, W)>, k: Seq<char>, w: W)
    ensures
        upsert(s, k, w).contains((k, w)),
        forall|i: int|
            0 <= i < upsert(s, k, w).len() ==> (#[trigger] upsert(s, k, w)[i]) == (k, w)
                || s.contains(upsert(s, k, w)[i]),
    decreases s.len(),
{
    let r = upsert(s, k, w);
    if s.len() == 0 {
        assert(r[0] == (k, w));
    } else {
        match text_order(k, s[0].0) {
            TextOrder::Less => {
                assert(r[0] == (k, w));
                assert forall|i: int| 0 <= i < r.len() implies (#[trigger] r[i]) == (k, w)
                    || s.contains(r[i]) by {
                    if i > 0 {
                        assert(r[i] == s[i - 1]);
                    }
                }
            },
            TextOrder::Equal => {
                assert(r[0] == (k, w));
                assert forall|i: int| 0 <= i < r.len() implies (#[trigger] r[i]) == (k, w)
                    || s.contains(r[i]) by {
                    if i > 0 {
                        assert(r[i] == s[i]);
                    }
                }
            },
            TextOrder::Greater => {
                let tail = upsert(s.drop_first(), k, w);
                lemma_upsert_entries(s.drop_first(), k, w);
                let at = choose|i: int| 0 <= i < tail.len() && tail[i] == (k, w);
                assert(r[at + 1] == (k, w));
                assert forall|i: int| 0 <= i < r.len() implies (#[trigger] r[i]) == (k, w)
                    || s.contains(r[i]) by {
                    if i == 0 {
                        assert(r[0] == s[0]);
                    } else {
                        assert(r[i] == tail[i - 1]);
                        if tail[i - 1] != (k, w) {
                            let j = choose|j: int|
                                0 <= j < s.drop_first().len() && s.drop_first()[j] == tail[i - 1];
                            assert(s[j + 1] == r[i]);
                        }
                    }
                }
            },
        }
    }
}

/// Setting a key keeps a list in the strict order of its keys.
pub proof fn lemma_upsert_sorted<W>(s: Seq<(Seq<char>, W)>, k: Seq<char>, w: W)
    requires
        sorted_by_key(s),
    ensures
        sorted_by_key(upsert(s, k, w)),
    decreases s.len(),
{
    let r = upsert(s, k, w);
    if s.len() > 0 {
        match text_order(k, s[0].0) {
            TextOrder::Less => {
                assert forall|i: int, j: int| 0 <= i < j < r.len() implies text_lt(
                    (#[trigger] r[i]).0,
                    (#[trigger] r[j]).0,
                ) by {
                    assert(r[j] == s[j - 1]);
                    if i == 0 {
                        if j > 1 {
                            lemma_text_lt_transitive(k, s[0].0, s[j - 1].0);
                        }
                    } else {
                        assert(r[i] == s[i - 1]);
                    }
                }
            },
            TextOrder::Equal => {
                lemma_text_order_equal(k, s[0].0);
                assert forall|i: int, j: int| 0 <= i < j < r.len() implies text_lt(
                    (#[trigger] r[i]).0,
                    (#[trigger] r[j]).0,
                ) by {
                    assert(r[j] == s[j]);
                    if i > 0 {
                        assert(r[i] == s[i]);
                    }
                }
            },
            TextOrder::Greater => {
                let rest = s.drop_first();
                let tail = upsert(rest, k, w);
                assert(sorted_by_key(rest)) by {
                    assert forall|i: int, j: int| 0 <= i < j < rest.len() implies text_lt(
                        (#[trigger] rest[i]).0,
                        (#[trigger] rest[j]).0,
                    ) by {
                        assert(rest[i] == s[i + 1]);
                        assert(rest[j] == s[j + 1]);
                    }
                }
                lemma_upsert_sorted(rest, k, w);
                lemma_upsert_entries(rest, k, w);
                lemma_text_order_flip(k, s[0].0);
                assert forall|i: int, j: int| 0 <= i < j < r.len() implies text_lt(
                    (#[trigger] r[i]).0,
                    (#[trigger] r[j]).0,
                ) by {
                    assert(r[j] == tail[j - 1]);
                    if i == 0 {
                        assert(r[0] == s[0]);
                        if tail[j - 1] != (k, w) {
                            let m = choose|m: int| 0 <= m < rest.len() && rest[m] == tail[j - 1];
                            assert(rest[m] == s[m + 1]);
                        }
                    } else {
                        assert(r[i] == tail[i - 1]);
                    }
                }
            },
        }
    }
}

/// Last write wins: of two values set under one key, the second stays.
pub proof fn lemma_upsert_overwrites<W>(s: Seq<(Seq<char>, W)>, k: Seq<char>, w1: W, w2: W)
    ensures
        upsert(upsert(s, k, w1), k, w2) == upsert(s, k, w2),
    decreases s.len(),
{
    lemma_text_order_equal(k, k);
    let once = upsert(s, k, w1);
    if s.len() == 0 {
        assert(once.drop_first() =~= s);
        assert(upsert(once, k, w2) =~= upsert(s, k, w2));
    } else {
        match text_order(k, s[0].0) {
            TextOrder::Less => {
                assert(once.drop_first() =~= s);
                assert(upsert(once, k, w2) =~= upsert(s, k, w2));
            },
            TextOrder::Equal => {
                assert(once.drop_first() =~= s.drop_first());
                assert(upsert(once, k, w2) =~= upsert(s, k, w2));
            },
            TextOrder::Greater => {
                lemma_upsert_overwrites(s.drop_first(), k, w1, w2);
                assert(once.drop_first() =~= upsert(s.drop_first(), k, w1));
                assert(upsert(once, k, w2) =~= upsert(s, k, w2));
            },
        }
    }
}

/// The order of insertion does not show: setting two different keys gives
/// the same list whichever is set first.
pub proof fn lemma_upsert_commutes<W>(
    s: Seq<(Seq<char>, W)>,
    k1: Seq<char>,
    w1: W,
    k2: Seq<char>,
    w2: W,
)
    requires
        k1 != k2,
    ensures
        upsert(upsert(s, k1, w1), k2, w2) == upsert(upsert(s, k2, w2), k1, w1),
    decreases s.len(),
{
    lemma_text_order_equal(k1, k2);
    lemma_text_order_flip(k1, k2);
    let a = upsert(s, k1, w1);
    let b = upsert(s, k2, w2);
    if s.len() == 0 {
        assert(a.drop_first() =~= s);
        assert(b.drop_first() =~= s);
        assert(upsert(a, k2, w2) =~= upsert(b, k1, w1));
    } else {
        let head = s[0].0;
        let rest = s.drop_first();
        lemma_text_order_equal(k1, head);
        lemma_text_order_equal(k2, head);
        lemma_text_order_flip(k1, head);
        lemma_text_order_flip(k2, head);
        if text_order(k1, head) is Greater && text_order(k2, head) is Greater {
            lemma_upsert_commutes(rest, k1, w1, k2, w2);
            assert(a.drop_first() =~= upsert(rest, k1, w1));
            assert(b.drop_first() =~= upsert(rest, k2, w2));
            assert(upsert(a, k2, w2) =~= upsert(b, k1, w1));
        } else if text_order(k1, head) is Greater {
            // k2 stands at the head of `b`, before or in place of the first entry
            assert(a.drop_first() =~= upsert(rest, k1, w1));
            if text_order(k2, k1) is Greater {
                lemma_text_lt_transitive(head, k1, k2);
            }
            if text_order(k2, head) is Less {
                assert(b.drop_first() =~= s);
                lemma_text_lt_transitive(k2, head, k1);
                assert(upsert(b, k1, w1) =~= seq![(k2, w2)] + a);
                assert(upsert(a, k2, w2) =~= seq![(k2, w2)] + a);
            } else {
                assert(b.drop_first() =~= rest);
                assert(upsert(b, k1, w1) =~= seq![(k2, w2)] + upsert(rest, k1, w1));
                assert(upsert(a, k2, w2) =~= seq![(k2, w2)] + upsert(rest, k1, w1));
            }
        } else if text_order(k2, head) is Greater {
            assert(b.drop_first() =~= upsert(rest, k2, w2));
            if text_order(k1, k2) is Greater {
                lemma_text_lt_transitive(head, k2, k1);
            }
            if text_order(k1, head) is Less {
                assert(a.drop_first() =~= s);
                lemma_text_lt_transitive(k1, head, k2);
                assert(upsert(a, k2, w2) =~= seq![(k1, w1)] + b);
                assert(upsert(b, k1, w1) =~= seq![(k1, w1)] + b);
            } else {
                assert(a.drop_first() =~= rest);
                assert(upsert(a, k2, w2) =~= seq![(k1, w1)] + upsert(rest, k2, w2));
                assert(upsert(b, k1, w1) =~= seq![(k1, w1)] + upsert(rest, k2, w2));
            }
        } else {
            // both keys stand at the head; at most one of them is the first key itself
            if text_order(k1, head) is Less {
                assert(a.drop_first() =~= s);
            } else {
                assert(a.drop_first() =~= rest);
            }
            if text_order(k2, head) is Less {
                assert(b.drop_first() =~= s);
            } else {
                assert(b.drop_first() =~= rest);
            }
            if text_order(k1, k2) is Less {
                assert(upsert(b, k1, w1) =~= seq![(k1, w1)] + b);
                assert(upsert(a, k2, w2) =~= seq![(k1, w1)] + upsert(a.drop_first(), k2, w2));
                assert(upsert(a.drop_first(), k2, w2) =~= b);
            } else {
                assert(upsert(a, k2, w2) =~= seq![(k2, w2)] + a);
                assert(upsert(b, k1, w1) =~= seq![(k2, w2)] + upsert(b.drop_first(), k1, w1));
                assert(upsert(b.drop_first(), k1, w1) =~= a);
            }
        }
    }
}

/// In a list in the strict order of its keys, an earlier entry has another
/// key than a later one.
pub proof fn lemma_sorted_keys_differ<W>(s: Seq<(Seq<char>, W)>, i: int, j: int)
    requires
        sorted_by_key(s),
        0 <= i < j < s.len(),
    ensures
        s[i].0 != s[j].0,
{
    lemma_text_order_equal(s[i].0, s[j].0);
}

/// Setting a key is setting it in a map: afterwards the key has the new
/// value and no other, and every other key has what it had.
pub proof fn lemma_upsert_holds<W>(
    s: Seq<(Seq<char>, W)>,
    k: Seq<char>,
    w: W,
    other: Seq<char>,
    held: W,
)
    requires
        sorted_by_key(s),
    ensures
        upsert(s, k, w).contains((other, held)) <==> if other == k {
            held == w
        } else {
            s.contains((other, held))
        },
    decreases s.len(),
{
    let r = upsert(s, k, w);
    lemma_upsert_entries(s, k, w);
    if s.len() == 0 {
        if r.contains((other, held)) {
            let i = choose|i: int| 0 <= i < r.len() && r[i] == (other, held);
            assert(r[i] == (k, w));
        }
    } else {
        let rest = s.drop_first();
        assert(sorted_by_key(rest)) by {
            assert forall|i: int, j: int| 0 <= i < j < rest.len() implies text_lt(
                (#[trigger] rest[i]).0,
                (#[trigger] rest[j]).0,
            ) by {
                assert(rest[i] == s[i + 1]);
                assert(rest[j] == s[j + 1]);
            }
        }
        lemma_text_order_equal(k, s[0].0);
        lemma_text_order_flip(k, s[0].0);
        // no entry behind the first has the first key
        assert forall|j: int| 0 < j < s.len() implies (#[trigger] s[j]).0 != s[0].0 by {
            lemma_sorted_keys_differ(s, 0, j);
        }
        match text_order(k, s[0].0) {
            TextOrder::Less => {
                assert forall|j: int| 0 <= j < s.len() implies (#[trigger] s[j]).0 != k by {
                    if j > 0 {
                        lemma_text_lt_transitive(k, s[0].0, s[j].0);
                    }
                    lemma_text_order_equal(k, s[j].0);
                }
                if r.contains((other, held)) {
                    let i = choose|i: int| 0 <= i < r.len() && r[i] == (other, held);
                    if i > 0 {
                        assert(r[i] == s[i - 1]);
                    }
                }
                if other != k && s.contains((other, held)) {
                    let j = choose|j: int| 0 <= j < s.len() && s[j] == (other, held);
                    assert(r[j + 1] == (other, held));
                }
                if other == k && held == w {
                    assert(r[0] == (other, held));
                }
            },
            TextOrder::Equal => {
                if r.contains((other, held)) {
                    let i = choose|i: int| 0 <= i < r.len() && r[i] == (other, held);
                    if i > 0 {
                        assert(r[i] == s[i]);
                    }
                }
                if other != k && s.contains((other, held)) {
                    let j = choose|j: int| 0 <= j < s.len() && s[j] == (other, held);
                    assert(j > 0);
                    assert(r[j] == (other, held));
                }
                if other == k && held == w {
                    assert(r[0] == (other, held));
                }
            },
            TextOrder::Greater => {
                let tail = upsert(rest, k, w);
                lemma_upsert_holds(rest, k, w, other, held);
                if r.contains((other, held)) {
                    let i = choose|i: int| 0 <= i < r.len() && r[i] == (other, held);
                    if i == 0 {
                        assert(r[0] == s[0]);
                    } else {
                        assert(r[i] == tail[i - 1]);
                        assert(tail.contains((other, held)));
                        if other != k {
                            let j = choose|j: int| 0 <= j < rest.len() && rest[j] == (other, held);
                            assert(s[j + 1] == (other, held));
                        }
                    }
                }
                if other != k && s.contains((other, held)) {
                    let j = choose|j: int| 0 <= j < s.len() && s[j] == (other, held);
                    if j == 0 {
                        assert(r[0] == (other, held));
                    } else {
                        assert(rest[j - 1] == (other, held));
                        assert(tail.contains((other, held)));
                        let i = choose|i: int| 0 <= i < tail.len() && tail[i] == (other, held);
                        assert(r[i + 1] == (other, held));
                    }
                }
                if other == k && held == w {
                    assert(tail.contains((other, held)));
                    let i = choose|i: int| 0 <= i < tail.len() && tail[i] == (other, held);
                    assert(r[i + 1] == (other, held));
                }
            },
        }
    }
}

/// What a list holds decides the list: two lists in the strict order of
/// their keys that hold the same entries are the same list, however each
/// came about.
pub proof fn lemma_sorted_entries_unique<W>(s: Seq<(Seq<char>, W)>, t: Seq<(Seq<char>, W)>)
    requires
        sorted_by_key(s),
        sorted_by_key(t),
        forall|e: (Seq<char>, W)| s.contains(e) <==> t.contains(e),
    ensures
        s == t,
    decreases s.len(),
{
    if s.len() == 0 {
        if t.len() > 0 {
            assert(t.contains(t[0]));
        }
        assert(s =~= t);
    } else {
        let top = s.last();
        assert(s.contains(top));
        let at = choose|i: int| 0 <= i < t.len() && t[i] == top;
        if at < t.len() - 1 {
            // the last entry of `t` would stand in `s` behind its own last entry
            let beyond = t.last();
            assert(t.contains(beyond));
            let back = choose|i: int| 0 <= i < s.len() && s[i] == beyond;
            assert(text_lt(t[at].0, t[t.len() - 1].0));
            lemma_text_order_equal(top.0, top.0);
            if back < s.len() - 1 {
                assert(text_lt(s[back].0, s[s.len() - 1].0));
                lemma_text_lt_transitive(top.0, beyond.0, top.0);
            }
            assert(false);
        }
        let s0 = s.drop_last();
        let t0 = t.drop_last();
        assert forall|e: (Seq<char>, W)| s0.contains(e) <==> t0.contains(e) by {
            lemma_text_order_equal(top.0, top.0);
            if s0.contains(e) {
                let i = choose|i: int| 0 <= i < s0.len() && s0[i] == e;
                assert(s[i] == e);
                assert(text_lt(s[i].0, s[s.len() - 1].0));
                assert(s.contains(e));
                let j = choose|j: int| 0 <= j < t.len() && t[j] == e;
                assert(j < t.len() - 1);
                assert(t0[j] == e);
            }
            if t0.contains(e) {
                let j = choose|j: int| 0 <= j < t0.len() && t0[j] == e;
                assert(t[j] == e);
                assert(text_lt(t[j].0, t[t.len() - 1].0));
                assert(t.contains(e));
                let i = choose|i: int| 0 <= i < s.len() && s[i] == e;
                assert(i < s.len() - 1);
                assert(s0[i] == e);
            }
        }
        assert(sorted_by_key(s0)) by {
            assert forall|i: int, j: int| 0 <= i < j < s0.len() implies text_lt(
                (#[trigger] s0[i]).0,
                (#[trigger] s0[j]).0,
            ) by {
                assert(s0[i] == s[i]);
                assert(s0[j] == s[j]);
            }
        }
        assert(sorted_by_key(t0)) by {
            assert forall|i: int, j: int| 0 <= i < j < t0.len() implies text_lt(
                (#[trigger] t0[i]).0,
                (#[trigger] t0[j]).0,
            ) by {
                assert(t0[i] == t[i]);
                assert(t0[j] == t[j]);
            }
        }
        lemma_sorted_entries_unique(s0, t0);
        assert(s =~= s0.push(top));
        assert(t =~= t0.push(top));
    }
}

/// Sets `key` to `value` in `entries`.
pub fn put<V: View>(entries: &mut Vec<(String, V)>, key: String, value: V)
    ensures
        entries_view(final(entries)@) == upsert(entries_view(old(entries)@), key@, value@),
{
    let ghost before = entries_view(entries@);
    let mut i: usize = 0;
    proof {
        assert(before.take(0) + upsert(before.skip(0), key@, value@) =~= upsert(
            before,
            key@,
            value@,
        )) by {
            assert(before.skip(0) =~= before);
        }
    }
    while i < entries.len()
        invariant
            i <= entries.len(),
            entries@ == old(entries)@,
            before == entries_view(entries@),
            upsert(before, key@, value@) == before.take(i as int) + upsert(
                before.skip(i as int),
                key@,
                value@,
            ),
        decreases entries.len() - i,
    {
        let ghost rest = before.skip(i as int);
        proof {
            assert(rest.len() > 0);
            assert(rest[0] == before[i as int]);
            assert(rest.drop_first() =~= before.skip(i + 1));
        }
        match compare_text(key.as_str(), entries[i].0.as_str()) {
            TextOrder::Less => {
                entries.insert(i, (key, value));
                proof {
                    assert(entries_view(entries@) =~= before.take(i as int) + (seq![(key@, value@)]
                        + rest));
                }
                return ;
            },
            TextOrder::Equal => {
                entries.set(i, (key, value));
                proof {
                    assert(entries_view(entries@) =~= before.take(i as int) + (seq![(key@, value@)]
                        + rest.drop_first()));
                }
                return ;
            },
            TextOrder::Greater => {
                proof {
                    assert(before.take(i as int) + (seq![rest[0]] + upsert(
                        rest.drop_first(),
                        key@,
                        value@,
                    )) =~= before.take(i + 1) + upsert(before.skip(i + 1), key@, value@));
                }
                i += 1;
            },
        }
    }
    proof {
        assert(before.skip(i as int) =~= Seq::empty());
    }
    entries.push((key, value));
    proof {
        assert(entries_view(entries@) =~= before.take(i as int) + seq![(key@, value@)]);
    }
}

} // verus!
