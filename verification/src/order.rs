//! Ascending enumeration of id sets.
//!
//! Every table of a database is written in ascending id order, and the rank
//! of an id in that order is what child records use to name their parent.
//! This module defines that order once, for both id widths, and connects it
//! to the order in which a `BTreeMap` hands out its entries.

use std::collections::BTreeMap;
use vstd::prelude::*;
use vstd::std_specs::btree::increasing_seq;
use vstd::std_specs::cmp::OrdSpec;
use vstd::std_specs::iter::IteratorSpec;

verus! {

/// The members of `dom` in `[0, hi)`, smallest first.
pub open spec fn ascending_below(dom: Set<int>, hi: int) -> Seq<int>
    decreases hi,
{
    if hi <= 0 {
        Seq::empty()
    } else if dom.contains(hi - 1) {
        ascending_below(dom, hi - 1).push(hi - 1)
    } else {
        ascending_below(dom, hi - 1)
    }
}

/// Each element is smaller than every later one.
pub open spec fn strictly_increasing(s: Seq<int>) -> bool {
    forall|i: int, j: int| 0 <= i < j < s.len() ==> s[i] < s[j]
}

/// `ascending_below(dom, hi)` is strictly increasing and holds exactly the
/// members of `dom` in `[0, hi)`.
pub proof fn lemma_ascending_below(dom: Set<int>, hi: int)
    ensures
        strictly_increasing(ascending_below(dom, hi)),
        forall|k: int| #[trigger]
            ascending_below(dom, hi).contains(k) <==> (0 <= k < hi && dom.contains(k)),
    decreases hi,
{
    if hi > 0 {
        lemma_ascending_below(dom, hi - 1);
        let prev = ascending_below(dom, hi - 1);
        let cur = ascending_below(dom, hi);
        if dom.contains(hi - 1) {
            assert(cur == prev.push(hi - 1));
            assert forall|i: int, j: int| 0 <= i < j < cur.len() implies cur[i] < cur[j] by {
                assert(prev.contains(cur[i]));
                if j < prev.len() {
                    assert(cur[j] == prev[j]);
                }
            }
            assert forall|k: int| #[trigger]
                cur.contains(k) <==> (0 <= k < hi && dom.contains(k)) by {
                if cur.contains(k) {
                    let i = choose|i: int| 0 <= i < cur.len() && cur[i] == k;
                    if i < prev.len() {
                        assert(prev.contains(k));
                    }
                }
                if 0 <= k < hi && dom.contains(k) {
                    if k == hi - 1 {
                        assert(cur[prev.len() as int] == k);
                    } else {
                        assert(prev.contains(k));
                        let i = choose|i: int| 0 <= i < prev.len() && prev[i] == k;
                        assert(cur[i] == k);
                    }
                }
            }
        } else {
            assert forall|k: int| #[trigger]
                cur.contains(k) <==> (0 <= k < hi && dom.contains(k)) by {
                assert(prev.contains(k) <==> (0 <= k < hi - 1 && dom.contains(k)));
            }
        }
    } else {
        assert forall|k: int| !(#[trigger] ascending_below(dom, hi).contains(k)) by {}
    }
}

/// Two strictly increasing sequences with the same members are equal.
pub proof fn lemma_increasing_unique(a: Seq<int>, b: Seq<int>)
    requires
        strictly_increasing(a),
        strictly_increasing(b),
        forall|k: int| a.contains(k) <==> b.contains(k),
    ensures
        a == b,
    decreases a.len(),
{
    if a.len() == 0 {
        if b.len() > 0 {
            assert(b.contains(b[0]));
        }
        assert(a =~= b);
    } else {
        assert(a.contains(a.last()));
        assert(b.contains(a.last()));
        assert(b.len() > 0);
        assert(b.contains(b.last()));
        assert(a.contains(b.last()));
        let ia = choose|i: int| 0 <= i < a.len() && a[i] == b.last();
        let ib = choose|i: int| 0 <= i < b.len() && b[i] == a.last();
        assert(a.last() == b.last());
        let a0 = a.drop_last();
        let b0 = b.drop_last();
        assert forall|k: int| a0.contains(k) <==> b0.contains(k) by {
            if a0.contains(k) {
                let i = choose|i: int| 0 <= i < a0.len() && a0[i] == k;
                assert(a[i] == k);
                assert(a.contains(k));
                let j = choose|j: int| 0 <= j < b.len() && b[j] == k;
                assert(b0[j] == k);
            }
            if b0.contains(k) {
                let i = choose|i: int| 0 <= i < b0.len() && b0[i] == k;
                assert(b[i] == k);
                assert(b.contains(k));
                let j = choose|j: int| 0 <= j < a.len() && a[j] == k;
                assert(a0[j] == k);
            }
        }
        lemma_increasing_unique(a0, b0);
        assert(a =~= a0.push(a.last()));
        assert(b =~= b0.push(b.last()));
    }
}

/// The ids of `dom` as integers.
pub open spec fn widen_u32(dom: Set<u32>) -> Set<int> {
    Set::new(|i: int| 0 <= i <= u32::MAX && dom.contains(i as u32))
}

/// The ids of `dom`, smallest first. The position of an id in this sequence
/// is its rank.
pub open spec fn ascending_u32(dom: Set<u32>) -> Seq<u32> {
    ascending_below(widen_u32(dom), 0x1_0000_0000).map_values(|i: int| i as u32)
}

/// `ascending_u32(dom)` is strictly increasing and holds exactly the ids of
/// `dom`; so no id occurs twice in it.
pub proof fn lemma_ascending_u32(dom: Set<u32>)
    ensures
        forall|i: int, j: int|
            0 <= i < j < ascending_u32(dom).len() ==> ascending_u32(dom)[i] < ascending_u32(
                dom,
            )[j],
        forall|k: u32| #[trigger] ascending_u32(dom).contains(k) <==> dom.contains(k),
        forall|i: int|
            0 <= i < ascending_u32(dom).len() ==> dom.contains(#[trigger] ascending_u32(dom)[i]),
        ascending_u32(dom).len() <= 0x1_0000_0000,
{
    let wide = ascending_below(widen_u32(dom), 0x1_0000_0000);
    let ids = ascending_u32(dom);
    lemma_ascending_below(widen_u32(dom), 0x1_0000_0000);
    assert forall|i: int| 0 <= i < wide.len() implies 0 <= #[trigger] wide[i] <= u32::MAX
        && dom.contains(wide[i] as u32) by {
        assert(wide.contains(wide[i]));
    }
    lemma_increasing_len(wide, 0x1_0000_0000);
    assert forall|i: int, j: int| 0 <= i < j < ids.len() implies ids[i] < ids[j] by {
        assert(wide[i] < wide[j]);
    }
    assert forall|k: u32| #[trigger] ids.contains(k) <==> dom.contains(k) by {
        if ids.contains(k) {
            let i = choose|i: int| 0 <= i < ids.len() && ids[i] == k;
            assert(wide[i] == k as int);
        }
        if dom.contains(k) {
            assert(wide.contains(k as int));
            let i = choose|i: int| 0 <= i < wide.len() && wide[i] == k as int;
            assert(ids[i] == k);
        }
    }
    assert forall|i: int| 0 <= i < ids.len() implies dom.contains(#[trigger] ids[i]) by {
        assert(ids.contains(ids[i]));
    }
}

/// A strictly increasing sequence of values in `[0, hi)` has at most `hi`
/// elements.
pub proof fn lemma_increasing_len(s: Seq<int>, hi: int)
    requires
        strictly_increasing(s),
        forall|i: int| 0 <= i < s.len() ==> 0 <= #[trigger] s[i] < hi,
    ensures
        s.len() <= hi || s.len() == 0,
        forall|i: int| 0 <= i < s.len() ==> i <= #[trigger] s[i],
    decreases s.len(),
{
    if s.len() > 0 {
        let s0 = s.drop_last();
        lemma_increasing_len(s0, hi);
        assert forall|i: int| 0 <= i < s.len() implies i <= #[trigger] s[i] by {
            if i < s0.len() {
                assert(s0[i] == s[i]);
            } else if i > 0 {
                assert(s0[i - 1] == s[i - 1]);
                assert(s[i - 1] < s[i]);
            }
        }
        assert(s.len() - 1 <= s[s.len() - 1]);
    }
}

/// A strictly increasing sequence that holds exactly the ids of `dom` is
/// `ascending_u32(dom)`.
pub proof fn lemma_ascending_u32_unique(dom: Set<u32>, s: Seq<u32>)
    requires
        forall|i: int, j: int| 0 <= i < j < s.len() ==> s[i] < s[j],
        forall|k: u32| s.contains(k) <==> dom.contains(k),
    ensures
        s == ascending_u32(dom),
{
    let wide = ascending_below(widen_u32(dom), 0x1_0000_0000);
    let w = s.map_values(|k: u32| k as int);
    lemma_ascending_below(widen_u32(dom), 0x1_0000_0000);
    assert forall|k: int| w.contains(k) <==> wide.contains(k) by {
        if w.contains(k) {
            let i = choose|i: int| 0 <= i < w.len() && w[i] == k;
            assert(s.contains(s[i]));
            assert(dom.contains(s[i]));
            assert(widen_u32(dom).contains(k));
        }
        if wide.contains(k) {
            assert(dom.contains(k as u32));
            assert(s.contains(k as u32));
            let i = choose|i: int| 0 <= i < s.len() && s[i] == k as u32;
            assert(w[i] == k);
        }
    }
    assert forall|i: int, j: int| 0 <= i < j < w.len() implies w[i] < w[j] by {
        assert(s[i] < s[j]);
    }
    lemma_increasing_unique(w, wide);
    assert(s =~= ascending_u32(dom));
}

/// The ids of `dom` as integers.
pub open spec fn widen_u16(dom: Set<u16>) -> Set<int> {
    Set::new(|i: int| 0 <= i <= u16::MAX && dom.contains(i as u16))
}

/// The 16-bit ids of `dom`, smallest first.
pub open spec fn ascending_u16(dom: Set<u16>) -> Seq<u16> {
    ascending_below(widen_u16(dom), 0x1_0000).map_values(|i: int| i as u16)
}

/// `ascending_u16(dom)` is strictly increasing and holds exactly the ids of
/// `dom`; so no id occurs twice in it.
pub proof fn lemma_ascending_u16(dom: Set<u16>)
    ensures
        forall|i: int, j: int|
            0 <= i < j < ascending_u16(dom).len() ==> ascending_u16(dom)[i] < ascending_u16(
                dom,
            )[j],
        forall|k: u16| #[trigger] ascending_u16(dom).contains(k) <==> dom.contains(k),
        forall|i: int|
            0 <= i < ascending_u16(dom).len() ==> dom.contains(#[trigger] ascending_u16(dom)[i]),
        ascending_u16(dom).len() <= 0x1_0000,
{
    let wide = ascending_below(widen_u16(dom), 0x1_0000);
    let ids = ascending_u16(dom);
    lemma_ascending_below(widen_u16(dom), 0x1_0000);
    assert forall|i: int| 0 <= i < wide.len() implies 0 <= #[trigger] wide[i] <= u16::MAX
        && dom.contains(wide[i] as u16) by {
        assert(wide.contains(wide[i]));
    }
    lemma_increasing_len(wide, 0x1_0000);
    assert forall|i: int, j: int| 0 <= i < j < ids.len() implies ids[i] < ids[j] by {
        assert(wide[i] < wide[j]);
    }
    assert forall|k: u16| #[trigger] ids.contains(k) <==> dom.contains(k) by {
        if ids.contains(k) {
            let i = choose|i: int| 0 <= i < ids.len() && ids[i] == k;
            assert(wide[i] == k as int);
        }
        if dom.contains(k) {
            assert(wide.contains(k as int));
            let i = choose|i: int| 0 <= i < wide.len() && wide[i] == k as int;
            assert(ids[i] == k);
        }
    }
    assert forall|i: int| 0 <= i < ids.len() implies dom.contains(#[trigger] ids[i]) by {
        assert(ids.contains(ids[i]));
    }
}

/// A strictly increasing sequence that holds exactly the ids of `dom` is
/// `ascending_u16(dom)`.
pub proof fn lemma_ascending_u16_unique(dom: Set<u16>, s: Seq<u16>)
    requires
        forall|i: int, j: int| 0 <= i < j < s.len() ==> s[i] < s[j],
        forall|k: u16| s.contains(k) <==> dom.contains(k),
    ensures
        s == ascending_u16(dom),
{
    let wide = ascending_below(widen_u16(dom), 0x1_0000);
    let w = s.map_values(|k: u16| k as int);
    lemma_ascending_below(widen_u16(dom), 0x1_0000);
    assert forall|k: int| w.contains(k) <==> wide.contains(k) by {
        if w.contains(k) {
            let i = choose|i: int| 0 <= i < w.len() && w[i] == k;
            assert(s.contains(s[i]));
            assert(dom.contains(s[i]));
            assert(widen_u16(dom).contains(k));
        }
        if wide.contains(k) {
            assert(dom.contains(k as u16));
            assert(s.contains(k as u16));
            let i = choose|i: int| 0 <= i < s.len() && s[i] == k as u16;
            assert(w[i] == k);
        }
    }
    assert forall|i: int, j: int| 0 <= i < j < w.len() implies w[i] < w[j] by {
        assert(s[i] < s[j]);
    }
    lemma_increasing_unique(w, wide);
    assert(s =~= ascending_u16(dom));
}

/// What `increasing_seq` means for 32-bit ids.
proof fn lemma_increasing_seq_u32(s: Seq<u32>)
    requires
        increasing_seq(s),
    ensures
        forall|i: int, j: int| 0 <= i < j < s.len() ==> s[i] < s[j],
{
    assert forall|i: int, j: int| 0 <= i < j < s.len() implies s[i] < s[j] by {
        assert(s[i].cmp_spec(&s[j]) is Less);
    }
}

/// What `increasing_seq` means for 16-bit ids.
proof fn lemma_increasing_seq_u16(s: Seq<u16>)
    requires
        increasing_seq(s),
    ensures
        forall|i: int, j: int| 0 <= i < j < s.len() ==> s[i] < s[j],
{
    assert forall|i: int, j: int| 0 <= i < j < s.len() implies s[i] < s[j] by {
        assert(s[i].cmp_spec(&s[j]) is Less);
    }
}

/// The entries of `m` in ascending id order: entry `i` is the id of rank `i`
/// with the value stored under it.
pub fn entries_u32<'a, V>(m: &'a BTreeMap<u32, V>) -> (out: Vec<(u32, &'a V)>)
    ensures
        out@.len() == ascending_u32(m@.dom()).len(),
        forall|i: int|
            0 <= i < out@.len() ==> {
                &&& (#[trigger] out@[i]).0 == ascending_u32(m@.dom())[i]
                &&& m@.contains_key(out@[i].0)
                &&& *out@[i].1 == m@[out@[i].0]
            },
{
    let mut out: Vec<(u32, &'a V)> = Vec::new();
    let iter = m.iter();
    let ghost all = iter.remaining();
    let ghost keys = all.map_values(|kv: (&u32, &V)| *kv.0);
    for kv in it: iter
        invariant
            out@.len() == it.index(),
            it.seq() == all,
            forall|i: int|
                0 <= i < out@.len() ==> (#[trigger] out@[i]).0 == *all[i].0 && *out@[i].1
                    == *all[i].1,
    {
        let (k, v) = kv;
        out.push((*k, v));
    }
    proof {
        lemma_increasing_seq_u32(keys);
        assert forall|i: int| 0 <= i < all.len() implies m@.contains_key(*(#[trigger] all[i]).0)
            && m@[*all[i].0] == *all[i].1 by {
            assert(m@.contains_key(*all[i].0));
        }
        assert forall|k: u32| keys.contains(k) <==> m@.dom().contains(k) by {
            if keys.contains(k) {
                let i = choose|i: int| 0 <= i < keys.len() && keys[i] == k;
                assert(m@.contains_key(*all[i].0));
            }
            if m@.dom().contains(k) {
                assert(m@.contains_key(k));
                assert(all.contains((&k, &m@[k])));
                let i = choose|i: int| 0 <= i < all.len() && all[i] == (&k, &m@[k]);
                assert(keys[i] == k);
            }
        }
        lemma_ascending_u32_unique(m@.dom(), keys);
        assert forall|i: int| 0 <= i < out@.len() implies {
            &&& (#[trigger] out@[i]).0 == ascending_u32(m@.dom())[i]
            &&& m@.contains_key(out@[i].0)
            &&& *out@[i].1 == m@[out@[i].0]
        } by {
            assert(keys[i] == *all[i].0);
        }
    }
    out
}

/// The entries of `m` in ascending id order, for 16-bit ids.
pub fn entries_u16<'a, V>(m: &'a BTreeMap<u16, V>) -> (out: Vec<(u16, &'a V)>)
    ensures
        out@.len() == ascending_u16(m@.dom()).len(),
        forall|i: int|
            0 <= i < out@.len() ==> {
                &&& (#[trigger] out@[i]).0 == ascending_u16(m@.dom())[i]
                &&& m@.contains_key(out@[i].0)
                &&& *out@[i].1 == m@[out@[i].0]
            },
{
    let mut out: Vec<(u16, &'a V)> = Vec::new();
    let iter = m.iter();
    let ghost all = iter.remaining();
    let ghost keys = all.map_values(|kv: (&u16, &V)| *kv.0);
    for kv in it: iter
        invariant
            out@.len() == it.index(),
            it.seq() == all,
            forall|i: int|
                0 <= i < out@.len() ==> (#[trigger] out@[i]).0 == *all[i].0 && *out@[i].1
                    == *all[i].1,
    {
        let (k, v) = kv;
        out.push((*k, v));
    }
    proof {
        lemma_increasing_seq_u16(keys);
        assert forall|i: int| 0 <= i < all.len() implies m@.contains_key(*(#[trigger] all[i]).0)
            && m@[*all[i].0] == *all[i].1 by {
            assert(m@.contains_key(*all[i].0));
        }
        assert forall|k: u16| keys.contains(k) <==> m@.dom().contains(k) by {
            if keys.contains(k) {
                let i = choose|i: int| 0 <= i < keys.len() && keys[i] == k;
                assert(m@.contains_key(*all[i].0));
            }
            if m@.dom().contains(k) {
                assert(m@.contains_key(k));
                assert(all.contains((&k, &m@[k])));
                let i = choose|i: int| 0 <= i < all.len() && all[i] == (&k, &m@[k]);
                assert(keys[i] == k);
            }
        }
        lemma_ascending_u16_unique(m@.dom(), keys);
        assert forall|i: int| 0 <= i < out@.len() implies {
            &&& (#[trigger] out@[i]).0 == ascending_u16(m@.dom())[i]
            &&& m@.contains_key(out@[i].0)
            &&& *out@[i].1 == m@[out@[i].0]
        } by {
            assert(keys[i] == *all[i].0);
        }
    }
    out
}

} // verus!
